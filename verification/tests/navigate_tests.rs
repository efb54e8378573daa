//! Tests for discovery and the top / bottom / up / down commands.

use st_core::errors::StError;
use st_core::graph::StackGraph;
use st_core::navigate::{
    BottomCmd, CmdOutcome, CreateCmd, DeleteCmd, DownCmd, NavOutcome, RestackCmd, Subcommands,
    TopCmd, TrackCmd, UntrackCmd, UpCmd,
};
use st_core::restack::RestackAction;

fn s(x: &str) -> String {
    x.to_string()
}

fn git(names: &[&str]) -> Vec<String> {
    names.iter().map(|n| n.to_string()).collect()
}

fn sample_stack() -> StackGraph {
    let repo = git(&["trunk", "a", "b", "c"]);
    let mut g = StackGraph::new(s("trunk"));
    g.track(&s("a"), &s("trunk"), &repo).unwrap();
    g.track(&s("b"), &s("a"), &repo).unwrap();
    g.track(&s("c"), &s("b"), &repo).unwrap();
    g
}

#[test]
fn discovery_is_anchor_independent() {
    // the stack is the same, trunk first, whichever branch anchors it
    let g = sample_stack();
    let expected = vec![s("trunk"), s("a"), s("b"), s("c")];
    for anchor in ["trunk", "a", "b", "c"] {
        assert_eq!(g.discover_stack(&s(anchor)).unwrap(), expected);
    }
}

#[test]
fn discovery_rejects_untracked_anchor() {
    let g = sample_stack();
    assert_eq!(
        g.discover_stack(&s("elsewhere")),
        Err(StError::BranchNotTracked(s("elsewhere")))
    );
}

#[test]
fn discovery_stops_at_fanout() {
    let repo = git(&["trunk", "a", "left", "right"]);
    let mut g = StackGraph::new(s("trunk"));
    g.track(&s("a"), &s("trunk"), &repo).unwrap();
    g.track(&s("left"), &s("a"), &repo).unwrap();
    g.track(&s("right"), &s("a"), &repo).unwrap();
    // from below the fork, discovery never guesses between siblings
    assert_eq!(g.discover_stack(&s("trunk")).unwrap(), vec![s("trunk"), s("a")]);
    assert_eq!(g.discover_stack(&s("a")).unwrap(), vec![s("trunk"), s("a")]);
    // from a sibling, the stack runs through it
    assert_eq!(
        g.discover_stack(&s("left")).unwrap(),
        vec![s("trunk"), s("a"), s("left")]
    );
}

#[test]
fn discovery_on_bare_trunk() {
    let g = StackGraph::new(s("trunk"));
    assert_eq!(g.discover_stack(&s("trunk")).unwrap(), vec![s("trunk")]);
}

#[test]
fn bottom_moves_to_first_branch_after_trunk() {
    let g = sample_stack();
    let r = BottomCmd.resolve(&g, &s("c")).unwrap();
    assert_eq!(r, NavOutcome::Checkout(s("a")));
}

#[test]
fn top_moves_to_stack_tip() {
    let g = sample_stack();
    let r = TopCmd.resolve(&g, &s("a")).unwrap();
    assert_eq!(r, NavOutcome::Checkout(s("c")));
}

#[test]
fn top_and_bottom_need_a_stack() {
    let g = StackGraph::new(s("trunk"));
    assert_eq!(TopCmd.resolve(&g, &s("trunk")), Err(StError::NoStackFound));
    assert_eq!(BottomCmd.resolve(&g, &s("trunk")), Err(StError::NoStackFound));
}

#[test]
fn top_is_idempotent() {
    // resolving top, moving there, and resolving top again stays put
    let g = sample_stack();
    let first = TopCmd.resolve(&g, &s("a")).unwrap();
    assert_eq!(first, NavOutcome::Checkout(s("c")));
    let second = TopCmd.resolve(&g, &s("c")).unwrap();
    assert_eq!(second, NavOutcome::Checkout(s("c")));
}

#[test]
fn up_then_down_returns_to_start() {
    // the inverse law at each non-terminal position
    let g = sample_stack();
    for start in ["trunk", "a", "b"] {
        let up = UpCmd.resolve(&g, &s(start)).unwrap();
        let target = match up {
            NavOutcome::Checkout(t) => t,
            other => panic!("expected a checkout, got {:?}", other),
        };
        let down = DownCmd.resolve(&g, &target).unwrap();
        assert_eq!(down, NavOutcome::Checkout(s(start)));
    }
}

#[test]
fn up_at_top_is_informational_success() {
    let g = sample_stack();
    assert_eq!(
        UpCmd.resolve(&g, &s("c")),
        Ok(NavOutcome::AlreadyAtTop(s("c")))
    );
}

#[test]
fn down_on_trunk_is_informational_success() {
    // staying on trunk is a success with a message, not an error
    let g = sample_stack();
    assert_eq!(
        DownCmd.resolve(&g, &s("trunk")),
        Ok(NavOutcome::AlreadyAtTrunk(s("trunk")))
    );
}

#[test]
fn navigation_rejects_untracked_current() {
    let g = sample_stack();
    assert_eq!(
        UpCmd.resolve(&g, &s("elsewhere")),
        Err(StError::BranchNotTracked(s("elsewhere")))
    );
    assert_eq!(
        DownCmd.resolve(&g, &s("elsewhere")),
        Err(StError::BranchNotTracked(s("elsewhere")))
    );
}

fn nav(r: Result<CmdOutcome, st_core::errors::StError>) -> NavOutcome {
    match r {
        Ok(CmdOutcome::Nav(o)) => o,
        other => panic!("expected a navigation outcome, got {:?}", other.is_ok()),
    }
}

#[test]
fn subcommands_dispatch_to_each_resolver() {
    let mut g = sample_stack();
    let repo = git(&["trunk", "a", "b", "c"]);
    assert_eq!(
        nav(Subcommands::Bottom(BottomCmd).run(&mut g, &s("b"), &repo)),
        NavOutcome::Checkout(s("a"))
    );
    assert_eq!(
        nav(Subcommands::Top(TopCmd).run(&mut g, &s("b"), &repo)),
        NavOutcome::Checkout(s("c"))
    );
    assert_eq!(
        nav(Subcommands::Up(UpCmd).run(&mut g, &s("b"), &repo)),
        NavOutcome::Checkout(s("c"))
    );
    assert_eq!(
        nav(Subcommands::Down(DownCmd).run(&mut g, &s("b"), &repo)),
        NavOutcome::Checkout(s("a"))
    );
}

#[test]
fn run_track_rejects_descendant_parent_at_any_depth() {
    // re-parenting a onto its own descendant, one or three levels down, is a
    // cycle; the store is left untouched
    let repo = git(&["trunk", "a", "b", "c"]);
    for descendant in ["a", "b", "c"] {
        let mut g = sample_stack();
        let r = Subcommands::Track(TrackCmd { parent: s(descendant) }).run(&mut g, &s("a"), &repo);
        assert!(matches!(r, Err(StError::CycleDetected)));
        assert_eq!(g.get_parent(&s("a")), Some(s("trunk")));
        assert_eq!(g.get_parent(&s("b")), Some(s("a")));
        assert_eq!(g.get_parent(&s("c")), Some(s("b")));
    }
}

#[test]
fn run_untrack_closes_the_gap() {
    // untrack(b) through the dispatcher re-parents c onto a
    let mut g = sample_stack();
    let repo = git(&["trunk", "a", "b", "c"]);
    let r = Subcommands::Untrack(UntrackCmd { branch: s("b") }).run(&mut g, &s("a"), &repo);
    assert!(matches!(r, Ok(CmdOutcome::StoreUpdated)));
    assert_eq!(g.get_parent(&s("c")), Some(s("a")));
    assert_eq!(
        g.discover_stack(&s("c")).unwrap(),
        vec![s("trunk"), s("a"), s("c")]
    );
}

#[test]
fn run_create_and_delete_update_the_store() {
    let mut g = sample_stack();
    let repo = git(&["trunk", "a", "b", "c", "d"]);
    let r = Subcommands::Create(CreateCmd { name: s("d") }).run(&mut g, &s("c"), &repo);
    assert!(matches!(r, Ok(CmdOutcome::StoreUpdated)));
    assert_eq!(g.get_parent(&s("d")), Some(s("c")));
    let r = Subcommands::Delete(DeleteCmd { branch: s("c") }).run(&mut g, &s("a"), &repo);
    assert!(matches!(r, Ok(CmdOutcome::StoreUpdated)));
    assert_eq!(g.get_parent(&s("d")), Some(s("b")));
}

#[test]
fn run_restack_walks_the_stack_in_order_and_halts_on_conflict() {
    // trunk's tip moved: the pass rebases a onto trunk, then b onto a; b
    // conflicts, so c is never touched and the halted state records it
    let mut g = sample_stack();
    let repo = git(&["trunk", "a", "b", "c"]);
    let r = Subcommands::Restack(RestackCmd).run(&mut g, &s("b"), &repo);
    let mut state = match r {
        Ok(CmdOutcome::RestackStarted(st)) => st,
        other => panic!("expected a started pass, got {:?}", other.is_ok()),
    };
    assert_eq!(state.current_work(), Some((s("a"), s("trunk"))));
    assert_eq!(
        state.next_action(&s("base-a"), &s("trunk-tip2")),
        RestackAction::Rebase { branch: s("a"), onto: s("trunk") }
    );
    state.advance();
    assert_eq!(
        state.next_action(&s("base-b"), &s("a-tip2")),
        RestackAction::Rebase { branch: s("b"), onto: s("a") }
    );
    state.mark_conflict();
    assert_eq!(state.conflicted_branch(), Some(s("b")));
    assert_eq!(state.remaining(), vec![s("c")]);
    assert_eq!(state.current_work(), None);
}

#[test]
fn run_restack_on_consistent_stack_decides_only_skips() {
    let mut g = sample_stack();
    let repo = git(&["trunk", "a", "b", "c"]);
    let r = Subcommands::Restack(RestackCmd).run(&mut g, &s("a"), &repo);
    let mut state = match r {
        Ok(CmdOutcome::RestackStarted(st)) => st,
        other => panic!("expected a started pass, got {:?}", other.is_ok()),
    };
    let tips = [s("t0"), s("t1"), s("t2")];
    for tip in &tips {
        assert!(matches!(
            state.next_action(tip, tip),
            RestackAction::Skip { .. }
        ));
        state.advance();
    }
    assert!(state.is_complete());
}

#[test]
fn untrack_closes_the_gap_for_discovery() {
    // untrack(b) re-parents c onto a; discovery from c then yields trunk-a-c
    let repo = git(&["trunk", "a", "b", "c"]);
    let mut g = StackGraph::new(s("trunk"));
    g.track(&s("a"), &s("trunk"), &repo).unwrap();
    g.track(&s("b"), &s("a"), &repo).unwrap();
    g.track(&s("c"), &s("b"), &repo).unwrap();
    g.untrack(&s("b")).unwrap();
    assert_eq!(
        g.discover_stack(&s("c")).unwrap(),
        vec![s("trunk"), s("a"), s("c")]
    );
}
