//! Tests for the branch-link store: tracking, cycle rejection, untracking.

use st_core::errors::StError;
use st_core::graph::StackGraph;

fn s(x: &str) -> String {
    x.to_string()
}

fn git(names: &[&str]) -> Vec<String> {
    names.iter().map(|n| n.to_string()).collect()
}

/// A stack trunk <- a <- b <- c, with the named branches existing in git.
fn sample_stack() -> (StackGraph, Vec<String>) {
    let repo = git(&["trunk", "a", "b", "c", "loose"]);
    let mut g = StackGraph::new(s("trunk"));
    g.track(&s("a"), &s("trunk"), &repo).unwrap();
    g.track(&s("b"), &s("a"), &repo).unwrap();
    g.track(&s("c"), &s("b"), &repo).unwrap();
    (g, repo)
}

#[test]
fn track_records_parent() {
    let (g, _) = sample_stack();
    assert_eq!(g.get_parent(&s("a")), Some(s("trunk")));
    assert_eq!(g.get_parent(&s("b")), Some(s("a")));
    assert_eq!(g.get_parent(&s("c")), Some(s("b")));
}

#[test]
fn trunk_has_no_parent() {
    let (g, _) = sample_stack();
    assert_eq!(g.get_parent(&s("trunk")), None);
}

#[test]
fn untracked_branch_has_no_parent() {
    let (g, _) = sample_stack();
    assert_eq!(g.get_parent(&s("loose")), None);
    assert!(!g.is_tracked(&s("loose")));
    assert!(g.is_tracked(&s("trunk")));
    assert!(g.is_tracked(&s("b")));
}

#[test]
fn track_unknown_branch_fails() {
    let (mut g, repo) = sample_stack();
    assert_eq!(
        g.track(&s("ghost"), &s("a"), &repo),
        Err(StError::UnknownBranch(s("ghost")))
    );
    assert_eq!(
        g.track(&s("loose"), &s("ghost"), &repo),
        Err(StError::UnknownBranch(s("ghost")))
    );
}

#[test]
fn track_onto_untracked_parent_fails() {
    let (mut g, repo) = sample_stack();
    assert_eq!(
        g.track(&s("c"), &s("loose"), &repo),
        Err(StError::ParentNotTracked(s("loose")))
    );
}

#[test]
fn set_parent_rejects_self_cycle() {
    let (mut g, repo) = sample_stack();
    assert_eq!(g.set_parent(&s("a"), &s("a"), &repo), Err(StError::CycleDetected));
}

#[test]
fn set_parent_rejects_descendant_at_any_depth() {
    let (mut g, repo) = sample_stack();
    // direct child, grandchild and great-grandchild of trunk all descend
    // from a (or are a itself) when re-parenting a
    assert_eq!(g.set_parent(&s("a"), &s("b"), &repo), Err(StError::CycleDetected));
    assert_eq!(g.set_parent(&s("a"), &s("c"), &repo), Err(StError::CycleDetected));
    assert_eq!(g.set_parent(&s("b"), &s("c"), &repo), Err(StError::CycleDetected));
    // re-parenting trunk itself would also close a loop
    assert_eq!(g.set_parent(&s("trunk"), &s("c"), &repo), Err(StError::CycleDetected));
    // the store is untouched by the failures
    assert_eq!(g.get_parent(&s("a")), Some(s("trunk")));
    assert_eq!(g.get_parent(&s("b")), Some(s("a")));
}

#[test]
fn set_parent_moves_branch_between_parents() {
    let (mut g, repo) = sample_stack();
    // moving c from b onto a is no cycle
    g.set_parent(&s("c"), &s("a"), &repo).unwrap();
    assert_eq!(g.get_parent(&s("c")), Some(s("a")));
    // b keeps its own link
    assert_eq!(g.get_parent(&s("b")), Some(s("a")));
}

#[test]
fn untrack_reparents_children_onto_grandparent() {
    let (mut g, _) = sample_stack();
    g.untrack(&s("b")).unwrap();
    assert!(!g.is_tracked(&s("b")));
    assert_eq!(g.get_parent(&s("c")), Some(s("a")));
    assert_eq!(g.get_parent(&s("a")), Some(s("trunk")));
}

#[test]
fn untrack_unknown_fails_closed() {
    let (mut g, _) = sample_stack();
    assert_eq!(g.untrack(&s("loose")), Err(StError::BranchNotTracked(s("loose"))));
    assert_eq!(g.untrack(&s("trunk")), Err(StError::BranchNotTracked(s("trunk"))));
}

#[test]
fn children_keep_insertion_order() {
    let repo = git(&["trunk", "x", "y", "z"]);
    let mut g = StackGraph::new(s("trunk"));
    g.track(&s("x"), &s("trunk"), &repo).unwrap();
    g.track(&s("y"), &s("trunk"), &repo).unwrap();
    g.track(&s("z"), &s("trunk"), &repo).unwrap();
    assert_eq!(g.children_of(&s("trunk")), vec![s("x"), s("y"), s("z")]);
    assert_eq!(g.children_of(&s("x")), Vec::<String>::new());
}

#[test]
fn create_tracks_onto_current() {
    let (mut g, _) = sample_stack();
    let repo = git(&["trunk", "a", "b", "c", "loose", "d"]);
    g.create(&s("d"), &s("c"), &repo).unwrap();
    assert_eq!(g.get_parent(&s("d")), Some(s("c")));
}

#[test]
fn create_reports_each_failure_exactly() {
    let (mut g, repo) = sample_stack();
    // linking an existing branch back under its own descendant is a cycle
    assert_eq!(g.create(&s("a"), &s("c"), &repo), Err(StError::CycleDetected));
    // a name git does not know is refused
    assert_eq!(
        g.create(&s("ghost"), &s("c"), &repo),
        Err(StError::UnknownBranch(s("ghost")))
    );
    // rooting a branch at itself is the shortest cycle of all
    assert_eq!(
        g.create(&s("loose"), &s("loose"), &repo),
        Err(StError::CycleDetected)
    );
    // an untracked current branch cannot be stacked on
    let repo2 = git(&["trunk", "a", "b", "c", "loose", "d"]);
    assert_eq!(
        g.create(&s("d"), &s("loose"), &repo2),
        Err(StError::ParentNotTracked(s("loose")))
    );
    // none of the failures touched the store
    assert_eq!(g.get_parent(&s("a")), Some(s("trunk")));
    assert!(!g.is_tracked(&s("d")));
}

#[test]
fn delete_reparents_and_forgets() {
    let (mut g, _) = sample_stack();
    // head is elsewhere, so deleting b is allowed
    g.delete(&s("b"), &s("a")).unwrap();
    assert!(!g.is_tracked(&s("b")));
    assert_eq!(g.get_parent(&s("c")), Some(s("a")));
}

#[test]
fn reaches_follows_parent_chain() {
    let (g, _) = sample_stack();
    assert!(g.reaches_branch(&s("c"), &s("trunk")));
    assert!(g.reaches_branch(&s("c"), &s("a")));
    assert!(g.reaches_branch(&s("c"), &s("c")));
    assert!(!g.reaches_branch(&s("a"), &s("c")));
    assert!(!g.reaches_branch(&s("trunk"), &s("a")));
}
