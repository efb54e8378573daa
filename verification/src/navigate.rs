//! Navigation over a discovered stack: `top`, `bottom`, `up` and `down`.
//!
//! Each command resolves a [`NavOutcome`]: either the branch the caller should
//! check out, or an informational no-op at a boundary — already at trunk,
//! already at the tip — which is a *successful* outcome, never an error. The
//! caller performs the actual checkout and prints the message.

use crate::discover::{
    is_discovery, is_discovery_at, lemma_chain_positions, lemma_discovery_depth,
    lemma_discovery_from_last, lemma_discovery_linked, lemma_discovery_no_dups,
    lemma_discovery_unique,
};
use crate::errors::{StError, StResult};
use crate::graph::{
    dist_to_trunk, is_child, links_wf, parent_in, relink_post, tracked_in, unlink_post,
    BranchLink, StackGraph,
};
use crate::restack::RestackState;
use vstd::prelude::*;

verus! {

/// What a navigation command resolved to.
#[derive(Debug, Clone, PartialEq, Eq)]
pub enum NavOutcome {
    /// Move the working tree to the named branch.
    Checkout(String),
    /// Already on trunk: nowhere further down, staying put succeeds.
    AlreadyAtTrunk(String),
    /// Already on the topmost branch: nowhere further up, staying put
    /// succeeds.
    AlreadyAtTop(String),
}

/// The position of branch `x` in the stack `s` (meaningful when `s` holds `x`
/// exactly once, which [`lemma_chain_positions`] gives for discovered stacks).
pub open spec fn stack_pos(s: Seq<Seq<char>>, x: Seq<char>) -> int {
    choose|i: int| 0 <= i < s.len() && s[i] == x
}

/// With no repeated names, `stack_pos` is the one position where `x` sits.
pub proof fn lemma_stack_pos_of(s: Seq<Seq<char>>, i: int, x: Seq<char>)
    requires
        forall|i1: int, i2: int| 0 <= i1 < i2 < s.len() ==> s[i1] != s[i2],
        0 <= i < s.len(),
        s[i] == x,
    ensures
        stack_pos(s, x) == i,
{
    let j = stack_pos(s, x);
    assert(0 <= j < s.len() && s[j] == x);
    if i < j {
        assert(s[i] != s[j]);
    } else if j < i {
        assert(s[j] != s[i]);
    }
}

/// The contract of `top`: the last branch of the discovered stack, or
/// `NoStackFound` when only trunk is there.
pub open spec fn top_post(
    links: Seq<BranchLink>,
    trunk: Seq<char>,
    cur: Seq<char>,
    r: StResult<NavOutcome>,
) -> bool {
    match r {
        Ok(NavOutcome::Checkout(t)) => exists|s: Seq<Seq<char>>|
            #[trigger] is_discovery(links, trunk, cur, s) && s.len() > 1 && t@ == s[s.len() - 1],
        Ok(_) => false,
        Err(StError::NoStackFound) => exists|s: Seq<Seq<char>>|
            #[trigger] is_discovery(links, trunk, cur, s) && s.len() <= 1,
        Err(StError::BranchNotTracked(n)) => n@ == cur && !tracked_in(links, trunk, cur),
        Err(_) => false,
    }
}

/// The contract of `bottom`: the first branch above trunk.
pub open spec fn bottom_post(
    links: Seq<BranchLink>,
    trunk: Seq<char>,
    cur: Seq<char>,
    r: StResult<NavOutcome>,
) -> bool {
    match r {
        Ok(NavOutcome::Checkout(t)) => exists|s: Seq<Seq<char>>|
            #[trigger] is_discovery(links, trunk, cur, s) && s.len() > 1 && t@ == s[1],
        Ok(_) => false,
        Err(StError::NoStackFound) => exists|s: Seq<Seq<char>>|
            #[trigger] is_discovery(links, trunk, cur, s) && s.len() <= 1,
        Err(StError::BranchNotTracked(n)) => n@ == cur && !tracked_in(links, trunk, cur),
        Err(_) => false,
    }
}

/// The contract of `up`: one step towards the tip, or an informational no-op
/// at the tip.
pub open spec fn up_post(
    links: Seq<BranchLink>,
    trunk: Seq<char>,
    cur: Seq<char>,
    r: StResult<NavOutcome>,
) -> bool {
    match r {
        Ok(NavOutcome::Checkout(t)) => exists|s: Seq<Seq<char>>|
            #[trigger] is_discovery(links, trunk, cur, s) && s.len() > 1 && 0 <= stack_pos(s, cur)
                < s.len() - 1 && t@ == s[stack_pos(s, cur) + 1],
        Ok(NavOutcome::AlreadyAtTop(t)) => t@ == cur && exists|s: Seq<Seq<char>>|
            #[trigger] is_discovery(links, trunk, cur, s) && s.len() > 1 && stack_pos(s, cur)
                == s.len() - 1,
        Ok(NavOutcome::AlreadyAtTrunk(_)) => false,
        Err(StError::NoStackFound) => exists|s: Seq<Seq<char>>|
            #[trigger] is_discovery(links, trunk, cur, s) && s.len() <= 1,
        Err(StError::BranchNotTracked(n)) => n@ == cur && !tracked_in(links, trunk, cur),
        Err(_) => false,
    }
}

/// The contract of `down`: one step towards trunk, or an informational no-op
/// on trunk itself.
pub open spec fn down_post(
    links: Seq<BranchLink>,
    trunk: Seq<char>,
    cur: Seq<char>,
    r: StResult<NavOutcome>,
) -> bool {
    match r {
        Ok(NavOutcome::Checkout(t)) => exists|s: Seq<Seq<char>>|
            #[trigger] is_discovery(links, trunk, cur, s) && s.len() > 1 && 1 <= stack_pos(s, cur)
                < s.len() && t@ == s[stack_pos(s, cur) - 1],
        Ok(NavOutcome::AlreadyAtTrunk(t)) => t@ == cur && cur == trunk && exists|
            s: Seq<Seq<char>>,
        |
            #[trigger] is_discovery(links, trunk, cur, s) && s.len() > 1 && stack_pos(s, cur) == 0,
        Ok(NavOutcome::AlreadyAtTop(_)) => false,
        Err(StError::NoStackFound) => exists|s: Seq<Seq<char>>|
            #[trigger] is_discovery(links, trunk, cur, s) && s.len() <= 1,
        Err(StError::BranchNotTracked(n)) => n@ == cur && !tracked_in(links, trunk, cur),
        Err(_) => false,
    }
}

/// The position of `x` in `stack`, scanning from the front.
fn position_in(stack: &Vec<String>, x: &String) -> (r: Option<usize>)
    ensures
        match r {
            Some(i) => i < stack.deep_view().len() && stack.deep_view()[i as int] == x@,
            None => !stack.deep_view().contains(x@),
        },
{
    let mut i: usize = 0;
    while i < stack.len()
        invariant
            i <= stack.deep_view().len(),
            forall|k: int| 0 <= k < i ==> (#[trigger] stack.deep_view()[k]) != x@,
        decreases stack.deep_view().len() - i,
    {
        if stack[i] == *x {
            return Some(i);
        }
        i = i + 1;
    }
    None
}

/// CLI arguments for the `bottom` subcommand.
#[derive(Debug, Clone, Eq, PartialEq)]
pub struct BottomCmd;

impl BottomCmd {
    /// Resolve the `bottom` subcommand: the first branch after trunk of the
    /// stack `current` is in.
    pub fn resolve(self, graph: &StackGraph, current: &String) -> (r: StResult<NavOutcome>)
        requires
            graph.wf(),
        ensures
            bottom_post(graph.links@, graph.trunk@, current@, r),
    {
        let stack = match graph.discover_stack(current) {
            Ok(s) => s,
            Err(e) => {
                return Err(e);
            },
        };
        if stack.len() <= 1 {
            return Err(StError::NoStackFound);
        }
        Ok(NavOutcome::Checkout(stack[1].clone()))
    }
}

/// CLI arguments for the `top` subcommand.
#[derive(Debug, Clone, Eq, PartialEq)]
pub struct TopCmd;

impl TopCmd {
    /// Resolve the `top` subcommand: the tip of the stack `current` is in.
    pub fn resolve(self, graph: &StackGraph, current: &String) -> (r: StResult<NavOutcome>)
        requires
            graph.wf(),
        ensures
            top_post(graph.links@, graph.trunk@, current@, r),
    {
        let stack = match graph.discover_stack(current) {
            Ok(s) => s,
            Err(e) => {
                return Err(e);
            },
        };
        if stack.len() <= 1 {
            return Err(StError::NoStackFound);
        }
        Ok(NavOutcome::Checkout(stack[stack.len() - 1].clone()))
    }
}

/// CLI arguments for the `up` subcommand.
#[derive(Debug, Clone, Eq, PartialEq)]
pub struct UpCmd;

impl UpCmd {
    /// Resolve the `up` subcommand: the branch stacked directly on `current`,
    /// or an informational no-op when already at the top.
    #[verifier::rlimit(100)]
    pub fn resolve(self, graph: &StackGraph, current: &String) -> (r: StResult<NavOutcome>)
        requires
            graph.wf(),
        ensures
            up_post(graph.links@, graph.trunk@, current@, r),
    {
        let stack = match graph.discover_stack(current) {
            Ok(s) => s,
            Err(e) => {
                return Err(e);
            },
        };
        if stack.len() <= 1 {
            return Err(StError::NoStackFound);
        }
        proof {
            let j = choose|j: int|
                is_discovery_at(graph.links@, graph.trunk@, current@, stack.deep_view(), j);
            lemma_discovery_no_dups(graph.links@, graph.trunk@, current@, stack.deep_view());
            assert(stack.deep_view()[j] == current@);
            lemma_stack_pos_of(stack.deep_view(), j, current@);
        }
        let idx = match position_in(&stack, current) {
            Some(i) => i,
            None => {
                proof {
                    let j = choose|j: int|
                        is_discovery_at(
                            graph.links@,
                            graph.trunk@,
                            current@,
                            stack.deep_view(),
                            j,
                        );
                    assert(stack.deep_view()[j] == current@);
                    assert(false);
                }
                return Err(StError::BranchNotTracked(current.clone()));
            },
        };
        proof {
            lemma_stack_pos_of(stack.deep_view(), idx as int, current@);
        }
        if idx == stack.len() - 1 {
            Ok(NavOutcome::AlreadyAtTop(current.clone()))
        } else {
            Ok(NavOutcome::Checkout(stack[idx + 1].clone()))
        }
    }
}

/// CLI arguments for the `down` subcommand.
#[derive(Debug, Clone, Eq, PartialEq)]
pub struct DownCmd;

impl DownCmd {
    /// Resolve the `down` subcommand: the branch `current` is stacked on, or
    /// an informational no-op when already on trunk.
    #[verifier::rlimit(100)]
    pub fn resolve(self, graph: &StackGraph, current: &String) -> (r: StResult<NavOutcome>)
        requires
            graph.wf(),
        ensures
            down_post(graph.links@, graph.trunk@, current@, r),
    {
        let stack = match graph.discover_stack(current) {
            Ok(s) => s,
            Err(e) => {
                return Err(e);
            },
        };
        if stack.len() <= 1 {
            return Err(StError::NoStackFound);
        }
        proof {
            let j = choose|j: int|
                is_discovery_at(graph.links@, graph.trunk@, current@, stack.deep_view(), j);
            lemma_discovery_no_dups(graph.links@, graph.trunk@, current@, stack.deep_view());
            assert(stack.deep_view()[j] == current@);
            lemma_stack_pos_of(stack.deep_view(), j, current@);
        }
        let idx = match position_in(&stack, current) {
            Some(i) => i,
            None => {
                proof {
                    let j = choose|j: int|
                        is_discovery_at(
                            graph.links@,
                            graph.trunk@,
                            current@,
                            stack.deep_view(),
                            j,
                        );
                    assert(stack.deep_view()[j] == current@);
                    assert(false);
                }
                return Err(StError::BranchNotTracked(current.clone()));
            },
        };
        proof {
            lemma_stack_pos_of(stack.deep_view(), idx as int, current@);
        }
        if idx == 0 {
            Ok(NavOutcome::AlreadyAtTrunk(current.clone()))
        } else {
            Ok(NavOutcome::Checkout(stack[idx - 1].clone()))
        }
    }
}

/// CLI arguments for the `track` subcommand: stack the current branch on
/// `parent`.
#[derive(Debug, Clone, Eq, PartialEq)]
pub struct TrackCmd {
    pub parent: String,
}

/// CLI arguments for the `untrack` subcommand.
#[derive(Debug, Clone, Eq, PartialEq)]
pub struct UntrackCmd {
    pub branch: String,
}

/// CLI arguments for the `create` subcommand: the named branch has just been
/// created at the current branch's tip and is to be tracked on it.
#[derive(Debug, Clone, Eq, PartialEq)]
pub struct CreateCmd {
    pub name: String,
}

/// CLI arguments for the `delete` subcommand.
#[derive(Debug, Clone, Eq, PartialEq)]
pub struct DeleteCmd {
    pub branch: String,
}

/// CLI arguments for the `restack` subcommand.
#[derive(Debug, Clone, Eq, PartialEq)]
pub struct RestackCmd;

/// What running a subcommand decided: a navigation outcome to act on, a
/// store mutation already applied, or a freshly initialised restack pass for
/// the caller to drive.
pub enum CmdOutcome {
    Nav(NavOutcome),
    StoreUpdated,
    RestackStarted(RestackState),
}

/// The local stack subcommands this core resolves. Remote synchronisation,
/// configuration and the raw git work are collaborators outside the core.
pub enum Subcommands {
    /// Move to the bottom branch of the stack (first branch after trunk).
    Bottom(BottomCmd),
    /// Move to the top branch of the stack (tip of the stack).
    Top(TopCmd),
    /// Move to the branch above the current branch.
    Up(UpCmd),
    /// Move to the branch below the current branch.
    Down(DownCmd),
    /// Track the current branch on top of a tracked stack node.
    Track(TrackCmd),
    /// Untrack the passed branch.
    Untrack(UntrackCmd),
    /// Track a branch just created at the current branch's tip.
    Create(CreateCmd),
    /// Drop the stack metadata of a branch being deleted.
    Delete(DeleteCmd),
    /// Begin a restack pass over the current stack.
    Restack(RestackCmd),
}

/// A navigation command leaves the store alone and its result carries a
/// `NavOutcome` meeting the command's own contract.
pub open spec fn nav_cmd_post(
    links: Seq<BranchLink>,
    trunk: Seq<char>,
    cur: Seq<char>,
    post: spec_fn(Seq<BranchLink>, Seq<char>, Seq<char>, StResult<NavOutcome>) -> bool,
    r: StResult<CmdOutcome>,
) -> bool {
    match r {
        Ok(CmdOutcome::Nav(o)) => post(links, trunk, cur, Ok(o)),
        Ok(_) => false,
        Err(e) => post(links, trunk, cur, Err(e)),
    }
}

impl Subcommands {
    /// Run the subcommand against the store: every decision and store
    /// mutation happens here; the caller checks branches out, creates and
    /// deletes them in git, and drives a started restack pass.
    pub fn run(self, graph: &mut StackGraph, current: &String, git_branches: &Vec<String>) -> (r:
        StResult<CmdOutcome>)
        requires
            old(graph).wf(),
            self matches Subcommands::Delete(cmd) ==> cmd.branch@ != current@,
        ensures
            final(graph).wf(),
            final(graph).trunk@ == old(graph).trunk@,
            match self {
                Subcommands::Bottom(_) => final(graph).links@ == old(graph).links@ && nav_cmd_post(
                    old(graph).links@,
                    old(graph).trunk@,
                    current@,
                    |l, t, c, nr| bottom_post(l, t, c, nr),
                    r,
                ),
                Subcommands::Top(_) => final(graph).links@ == old(graph).links@ && nav_cmd_post(
                    old(graph).links@,
                    old(graph).trunk@,
                    current@,
                    |l, t, c, nr| top_post(l, t, c, nr),
                    r,
                ),
                Subcommands::Up(_) => final(graph).links@ == old(graph).links@ && nav_cmd_post(
                    old(graph).links@,
                    old(graph).trunk@,
                    current@,
                    |l, t, c, nr| up_post(l, t, c, nr),
                    r,
                ),
                Subcommands::Down(_) => final(graph).links@ == old(graph).links@ && nav_cmd_post(
                    old(graph).links@,
                    old(graph).trunk@,
                    current@,
                    |l, t, c, nr| down_post(l, t, c, nr),
                    r,
                ),
                Subcommands::Track(cmd) => match r {
                    Ok(CmdOutcome::StoreUpdated) => relink_post(
                        old(graph).links@,
                        final(graph).links@,
                        old(graph).trunk@,
                        current@,
                        cmd.parent@,
                        git_branches@,
                        Ok(()),
                    ),
                    Ok(_) => false,
                    Err(e) => relink_post(
                        old(graph).links@,
                        final(graph).links@,
                        old(graph).trunk@,
                        current@,
                        cmd.parent@,
                        git_branches@,
                        Err(e),
                    ),
                },
                Subcommands::Create(cmd) => match r {
                    Ok(CmdOutcome::StoreUpdated) => relink_post(
                        old(graph).links@,
                        final(graph).links@,
                        old(graph).trunk@,
                        cmd.name@,
                        current@,
                        git_branches@,
                        Ok(()),
                    ),
                    Ok(_) => false,
                    Err(e) => relink_post(
                        old(graph).links@,
                        final(graph).links@,
                        old(graph).trunk@,
                        cmd.name@,
                        current@,
                        git_branches@,
                        Err(e),
                    ),
                },
                Subcommands::Untrack(cmd) => match r {
                    Ok(CmdOutcome::StoreUpdated) => unlink_post(
                        old(graph).links@,
                        final(graph).links@,
                        cmd.branch@,
                        Ok(()),
                    ),
                    Ok(_) => false,
                    Err(e) => unlink_post(
                        old(graph).links@,
                        final(graph).links@,
                        cmd.branch@,
                        Err(e),
                    ),
                },
                Subcommands::Delete(cmd) => match r {
                    Ok(CmdOutcome::StoreUpdated) => unlink_post(
                        old(graph).links@,
                        final(graph).links@,
                        cmd.branch@,
                        Ok(()),
                    ),
                    Ok(_) => false,
                    Err(e) => unlink_post(
                        old(graph).links@,
                        final(graph).links@,
                        cmd.branch@,
                        Err(e),
                    ),
                },
                Subcommands::Restack(_) => {
                    &&& final(graph).links@ == old(graph).links@
                    &&& match r {
                        Ok(CmdOutcome::RestackStarted(st)) => {
                            &&& st.wf()
                            &&& st.cursor == 1
                            &&& !st.conflicted
                            &&& is_discovery(
                                old(graph).links@,
                                old(graph).trunk@,
                                current@,
                                st.stack.deep_view(),
                            )
                        },
                        Ok(_) => false,
                        Err(StError::BranchNotTracked(n)) => n@ == current@ && !tracked_in(
                            old(graph).links@,
                            old(graph).trunk@,
                            current@,
                        ),
                        Err(_) => false,
                    }
                },
            },
    {
        match self {
            Subcommands::Bottom(cmd) => match cmd.resolve(graph, current) {
                Ok(o) => Ok(CmdOutcome::Nav(o)),
                Err(e) => Err(e),
            },
            Subcommands::Top(cmd) => match cmd.resolve(graph, current) {
                Ok(o) => Ok(CmdOutcome::Nav(o)),
                Err(e) => Err(e),
            },
            Subcommands::Up(cmd) => match cmd.resolve(graph, current) {
                Ok(o) => Ok(CmdOutcome::Nav(o)),
                Err(e) => Err(e),
            },
            Subcommands::Down(cmd) => match cmd.resolve(graph, current) {
                Ok(o) => Ok(CmdOutcome::Nav(o)),
                Err(e) => Err(e),
            },
            Subcommands::Track(cmd) => match graph.track(current, &cmd.parent, git_branches) {
                Ok(()) => Ok(CmdOutcome::StoreUpdated),
                Err(e) => Err(e),
            },
            Subcommands::Create(cmd) => match graph.create(&cmd.name, current, git_branches) {
                Ok(()) => Ok(CmdOutcome::StoreUpdated),
                Err(e) => Err(e),
            },
            Subcommands::Untrack(cmd) => match graph.untrack(&cmd.branch) {
                Ok(()) => Ok(CmdOutcome::StoreUpdated),
                Err(e) => Err(e),
            },
            Subcommands::Delete(cmd) => match graph.delete(&cmd.branch, current) {
                Ok(()) => Ok(CmdOutcome::StoreUpdated),
                Err(e) => Err(e),
            },
            Subcommands::Restack(_) => match graph.discover_stack(current) {
                Ok(stack) => {
                    proof {
                        let j = choose|j: int|
                            is_discovery_at(
                                graph.links@,
                                graph.trunk@,
                                current@,
                                stack.deep_view(),
                                j,
                            );
                        assert(stack.deep_view().len() >= 1);
                    }
                    Ok(CmdOutcome::RestackStarted(RestackState::new(stack)))
                },
                Err(e) => Err(e),
            },
        }
    }
}

/// Moving `up` then `down` from any non-terminal position returns to the
/// original branch: `up` resolves the branch one above `cur`, and `down` run
/// from there resolves `cur` again, whatever stack that second run discovers.
pub proof fn lemma_up_down_inverse(
    links: Seq<BranchLink>,
    trunk: Seq<char>,
    cur: Seq<char>,
    s: Seq<Seq<char>>,
    s2: Seq<Seq<char>>,
)
    requires
        links_wf(links, trunk),
        is_discovery(links, trunk, cur, s),
        0 <= stack_pos(s, cur) < s.len() - 1,
        is_discovery(links, trunk, s[stack_pos(s, cur) + 1], s2),
    ensures
        1 <= stack_pos(s2, s[stack_pos(s, cur) + 1]) < s2.len(),
        s2[stack_pos(s2, s[stack_pos(s, cur) + 1]) - 1] == cur,
{
    let i = stack_pos(s, cur);
    let t = s[i + 1];
    let j = choose|j: int| is_discovery_at(links, trunk, cur, s, j);
    lemma_discovery_linked(links, trunk, cur, s, j);
    lemma_chain_positions(links, trunk, s);
    assert(s[j] == cur);
    lemma_stack_pos_of(s, j, cur);
    assert(i == j);
    // the branch above cur is parent-linked to cur
    assert(is_child(links, t) && parent_in(links, t) == cur);
    // in the second discovery, t sits at its distance from trunk, one past cur
    let j2 = choose|j2: int| is_discovery_at(links, trunk, t, s2, j2);
    lemma_discovery_depth(links, trunk, t, s2, j2);
    lemma_discovery_depth(links, trunk, cur, s, j);
    assert(dist_to_trunk(links, trunk, t) == i + 1) by {
        lemma_chain_positions(links, trunk, s);
    }
    assert(j2 == i + 1);
    lemma_discovery_linked(links, trunk, t, s2, j2);
    lemma_chain_positions(links, trunk, s2);
    assert(s2[j2] == t);
    lemma_stack_pos_of(s2, j2, t);
    // stepping down lands on t's parent, which is cur
    assert(parent_in(links, s2[j2]) == s2[j2 - 1]);
}

/// `top` is idempotent: the stack discovered from the resolved top is the
/// same stack, so a second `top` resolves the same branch.
pub proof fn lemma_top_idempotent(
    links: Seq<BranchLink>,
    trunk: Seq<char>,
    cur: Seq<char>,
    s: Seq<Seq<char>>,
    s2: Seq<Seq<char>>,
)
    requires
        links_wf(links, trunk),
        is_discovery(links, trunk, cur, s),
        s.len() > 1,
        is_discovery(links, trunk, s[s.len() - 1], s2),
    ensures
        s2 == s,
        s2[s2.len() - 1] == s[s.len() - 1],
{
    lemma_discovery_from_last(links, trunk, cur, s);
    lemma_discovery_unique(links, trunk, s[s.len() - 1], s2, s);
}

} // verus!
