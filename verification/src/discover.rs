//! Stack discovery: rebuilding the whole ordered stack from any branch in it.
//!
//! Discovery climbs parent links from the anchor to trunk, then walks back
//! down, following a child only while it is the *single* child — at a fan-out
//! it stops rather than guess between siblings. [`is_discovery`] captures the
//! result exactly, and [`lemma_discovery_unique`] shows the captured sequence
//! is the only one possible, so the contracts below pin the output down.

use crate::errors::{StError, StResult};
use crate::graph::{
    ancestor_at, children_seq, dist_to_trunk, distinct_children, is_child, is_child_at,
    lemma_child_index_of, lemma_children_seq_membership, lemma_dist_bound, lemma_dist_is_minimal,
    lemma_dist_step, links_wf, parent_in, reaches, tracked_in, BranchLink, StackGraph,
};
use vstd::prelude::*;

verus! {

/// The one branch stacked directly on `name`, when there is exactly one.
pub open spec fn unique_child(links: Seq<BranchLink>, name: Seq<char>) -> Option<Seq<char>> {
    if children_seq(links, name).len() == 1 {
        Some(children_seq(links, name)[0])
    } else {
        None
    }
}

/// `r` is the stack discovery finds from `anchor`, whose position in `r` is
/// `j`: trunk first, the parent chain of `anchor` up to position `j`, then
/// single children as far as they go.
pub open spec fn is_discovery_at(
    links: Seq<BranchLink>,
    trunk: Seq<char>,
    anchor: Seq<char>,
    r: Seq<Seq<char>>,
    j: int,
) -> bool {
    &&& 0 <= j < r.len()
    &&& r[0] == trunk
    &&& r[j] == anchor
    &&& (forall|i: int|
        1 <= i <= j ==> is_child(links, #[trigger] r[i]) && parent_in(links, r[i]) == r[i - 1])
    &&& (forall|i: int|
        j <= i < r.len() - 1 ==> unique_child(links, #[trigger] r[i]) == Some(r[i + 1]))
    &&& unique_child(links, r[r.len() - 1]) is None
}

/// `r` is the stack discovery finds from `anchor`.
pub open spec fn is_discovery(
    links: Seq<BranchLink>,
    trunk: Seq<char>,
    anchor: Seq<char>,
    r: Seq<Seq<char>>,
) -> bool {
    exists|j: int| is_discovery_at(links, trunk, anchor, r, j)
}

/// Every step of `r` is parent-linked: each entry names the one before it as
/// its parent.
pub open spec fn chain_linked(links: Seq<BranchLink>, r: Seq<Seq<char>>) -> bool {
    forall|i: int|
        1 <= i < r.len() ==> is_child(links, #[trigger] r[i]) && parent_in(links, r[i]) == r[i - 1]
}

/// A single child is a child whose recorded parent is the branch it hangs on.
pub proof fn lemma_unique_child_link(links: Seq<BranchLink>, x: Seq<char>, c: Seq<char>)
    requires
        distinct_children(links),
        unique_child(links, x) == Some(c),
    ensures
        is_child(links, c),
        parent_in(links, c) == x,
{
    assert(children_seq(links, x)[0] == c);
    assert(children_seq(links, x).contains(c));
    lemma_children_seq_membership(links, x, c);
    let i = choose|i: int|
        0 <= i < links.len() && (#[trigger] links[i].child@) == c && links[i].parent@ == x;
    lemma_child_index_of(links, i, c);
}

/// A discovered stack is parent-linked all the way, the walked-down part
/// included.
pub proof fn lemma_discovery_linked(
    links: Seq<BranchLink>,
    trunk: Seq<char>,
    anchor: Seq<char>,
    r: Seq<Seq<char>>,
    j: int,
)
    requires
        distinct_children(links),
        is_discovery_at(links, trunk, anchor, r, j),
    ensures
        chain_linked(links, r),
{
    assert forall|i: int| 1 <= i < r.len() implies is_child(links, #[trigger] r[i]) && parent_in(
        links,
        r[i],
    ) == r[i - 1] by {
        if i > j {
            assert(unique_child(links, r[i - 1]) == Some(r[i]));
            lemma_unique_child_link(links, r[i - 1], r[i]);
        }
    }
}

/// In a parent-linked sequence, `m` steps up from position `p` is position
/// `p - m`.
pub proof fn lemma_chain_ancestors(links: Seq<BranchLink>, r: Seq<Seq<char>>, p: int, m: int)
    requires
        chain_linked(links, r),
        0 <= m <= p < r.len(),
    ensures
        ancestor_at(links, r[p], m as nat) == Some(r[p - m]),
    decreases m,
{
    if m > 0 {
        assert(ancestor_at(links, r[p], m as nat) == ancestor_at(
            links,
            parent_in(links, r[p]),
            (m - 1) as nat,
        ));
        lemma_chain_ancestors(links, r, p - 1, m - 1);
    }
}

/// The anchor's position in a discovered stack is its distance from trunk.
pub proof fn lemma_discovery_depth(
    links: Seq<BranchLink>,
    trunk: Seq<char>,
    anchor: Seq<char>,
    r: Seq<Seq<char>>,
    j: int,
)
    requires
        links_wf(links, trunk),
        is_discovery_at(links, trunk, anchor, r, j),
    ensures
        reaches(links, anchor, trunk),
        j == dist_to_trunk(links, trunk, anchor),
{
    lemma_discovery_linked(links, trunk, anchor, r, j);
    lemma_chain_ancestors(links, r, j, j);
    assert(reaches(links, anchor, trunk));
    lemma_dist_is_minimal(links, trunk, anchor);
    let d = dist_to_trunk(links, trunk, anchor) as int;
    assert(d <= j);
    if d < j {
        lemma_chain_ancestors(links, r, j, d);
        assert(r[j - d] == trunk);
        assert(is_child(links, trunk));
        let i = choose|i: int| is_child_at(links, i, trunk);
        assert(links[i].child@ == trunk);
        assert(false);
    }
}

/// Below the anchor both discoveries walk the same single children.
proof fn lemma_down_eq(
    links: Seq<BranchLink>,
    r1: Seq<Seq<char>>,
    r2: Seq<Seq<char>>,
    j: int,
    i: int,
)
    requires
        0 <= j <= i,
        i < r1.len(),
        i < r2.len(),
        r1[j] == r2[j],
        forall|m: int|
            j <= m < r1.len() - 1 ==> unique_child(links, #[trigger] r1[m]) == Some(r1[m + 1]),
        forall|m: int|
            j <= m < r2.len() - 1 ==> unique_child(links, #[trigger] r2[m]) == Some(r2[m + 1]),
    ensures
        r1[i] == r2[i],
    decreases i,
{
    if i > j {
        lemma_down_eq(links, r1, r2, j, i - 1);
        assert(unique_child(links, r1[i - 1]) == Some(r1[i]));
        assert(unique_child(links, r2[i - 1]) == Some(r2[i]));
    }
}

/// Discovery from a given anchor has exactly one possible answer.
pub proof fn lemma_discovery_unique(
    links: Seq<BranchLink>,
    trunk: Seq<char>,
    anchor: Seq<char>,
    r1: Seq<Seq<char>>,
    r2: Seq<Seq<char>>,
)
    requires
        links_wf(links, trunk),
        is_discovery(links, trunk, anchor, r1),
        is_discovery(links, trunk, anchor, r2),
    ensures
        r1 == r2,
{
    let j1 = choose|j: int| is_discovery_at(links, trunk, anchor, r1, j);
    let j2 = choose|j: int| is_discovery_at(links, trunk, anchor, r2, j);
    lemma_discovery_depth(links, trunk, anchor, r1, j1);
    lemma_discovery_depth(links, trunk, anchor, r2, j2);
    let j = j1;
    lemma_discovery_linked(links, trunk, anchor, r1, j1);
    lemma_discovery_linked(links, trunk, anchor, r2, j2);
    assert forall|i: int| 0 <= i <= j implies r1[i] == r2[i] by {
        lemma_chain_ancestors(links, r1, j, j - i);
        lemma_chain_ancestors(links, r2, j, j - i);
    }
    if r1.len() < r2.len() {
        let last = r1.len() - 1;
        lemma_down_eq(links, r1, r2, j, last);
        assert(unique_child(links, r2[last]) == Some(r2[last + 1]));
        assert(false);
    }
    if r2.len() < r1.len() {
        let last = r2.len() - 1;
        lemma_down_eq(links, r1, r2, j, last);
        assert(unique_child(links, r1[last]) == Some(r1[last + 1]));
        assert(false);
    }
    assert forall|i: int| 0 <= i < r1.len() implies r1[i] == r2[i] by {
        if i >= j {
            lemma_down_eq(links, r1, r2, j, i);
        }
    }
    assert(r1 =~= r2);
}

/// A maximal linear stack: trunk first, each further branch the single child
/// of the one below it, ending where no single child continues.
pub open spec fn is_stack(links: Seq<BranchLink>, trunk: Seq<char>, s: Seq<Seq<char>>) -> bool {
    &&& s.len() >= 1
    &&& s[0] == trunk
    &&& (forall|i: int|
        0 <= i < s.len() - 1 ==> unique_child(links, #[trigger] s[i]) == Some(s[i + 1]))
    &&& unique_child(links, s[s.len() - 1]) is None
}

/// Discovery is anchor-independent: from any branch of a stack it returns
/// exactly that stack, trunk first, in stable order.
pub proof fn lemma_discovery_returns_stack(
    links: Seq<BranchLink>,
    trunk: Seq<char>,
    s: Seq<Seq<char>>,
    anchor: Seq<char>,
    r: Seq<Seq<char>>,
)
    requires
        links_wf(links, trunk),
        is_stack(links, trunk, s),
        s.len() > 1,
        s.contains(anchor),
        is_discovery(links, trunk, anchor, r),
    ensures
        r == s,
{
    let j = choose|j: int| 0 <= j < s.len() && s[j] == anchor;
    assert forall|i: int| 1 <= i <= j implies is_child(links, #[trigger] s[i]) && parent_in(
        links,
        s[i],
    ) == s[i - 1] by {
        assert(unique_child(links, s[i - 1]) == Some(s[i]));
        lemma_unique_child_link(links, s[i - 1], s[i]);
    }
    assert(is_discovery_at(links, trunk, anchor, s, j));
    lemma_discovery_unique(links, trunk, anchor, r, s);
}

/// A discovered stack is also the discovery from its own tip, so resolving
/// the top twice lands on the same branch.
pub proof fn lemma_discovery_from_last(
    links: Seq<BranchLink>,
    trunk: Seq<char>,
    anchor: Seq<char>,
    r: Seq<Seq<char>>,
)
    requires
        links_wf(links, trunk),
        is_discovery(links, trunk, anchor, r),
    ensures
        is_discovery(links, trunk, r[r.len() - 1], r),
{
    let j = choose|j: int| is_discovery_at(links, trunk, anchor, r, j);
    lemma_discovery_linked(links, trunk, anchor, r, j);
    assert(is_discovery_at(links, trunk, r[r.len() - 1], r, r.len() - 1));
}

impl StackGraph {
    /// Rebuild the whole ordered stack containing `anchor`, trunk first.
    ///
    /// Climbs parent links from `anchor` to trunk, then extends past `anchor`
    /// along single children, stopping at a fan-out or a tip. Fails with
    /// `BranchNotTracked` exactly when `anchor` is neither trunk nor tracked.
    #[verifier::rlimit(60)]
    pub fn discover_stack(&self, anchor: &String) -> (r: StResult<Vec<String>>)
        requires
            self.wf(),
        ensures
            match r {
                Ok(stack) => tracked_in(self.links@, self.trunk@, anchor@) && is_discovery(
                    self.links@,
                    self.trunk@,
                    anchor@,
                    stack.deep_view(),
                ),
                Err(StError::BranchNotTracked(n)) => n@ == anchor@ && !tracked_in(
                    self.links@,
                    self.trunk@,
                    anchor@,
                ),
                _ => false,
            },
    {
        if !self.is_tracked(anchor) {
            return Err(StError::BranchNotTracked(anchor.clone()));
        }
        // climb from the anchor to trunk
        let mut up: Vec<String> = Vec::new();
        let mut current: String = anchor.clone();
        up.push(anchor.clone());
        proof {
            assert(up.deep_view() =~= Seq::empty().push(anchor@));
        }
        loop
            invariant
                self.wf(),
                tracked_in(self.links@, self.trunk@, current@),
                up.deep_view().len() >= 1,
                up.deep_view()[0] == anchor@,
                up.deep_view().last() == current@,
                forall|i: int|
                    0 <= i < up.deep_view().len() - 1 ==> is_child(
                        self.links@,
                        #[trigger] up.deep_view()[i],
                    ) && parent_in(self.links@, up.deep_view()[i]) == up.deep_view()[i + 1],
            ensures
                self.wf(),
                up.deep_view().len() >= 1,
                up.deep_view()[0] == anchor@,
                up.deep_view().last() == current@,
                forall|i: int|
                    0 <= i < up.deep_view().len() - 1 ==> is_child(
                        self.links@,
                        #[trigger] up.deep_view()[i],
                    ) && parent_in(self.links@, up.deep_view()[i]) == up.deep_view()[i + 1],
                current@ == self.trunk@,
            decreases dist_to_trunk(self.links@, self.trunk@, current@),
        {
            let ghost prev = up.deep_view();
            match self.get_parent(&current) {
                Some(p) => {
                    proof {
                        let i = choose|i: int| is_child_at(self.links@, i, current@);
                        assert(self.links@[i].child@ == current@);
                        assert(reaches(self.links@, current@, self.trunk@));
                        assert(current@ != self.trunk@);
                        lemma_dist_step(self.links@, self.trunk@, current@);
                        assert(tracked_in(self.links@, self.trunk@, self.links@[i].parent@));
                        lemma_child_index_of(self.links@, i, current@);
                    }
                    up.push(p.clone());
                    proof {
                        assert(up.deep_view() =~= prev.push(p@));
                    }
                    current = p;
                },
                None => {
                    proof {
                        assert(current@ == self.trunk@);
                    }
                    break ;
                },
            }
        }
        // reverse: trunk first, anchor last
        let n = up.len();
        let ghost upv = up.deep_view();
        let mut stack: Vec<String> = Vec::new();
        let mut k: usize = 0;
        while k < n
            invariant
                n == upv.len(),
                upv == up.deep_view(),
                k <= n,
                stack.deep_view().len() == k,
                forall|i: int| 0 <= i < k ==> (#[trigger] stack.deep_view()[i]) == upv[n - 1 - i],
            decreases n - k,
        {
            let ghost prev = stack.deep_view();
            stack.push(up[n - 1 - k].clone());
            proof {
                assert(stack.deep_view() =~= prev.push(upv[n - 1 - k as int]));
            }
            k = k + 1;
        }
        let ghost j = n - 1 as int;
        proof {
            assert(stack.deep_view()[0] == upv[n - 1 as int]);
            assert(stack.deep_view()[j] == upv[0]);
            assert forall|i: int| 1 <= i <= j implies is_child(
                self.links@,
                #[trigger] stack.deep_view()[i],
            ) && parent_in(self.links@, stack.deep_view()[i]) == stack.deep_view()[i - 1] by {
                assert(stack.deep_view()[i] == upv[n - 1 - i]);
                assert(stack.deep_view()[i - 1] == upv[n - i]);
                assert(is_child(self.links@, upv[n - 1 - i]));
            }
        }
        // walk down along single children, past the anchor
        let mut current = anchor.clone();
        proof {
            assert(stack.deep_view().last() == current@);
        }
        loop
            invariant
                self.wf(),
                0 <= j < stack.deep_view().len(),
                stack.deep_view()[0] == self.trunk@,
                stack.deep_view()[j] == anchor@,
                forall|i: int|
                    1 <= i <= j ==> is_child(self.links@, #[trigger] stack.deep_view()[i])
                        && parent_in(self.links@, stack.deep_view()[i]) == stack.deep_view()[i - 1],
                forall|i: int|
                    j <= i < stack.deep_view().len() - 1 ==> unique_child(
                        self.links@,
                        #[trigger] stack.deep_view()[i],
                    ) == Some(stack.deep_view()[i + 1]),
                stack.deep_view().last() == current@,
                tracked_in(self.links@, self.trunk@, current@),
            ensures
                0 <= j < stack.deep_view().len(),
                stack.deep_view()[0] == self.trunk@,
                stack.deep_view()[j] == anchor@,
                forall|i: int|
                    1 <= i <= j ==> is_child(self.links@, #[trigger] stack.deep_view()[i])
                        && parent_in(self.links@, stack.deep_view()[i]) == stack.deep_view()[i - 1],
                forall|i: int|
                    j <= i < stack.deep_view().len() - 1 ==> unique_child(
                        self.links@,
                        #[trigger] stack.deep_view()[i],
                    ) == Some(stack.deep_view()[i + 1]),
                stack.deep_view().last() == current@,
                unique_child(self.links@, current@) is None,
            decreases self.links@.len() + 1 - dist_to_trunk(self.links@, self.trunk@, current@),
        {
            let kids = self.children_of(&current);
            if kids.len() == 1 {
                let c = kids[0].clone();
                proof {
                    assert(kids.deep_view().len() == kids@.len());
                    assert(children_seq(self.links@, current@).len() == 1);
                    assert(kids.deep_view()[0] == c@);
                    assert(unique_child(self.links@, current@) == Some(c@));
                    lemma_unique_child_link(self.links@, current@, c@);
                    let i = choose|i: int| is_child_at(self.links@, i, c@);
                    assert(self.links@[i].child@ == c@);
                    assert(reaches(self.links@, c@, self.trunk@));
                    assert(c@ != self.trunk@);
                    lemma_dist_step(self.links@, self.trunk@, c@);
                    lemma_dist_bound(self.links@, self.trunk@, c@);
                }
                let ghost prev = stack.deep_view();
                stack.push(c.clone());
                proof {
                    assert(stack.deep_view() =~= prev.push(c@));
                }
                current = c;
            } else {
                proof {
                    assert(children_seq(self.links@, current@).len() == kids.deep_view().len());
                    assert(unique_child(self.links@, current@) is None);
                }
                break ;
            }
        }
        proof {
            assert(stack.deep_view()[stack.deep_view().len() - 1] == current@);
            assert(is_discovery_at(self.links@, self.trunk@, anchor@, stack.deep_view(), j));
        }
        Ok(stack)
    }
}

/// In a well-formed store each entry of a parent-linked, trunk-first sequence
/// sits exactly its own index away from trunk, so entries never repeat.
pub proof fn lemma_chain_positions(links: Seq<BranchLink>, trunk: Seq<char>, r: Seq<Seq<char>>)
    requires
        links_wf(links, trunk),
        chain_linked(links, r),
        r.len() >= 1,
        r[0] == trunk,
    ensures
        forall|i: int|
            0 <= i < r.len() ==> reaches(links, #[trigger] r[i], trunk) && dist_to_trunk(
                links,
                trunk,
                r[i],
            ) == i,
        forall|i1: int, i2: int| 0 <= i1 < i2 < r.len() ==> r[i1] != r[i2],
{
    assert forall|i: int| 0 <= i < r.len() implies reaches(links, #[trigger] r[i], trunk)
        && dist_to_trunk(links, trunk, r[i]) == i by {
        lemma_chain_ancestors(links, r, i, i);
        assert(ancestor_at(links, r[i], i as nat) == Some(trunk));
        assert(reaches(links, r[i], trunk));
        lemma_dist_is_minimal(links, trunk, r[i]);
        let d = dist_to_trunk(links, trunk, r[i]) as int;
        assert(d <= i);
        if d < i {
            lemma_chain_ancestors(links, r, i, d);
            assert(r[i - d] == trunk);
            let w = choose|w: int| is_child_at(links, w, trunk);
            assert(links[w].child@ == trunk);
            assert(false);
        }
    }
    assert forall|i1: int, i2: int| 0 <= i1 < i2 < r.len() implies r[i1] != r[i2] by {
        assert(dist_to_trunk(links, trunk, r[i1]) == i1);
        assert(dist_to_trunk(links, trunk, r[i2]) == i2);
    }
}

/// A discovered stack never names a branch twice.
pub proof fn lemma_discovery_no_dups(
    links: Seq<BranchLink>,
    trunk: Seq<char>,
    anchor: Seq<char>,
    r: Seq<Seq<char>>,
)
    requires
        links_wf(links, trunk),
        is_discovery(links, trunk, anchor, r),
    ensures
        forall|i1: int, i2: int| 0 <= i1 < i2 < r.len() ==> r[i1] != r[i2],
{
    let j = choose|j: int| is_discovery_at(links, trunk, anchor, r, j);
    lemma_discovery_linked(links, trunk, anchor, r, j);
    lemma_chain_positions(links, trunk, r);
}

} // verus!
