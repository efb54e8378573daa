//! The branch-link store: a forest of child-to-parent edges rooted at trunk.
//!
//! Every tracked, non-trunk branch owns exactly one link naming its parent.
//! Well-formedness ([`links_wf`]) pins the store down: child names are unique,
//! trunk never appears as a child, every parent is itself trunk or tracked,
//! and every parent chain terminates at trunk — there are no cycles.

use crate::errors::{StError, StResult};
use vstd::pervasive::VecAdditionalExecFns;
use vstd::prelude::*;

verus! {

/// One tracked edge: `child`'s changes are stacked on top of `parent`.
pub struct BranchLink {
    pub child: String,
    pub parent: String,
}

/// The persisted branch-link store for one repository.
///
/// `trunk` is the root of every stack; it owns no link. `links` holds one
/// entry per tracked non-trunk branch, in insertion order.
pub struct StackGraph {
    pub trunk: String,
    pub links: Vec<BranchLink>,
}

/// `links[i]` is the link owned by the branch called `name`.
pub open spec fn is_child_at(links: Seq<BranchLink>, i: int, name: Seq<char>) -> bool {
    0 <= i < links.len() && links[i].child@ == name
}

/// `name` owns a link, i.e. is tracked and is not trunk.
pub open spec fn is_child(links: Seq<BranchLink>, name: Seq<char>) -> bool {
    exists|i: int| is_child_at(links, i, name)
}

/// The position of the link owned by `name` (meaningful when `is_child` holds
/// and child names are distinct).
pub open spec fn child_index(links: Seq<BranchLink>, name: Seq<char>) -> int {
    choose|i: int| is_child_at(links, i, name)
}

/// The parent recorded for `name` (meaningful when `is_child` holds).
pub open spec fn parent_in(links: Seq<BranchLink>, name: Seq<char>) -> Seq<char> {
    links[child_index(links, name)].parent@
}

/// `name` is part of the store: either trunk itself or a link-owning branch.
pub open spec fn tracked_in(links: Seq<BranchLink>, trunk: Seq<char>, name: Seq<char>) -> bool {
    name == trunk || is_child(links, name)
}

/// No two links are owned by the same branch name.
pub open spec fn distinct_children(links: Seq<BranchLink>) -> bool {
    forall|i: int, j: int| 0 <= i < j < links.len() ==> links[i].child@ != links[j].child@
}

/// The branch reached from `name` after following `k` parent links, or `None`
/// if the chain runs out before `k` steps.
pub open spec fn ancestor_at(links: Seq<BranchLink>, name: Seq<char>, k: nat) -> Option<Seq<char>>
    decreases k,
{
    if k == 0 {
        Some(name)
    } else if is_child(links, name) {
        ancestor_at(links, parent_in(links, name), (k - 1) as nat)
    } else {
        None
    }
}

/// `to` lies on the parent chain starting at `from` (including `from` itself).
pub open spec fn reaches(links: Seq<BranchLink>, from: Seq<char>, to: Seq<char>) -> bool {
    exists|k: nat| ancestor_at(links, from, k) == Some(to)
}

/// Well-formedness of the store: unique child names, trunk owns no link,
/// parents are tracked, and every parent chain ends at trunk.
pub open spec fn links_wf(links: Seq<BranchLink>, trunk: Seq<char>) -> bool {
    &&& distinct_children(links)
    &&& (forall|i: int| 0 <= i < links.len() ==> (#[trigger] links[i].child@) != trunk)
    &&& (forall|i: int| 0 <= i < links.len() ==> tracked_in(links, trunk, #[trigger] links[i].parent@))
    &&& (forall|i: int| 0 <= i < links.len() ==> reaches(links, #[trigger] links[i].child@, trunk))
}

/// The number of parent links between `name` and trunk (meaningful when
/// `reaches(links, name, trunk)` holds; see [`lemma_dist_is_minimal`]).
pub open spec fn dist_to_trunk(links: Seq<BranchLink>, trunk: Seq<char>, name: Seq<char>) -> nat {
    choose|k: nat|
        ancestor_at(links, name, k) == Some(trunk) && (forall|j: nat|
            j < k ==> ancestor_at(links, name, j) != Some(trunk))
}

/// `x` appears in the list of names `names`.
pub open spec fn name_in(names: Seq<String>, x: Seq<char>) -> bool {
    exists|i: int| 0 <= i < names.len() && (#[trigger] names[i]@) == x
}

impl StackGraph {
    /// The store invariant every operation preserves.
    pub open spec fn wf(self) -> bool {
        links_wf(self.links@, self.trunk@)
    }

    /// A fresh store: trunk alone, no tracked branches.
    pub fn new(trunk: String) -> (r: StackGraph)
        ensures
            r.wf(),
            r.trunk@ == trunk@,
            r.links@.len() == 0,
    {
        StackGraph { trunk, links: Vec::new() }
    }

    /// The position of the link owned by `name`, if any.
    fn find_link(&self, name: &String) -> (r: Option<usize>)
        ensures
            match r {
                Some(i) => is_child_at(self.links@, i as int, name@),
                None => !is_child(self.links@, name@),
            },
    {
        let mut i: usize = 0;
        while i < self.links.len()
            invariant
                i <= self.links@.len(),
                forall|j: int| 0 <= j < i ==> (#[trigger] self.links@[j].child@) != name@,
            decreases self.links@.len() - i,
        {
            if self.links[i].child == *name {
                return Some(i);
            }
            i = i + 1;
        }
        None
    }

    /// Whether `name` is in the store: trunk or a tracked branch.
    pub fn is_tracked(&self, name: &String) -> (r: bool)
        ensures
            r == tracked_in(self.links@, self.trunk@, name@),
    {
        if *name == self.trunk {
            true
        } else {
            self.find_link(name).is_some()
        }
    }

    /// The tracked parent of `branch`: `None` for trunk and for untracked
    /// branches.
    pub fn get_parent(&self, branch: &String) -> (r: Option<String>)
        requires
            self.wf(),
        ensures
            match r {
                Some(p) => is_child(self.links@, branch@) && p@ == parent_in(self.links@, branch@),
                None => !is_child(self.links@, branch@),
            },
    {
        match self.find_link(branch) {
            Some(i) => {
                proof {
                    lemma_child_index_of(self.links@, i as int, branch@);
                }
                Some(self.links[i].parent.clone())
            },
            None => None,
        }
    }
}

/// With distinct child names, the link a branch owns is the one `child_index`
/// picks, whichever witness position is at hand.
pub proof fn lemma_child_index_of(links: Seq<BranchLink>, i: int, name: Seq<char>)
    requires
        distinct_children(links),
        is_child_at(links, i, name),
    ensures
        is_child(links, name),
        child_index(links, name) == i,
        parent_in(links, name) == links[i].parent@,
{
    assert(is_child(links, name));
    let j = child_index(links, name);
    assert(is_child_at(links, j, name));
    if i < j {
        assert(links[i].child@ != links[j].child@);
    } else if j < i {
        assert(links[j].child@ != links[i].child@);
    }
}

/// Following `a + b` parent links is following `a`, then `b` more.
pub proof fn lemma_ancestor_compose(links: Seq<BranchLink>, x: Seq<char>, a: nat, b: nat)
    ensures
        match ancestor_at(links, x, a) {
            Some(y) => ancestor_at(links, x, (a + b) as nat) == ancestor_at(links, y, b),
            None => ancestor_at(links, x, (a + b) as nat) is None,
        },
    decreases a,
{
    if a == 0 {
    } else if is_child(links, x) {
        lemma_ancestor_compose(links, parent_in(links, x), (a - 1) as nat, b);
        assert(ancestor_at(links, x, (a + b) as nat) == ancestor_at(
            links,
            parent_in(links, x),
            (a + b - 1) as nat,
        ));
    } else {
        assert(ancestor_at(links, x, (a + b) as nat) is None);
    }
}

/// Any way of reaching `to` from `from` yields a shortest way.
pub proof fn lemma_minimal_reach(links: Seq<BranchLink>, from: Seq<char>, to: Seq<char>, k: nat)
    requires
        ancestor_at(links, from, k) == Some(to),
    ensures
        exists|m: nat|
            ancestor_at(links, from, m) == Some(to) && (forall|j: nat|
                j < m ==> ancestor_at(links, from, j) != Some(to)),
    decreases k,
{
    if exists|j: nat| j < k && ancestor_at(links, from, j) == Some(to) {
        let j = choose|j: nat| j < k && ancestor_at(links, from, j) == Some(to);
        lemma_minimal_reach(links, from, to, j);
    } else {
        assert(forall|j: nat| j < k ==> ancestor_at(links, from, j) != Some(to));
    }
}

/// `dist_to_trunk` is the length of the shortest parent chain to trunk.
pub proof fn lemma_dist_is_minimal(links: Seq<BranchLink>, trunk: Seq<char>, name: Seq<char>)
    requires
        reaches(links, name, trunk),
    ensures
        ancestor_at(links, name, dist_to_trunk(links, trunk, name)) == Some(trunk),
        forall|j: nat|
            j < dist_to_trunk(links, trunk, name) ==> ancestor_at(links, name, j) != Some(trunk),
{
    let k = choose|k: nat| ancestor_at(links, name, k) == Some(trunk);
    lemma_minimal_reach(links, name, trunk, k);
}

/// Stepping to the parent takes one off the distance to trunk.
pub proof fn lemma_dist_step(links: Seq<BranchLink>, trunk: Seq<char>, name: Seq<char>)
    requires
        reaches(links, name, trunk),
        name != trunk,
    ensures
        is_child(links, name),
        reaches(links, parent_in(links, name), trunk),
        dist_to_trunk(links, trunk, name) >= 1,
        dist_to_trunk(links, trunk, parent_in(links, name)) == dist_to_trunk(
            links,
            trunk,
            name,
        ) - 1,
{
    lemma_dist_is_minimal(links, trunk, name);
    let d = dist_to_trunk(links, trunk, name);
    assert(ancestor_at(links, name, 0) == Some(name));
    assert(d >= 1);
    assert(is_child(links, name));
    let p = parent_in(links, name);
    assert(ancestor_at(links, p, (d - 1) as nat) == Some(trunk));
    assert(reaches(links, p, trunk));
    lemma_dist_is_minimal(links, trunk, p);
    let dp = dist_to_trunk(links, trunk, p);
    assert(dp <= d - 1);
    assert(ancestor_at(links, name, (dp + 1) as nat) == ancestor_at(links, p, dp));
    assert(d <= dp + 1);
}

/// Reaching a different branch means stepping through the parent first.
pub proof fn lemma_reaches_unfold(links: Seq<BranchLink>, x: Seq<char>, t: Seq<char>)
    requires
        x != t,
    ensures
        reaches(links, x, t) <==> (is_child(links, x) && reaches(links, parent_in(links, x), t)),
{
    if reaches(links, x, t) {
        let k = choose|k: nat| ancestor_at(links, x, k) == Some(t);
        assert(ancestor_at(links, x, 0) == Some(x));
        assert(k != 0);
        assert(is_child(links, x));
        assert(ancestor_at(links, parent_in(links, x), (k - 1) as nat) == Some(t));
        assert(reaches(links, parent_in(links, x), t));
    }
    if is_child(links, x) && reaches(links, parent_in(links, x), t) {
        let k = choose|k: nat| ancestor_at(links, parent_in(links, x), k) == Some(t);
        assert(ancestor_at(links, x, (k + 1) as nat) == ancestor_at(
            links,
            parent_in(links, x),
            k,
        ));
        assert(reaches(links, x, t));
    }
}

/// Every branch reaches itself in zero steps.
pub proof fn lemma_reaches_self(links: Seq<BranchLink>, x: Seq<char>)
    ensures
        reaches(links, x, x),
{
    assert(ancestor_at(links, x, 0) == Some(x));
}

/// Linear search through a list of branch names.
pub fn contains_name(names: &Vec<String>, target: &String) -> (r: bool)
    ensures
        r == name_in(names@, target@),
{
    let mut i: usize = 0;
    while i < names.len()
        invariant
            i <= names@.len(),
            forall|j: int| 0 <= j < i ==> (#[trigger] names@[j]@) != target@,
        decreases names@.len() - i,
    {
        if names[i] == *target {
            return true;
        }
        i = i + 1;
    }
    false
}

/// The children of `name` — the branches whose link points at it — in
/// insertion order.
pub open spec fn children_seq(links: Seq<BranchLink>, name: Seq<char>) -> Seq<Seq<char>>
    decreases links.len(),
{
    if links.len() == 0 {
        Seq::empty()
    } else {
        let rest = children_seq(links.drop_last(), name);
        if links.last().parent@ == name {
            rest.push(links.last().child@)
        } else {
            rest
        }
    }
}

/// A name is among the children of `name` exactly when some link records it
/// as a child with `name` as parent.
pub proof fn lemma_children_seq_membership(links: Seq<BranchLink>, name: Seq<char>, x: Seq<char>)
    ensures
        children_seq(links, name).contains(x) <==> exists|i: int|
            0 <= i < links.len() && (#[trigger] links[i].child@) == x && links[i].parent@ == name,
    decreases links.len(),
{
    if links.len() > 0 {
        let front = links.drop_last();
        lemma_children_seq_membership(front, name, x);
        if children_seq(links, name).contains(x) {
            if links.last().parent@ == name && links.last().child@ == x {
                assert(links[links.len() - 1].child@ == x);
            } else {
                let rest = children_seq(front, name);
                if links.last().parent@ == name {
                    let w = choose|w: int| 0 <= w < rest.push(links.last().child@).len()
                        && rest.push(links.last().child@)[w] == x;
                    assert(rest.contains(x)) by {
                        assert(rest[w] == x);
                    }
                } else {
                    assert(rest.contains(x));
                }
                let i = choose|i: int|
                    0 <= i < front.len() && (#[trigger] front[i].child@) == x && front[i].parent@
                        == name;
                assert(links[i].child@ == x && links[i].parent@ == name);
            }
        }
        if exists|i: int|
            0 <= i < links.len() && (#[trigger] links[i].child@) == x && links[i].parent@ == name {
            let i = choose|i: int|
                0 <= i < links.len() && (#[trigger] links[i].child@) == x && links[i].parent@
                    == name;
            let rest = children_seq(front, name);
            if i == links.len() - 1 {
                assert(children_seq(links, name) == rest.push(x));
                assert(rest.push(x)[rest.len() as int] == x);
            } else {
                assert(front[i].child@ == x && front[i].parent@ == name);
                assert(rest.contains(x));
                let w = choose|w: int| 0 <= w < rest.len() && rest[w] == x;
                if links.last().parent@ == name {
                    assert(rest.push(links.last().child@)[w] == x);
                }
            }
        }
    }
}

impl StackGraph {
    /// The branches stacked directly on `branch`, in insertion order. A branch
    /// with no children yields the empty list.
    pub fn children_of(&self, branch: &String) -> (r: Vec<String>)
        ensures
            r.deep_view() == children_seq(self.links@, branch@),
    {
        let mut r: Vec<String> = Vec::new();
        let mut i: usize = 0;
        while i < self.links.len()
            invariant
                i <= self.links@.len(),
                r.deep_view() == children_seq(self.links@.take(i as int), branch@),
            decreases self.links@.len() - i,
        {
            let ghost prefix = self.links@.take(i as int);
            let ghost prev = r.deep_view();
            if self.links[i].parent == *branch {
                r.push(self.links[i].child.clone());
                proof {
                    assert(r.deep_view() =~= prev.push(self.links@[i as int].child@));
                }
            }
            i = i + 1;
            proof {
                let next = self.links@.take(i as int);
                assert(next.drop_last() =~= prefix);
                assert(next.last() == self.links@[i - 1]);
            }
        }
        proof {
            assert(self.links@.take(self.links@.len() as int) =~= self.links@);
        }
        r
    }

    /// Whether `target` lies on the parent chain starting at `from`.
    ///
    /// This is the reachability test that guards `set_parent` against cycles.
    pub fn reaches_branch(&self, from: &String, target: &String) -> (r: bool)
        requires
            self.wf(),
        ensures
            r == reaches(self.links@, from@, target@),
    {
        let mut current: String = from.clone();
        loop
            invariant
                self.wf(),
                reaches(self.links@, from@, target@) == reaches(self.links@, current@, target@),
            decreases dist_to_trunk(self.links@, self.trunk@, current@),
        {
            if current == *target {
                proof {
                    lemma_reaches_self(self.links@, current@);
                }
                return true;
            }
            match self.find_link(&current) {
                Some(i) => {
                    proof {
                        lemma_child_index_of(self.links@, i as int, current@);
                        assert(reaches(self.links@, current@, self.trunk@));
                        assert(current@ != self.trunk@);
                        lemma_dist_step(self.links@, self.trunk@, current@);
                        lemma_reaches_unfold(self.links@, current@, target@);
                    }
                    current = self.links[i].parent.clone();
                },
                None => {
                    proof {
                        lemma_reaches_unfold(self.links@, current@, target@);
                    }
                    return false;
                },
            }
        }
    }
}

/// `new_l` is `old_l` with exactly one change: the branch `b` now links to
/// `p`. Every other branch keeps its link, and no other branch appears.
pub open spec fn relinked(
    old_l: Seq<BranchLink>,
    new_l: Seq<BranchLink>,
    b: Seq<char>,
    p: Seq<char>,
) -> bool {
    &&& distinct_children(new_l)
    &&& is_child(new_l, b)
    &&& parent_in(new_l, b) == p
    &&& (forall|x: Seq<char>|
        #![trigger is_child(new_l, x)]
        #![trigger is_child(old_l, x)]
        x != b ==> (is_child(new_l, x) <==> is_child(old_l, x)))
    &&& (forall|x: Seq<char>|
        x != b && is_child(old_l, x) ==> #[trigger] parent_in(new_l, x) == parent_in(old_l, x))
    &&& (forall|x: Seq<char>| #[trigger] is_child(new_l, x) ==> x == b || is_child(old_l, x))
}

/// A parent chain that never passes through `b` is untouched by re-linking `b`.
pub proof fn lemma_chain_avoiding_b(
    old_l: Seq<BranchLink>,
    new_l: Seq<BranchLink>,
    b: Seq<char>,
    p: Seq<char>,
    x: Seq<char>,
    k: nat,
)
    requires
        relinked(old_l, new_l, b, p),
        forall|j: nat| j < k ==> ancestor_at(old_l, x, j) != Some(b),
    ensures
        ancestor_at(new_l, x, k) == ancestor_at(old_l, x, k),
    decreases k,
{
    if k > 0 {
        assert(ancestor_at(old_l, x, 0) == Some(x));
        assert(x != b);
        if is_child(old_l, x) {
            let q = parent_in(old_l, x);
            assert(is_child(new_l, x) && parent_in(new_l, x) == q);
            assert forall|j: nat| j < (k - 1) as nat implies ancestor_at(old_l, q, j) != Some(
                b,
            ) by {
                assert(ancestor_at(old_l, x, (j + 1) as nat) == ancestor_at(old_l, q, j));
            }
            lemma_chain_avoiding_b(old_l, new_l, b, p, q, (k - 1) as nat);
            assert(ancestor_at(new_l, x, k) == ancestor_at(new_l, q, (k - 1) as nat));
        } else {
            assert(!is_child(new_l, x));
        }
    }
}

/// After re-linking `b`, every branch that was tracked still reaches trunk.
proof fn lemma_relink_chains(
    old_l: Seq<BranchLink>,
    new_l: Seq<BranchLink>,
    trunk: Seq<char>,
    b: Seq<char>,
    p: Seq<char>,
    x: Seq<char>,
)
    requires
        links_wf(old_l, trunk),
        relinked(old_l, new_l, b, p),
        b != trunk,
        reaches(new_l, b, trunk),
        tracked_in(old_l, trunk, x),
    ensures
        reaches(new_l, x, trunk),
    decreases dist_to_trunk(old_l, trunk, x),
{
    if x == trunk {
        lemma_reaches_self(new_l, trunk);
    } else if x == b {
    } else {
        let i = choose|i: int| is_child_at(old_l, i, x);
        lemma_child_index_of(old_l, i, x);
        assert(old_l[i].child@ == x);
        assert(reaches(old_l, x, trunk));
        assert(tracked_in(old_l, trunk, old_l[i].parent@));
        lemma_dist_step(old_l, trunk, x);
        let q = parent_in(old_l, x);
        lemma_relink_chains(old_l, new_l, trunk, b, p, q);
        assert(is_child(new_l, x) && parent_in(new_l, x) == q);
        lemma_reaches_unfold(new_l, x, trunk);
    }
}

/// Re-pointing `b`'s link at a tracked branch `p` that does not descend from
/// `b` keeps the whole store well-formed.
pub proof fn lemma_relink_preserves_wf(
    old_l: Seq<BranchLink>,
    new_l: Seq<BranchLink>,
    trunk: Seq<char>,
    b: Seq<char>,
    p: Seq<char>,
)
    requires
        links_wf(old_l, trunk),
        relinked(old_l, new_l, b, p),
        !reaches(old_l, p, b),
        tracked_in(old_l, trunk, p),
        b != trunk,
    ensures
        links_wf(new_l, trunk),
{
    lemma_reaches_self(old_l, p);
    assert(p != b);
    // the chain from p to trunk is the same in both stores
    assert(reaches(old_l, p, trunk)) by {
        if p == trunk {
            lemma_reaches_self(old_l, p);
        } else {
            let i = choose|i: int| is_child_at(old_l, i, p);
            assert(old_l[i].child@ == p);
        }
    }
    let kp = choose|k: nat| ancestor_at(old_l, p, k) == Some(trunk);
    assert forall|j: nat| j < kp implies ancestor_at(old_l, p, j) != Some(b) by {
        if ancestor_at(old_l, p, j) == Some(b) {
            assert(reaches(old_l, p, b));
        }
    }
    lemma_chain_avoiding_b(old_l, new_l, b, p, p, kp);
    assert(reaches(new_l, p, trunk));
    // and b hangs off it one step down
    let kb = choose|k: nat| ancestor_at(new_l, p, k) == Some(trunk);
    assert(ancestor_at(new_l, b, (kb + 1) as nat) == ancestor_at(new_l, p, kb));
    assert(reaches(new_l, b, trunk));
    // trunk still owns no link
    assert forall|i: int| 0 <= i < new_l.len() implies (#[trigger] new_l[i].child@) != trunk by {
        let x = new_l[i].child@;
        assert(is_child_at(new_l, i, x));
        assert(is_child(new_l, x));
        if x != b {
            assert(is_child(old_l, x));
            let j = choose|j: int| is_child_at(old_l, j, x);
            assert(old_l[j].child@ == x);
        }
    }
    // every parent is still tracked
    assert forall|i: int| 0 <= i < new_l.len() implies tracked_in(
        new_l,
        trunk,
        #[trigger] new_l[i].parent@,
    ) by {
        let x = new_l[i].child@;
        lemma_child_index_of(new_l, i, x);
        assert(new_l[i].parent@ == parent_in(new_l, x));
        let y = parent_in(new_l, x);
        if x == b {
            assert(y == p);
            if p != trunk {
                assert(is_child(old_l, p));
                assert(is_child(new_l, p));
            }
        } else {
            assert(is_child(new_l, x));
            assert(is_child(old_l, x));
            let j = choose|j: int| is_child_at(old_l, j, x);
            lemma_child_index_of(old_l, j, x);
            assert(y == old_l[j].parent@);
            assert(tracked_in(old_l, trunk, y));
            if y != trunk {
                if y == b {
                    assert(is_child(new_l, y));
                } else {
                    assert(is_child(new_l, y));
                }
            }
        }
    }
    // every chain still ends at trunk
    assert forall|i: int| 0 <= i < new_l.len() implies reaches(
        new_l,
        #[trigger] new_l[i].child@,
        trunk,
    ) by {
        let x = new_l[i].child@;
        assert(is_child_at(new_l, i, x));
        assert(is_child(new_l, x));
        if x == b {
        } else {
            assert(is_child(old_l, x));
            lemma_relink_chains(old_l, new_l, trunk, b, p, x);
        }
    }
}

/// An in-place update of the link at `idx` re-links only that branch.
proof fn lemma_update_shape(
    old_l: Seq<BranchLink>,
    new_l: Seq<BranchLink>,
    idx: int,
    b: Seq<char>,
    p: Seq<char>,
)
    requires
        distinct_children(old_l),
        is_child_at(old_l, idx, b),
        new_l.len() == old_l.len(),
        forall|j: int| 0 <= j < new_l.len() && j != idx ==> new_l[j] == old_l[j],
        new_l[idx].child@ == b,
        new_l[idx].parent@ == p,
    ensures
        relinked(old_l, new_l, b, p),
{
    assert forall|i: int, j: int| 0 <= i < j < new_l.len() implies new_l[i].child@
        != new_l[j].child@ by {
        assert(new_l[i].child@ == old_l[i].child@);
        assert(new_l[j].child@ == old_l[j].child@);
    }
    assert(is_child_at(new_l, idx, b));
    lemma_child_index_of(new_l, idx, b);
    assert forall|x: Seq<char>| x != b implies (is_child(new_l, x) <==> is_child(old_l, x)) by {
        if is_child(new_l, x) {
            let i = choose|i: int| is_child_at(new_l, i, x);
            assert(is_child_at(old_l, i, x));
        }
        if is_child(old_l, x) {
            let i = choose|i: int| is_child_at(old_l, i, x);
            assert(i != idx);
            assert(is_child_at(new_l, i, x));
        }
    }
    assert forall|x: Seq<char>| x != b && is_child(old_l, x) implies #[trigger] parent_in(new_l, x)
        == parent_in(old_l, x) by {
        let i = choose|i: int| is_child_at(old_l, i, x);
        assert(i != idx);
        lemma_child_index_of(old_l, i, x);
        assert(is_child_at(new_l, i, x));
        lemma_child_index_of(new_l, i, x);
    }
    assert forall|x: Seq<char>| #[trigger] is_child(new_l, x) implies x == b || is_child(
        old_l,
        x,
    ) by {
        if x != b {
            let i = choose|i: int| is_child_at(new_l, i, x);
            assert(is_child_at(old_l, i, x));
        }
    }
}

/// Appending a link for a branch with no link yet re-links only that branch.
proof fn lemma_push_shape(
    old_l: Seq<BranchLink>,
    new_l: Seq<BranchLink>,
    b: Seq<char>,
    p: Seq<char>,
)
    requires
        distinct_children(old_l),
        !is_child(old_l, b),
        new_l.len() == old_l.len() + 1,
        forall|j: int| 0 <= j < old_l.len() ==> new_l[j] == old_l[j],
        new_l[old_l.len() as int].child@ == b,
        new_l[old_l.len() as int].parent@ == p,
    ensures
        relinked(old_l, new_l, b, p),
{
    let idx = old_l.len() as int;
    assert forall|i: int, j: int| 0 <= i < j < new_l.len() implies new_l[i].child@
        != new_l[j].child@ by {
        if j < idx {
            assert(new_l[i].child@ == old_l[i].child@);
            assert(new_l[j].child@ == old_l[j].child@);
        } else {
            assert(new_l[i].child@ == old_l[i].child@);
            if new_l[i].child@ == b {
                assert(is_child_at(old_l, i, b));
            }
        }
    }
    assert(is_child_at(new_l, idx, b));
    lemma_child_index_of(new_l, idx, b);
    assert forall|x: Seq<char>| x != b implies (is_child(new_l, x) <==> is_child(old_l, x)) by {
        if is_child(new_l, x) {
            let i = choose|i: int| is_child_at(new_l, i, x);
            assert(i != idx);
            assert(is_child_at(old_l, i, x));
        }
        if is_child(old_l, x) {
            let i = choose|i: int| is_child_at(old_l, i, x);
            assert(is_child_at(new_l, i, x));
        }
    }
    assert forall|x: Seq<char>| x != b && is_child(old_l, x) implies #[trigger] parent_in(new_l, x)
        == parent_in(old_l, x) by {
        let i = choose|i: int| is_child_at(old_l, i, x);
        lemma_child_index_of(old_l, i, x);
        assert(is_child_at(new_l, i, x));
        lemma_child_index_of(new_l, i, x);
    }
    assert forall|x: Seq<char>| #[trigger] is_child(new_l, x) implies x == b || is_child(
        old_l,
        x,
    ) by {
        if x != b {
            let i = choose|i: int| is_child_at(new_l, i, x);
            assert(i != idx);
            assert(is_child_at(old_l, i, x));
        }
    }
}

impl StackGraph {
    /// Record `parent` as the tracked parent of `branch`, inserting the link
    /// or re-pointing the existing one.
    ///
    /// Fails with `CycleDetected` when `parent` descends from `branch` (or is
    /// `branch` itself), with `UnknownBranch` when either name is missing from
    /// `git_branches` (the branches that exist in the repository), and with
    /// `ParentNotTracked` when `parent` is neither trunk nor tracked. On any
    /// failure the store is unchanged.
    pub fn set_parent(&mut self, branch: &String, parent: &String, git_branches: &Vec<String>) -> (r:
        StResult<()>)
        requires
            old(self).wf(),
        ensures
            final(self).wf(),
            final(self).trunk@ == old(self).trunk@,
            match r {
                Ok(()) => {
                    &&& !reaches(old(self).links@, parent@, branch@)
                    &&& name_in(git_branches@, branch@)
                    &&& name_in(git_branches@, parent@)
                    &&& tracked_in(old(self).links@, old(self).trunk@, parent@)
                    &&& relinked(old(self).links@, final(self).links@, branch@, parent@)
                    &&& (is_child(old(self).links@, branch@) ==> final(self).links@.len() == old(
                        self,
                    ).links@.len())
                    &&& (!is_child(old(self).links@, branch@) ==> final(self).links@.len() == old(
                        self,
                    ).links@.len() + 1)
                },
                Err(StError::CycleDetected) => reaches(old(self).links@, parent@, branch@)
                    && final(self).links@ == old(self).links@,
                Err(StError::UnknownBranch(n)) => {
                    &&& !reaches(old(self).links@, parent@, branch@)
                    &&& (n@ == branch@ && !name_in(git_branches@, branch@)) || (n@ == parent@
                        && name_in(git_branches@, branch@) && !name_in(git_branches@, parent@))
                    &&& final(self).links@ == old(self).links@
                },
                Err(StError::ParentNotTracked(n)) => {
                    &&& n@ == parent@
                    &&& !reaches(old(self).links@, parent@, branch@)
                    &&& name_in(git_branches@, branch@)
                    &&& name_in(git_branches@, parent@)
                    &&& !tracked_in(old(self).links@, old(self).trunk@, parent@)
                    &&& final(self).links@ == old(self).links@
                },
                _ => false,
            },
    {
        if self.reaches_branch(parent, branch) {
            return Err(StError::CycleDetected);
        }
        if !contains_name(git_branches, branch) {
            return Err(StError::UnknownBranch(branch.clone()));
        }
        if !contains_name(git_branches, parent) {
            return Err(StError::UnknownBranch(parent.clone()));
        }
        if !self.is_tracked(parent) {
            return Err(StError::ParentNotTracked(parent.clone()));
        }
        proof {
            lemma_reaches_self(self.links@, branch@);
            if branch@ == self.trunk@ {
                if parent@ != branch@ {
                    let i = choose|i: int| is_child_at(self.links@, i, parent@);
                    assert(self.links@[i].child@ == parent@);
                    assert(reaches(self.links@, parent@, self.trunk@));
                }
                assert(false);
            }
        }
        let new_link = BranchLink { child: branch.clone(), parent: parent.clone() };
        let ghost old_links = self.links@;
        match self.find_link(branch) {
            Some(i) => {
                proof {
                    lemma_child_index_of(self.links@, i as int, branch@);
                }
                self.links.set(i, new_link);
                proof {
                    lemma_update_shape(old_links, self.links@, i as int, branch@, parent@);
                    lemma_relink_preserves_wf(
                        old_links,
                        self.links@,
                        self.trunk@,
                        branch@,
                        parent@,
                    );
                }
            },
            None => {
                self.links.push(new_link);
                proof {
                    lemma_push_shape(old_links, self.links@, branch@, parent@);
                    lemma_relink_preserves_wf(
                        old_links,
                        self.links@,
                        self.trunk@,
                        branch@,
                        parent@,
                    );
                }
            },
        }
        Ok(())
    }
}

/// `new_l` is `old_l` with `b`'s link removed and every child of `b`
/// re-pointed at `b`'s former parent `bp`.
pub open spec fn unlinked(
    old_l: Seq<BranchLink>,
    new_l: Seq<BranchLink>,
    b: Seq<char>,
    bp: Seq<char>,
) -> bool {
    &&& distinct_children(new_l)
    &&& !is_child(new_l, b)
    &&& (forall|x: Seq<char>|
        #![trigger is_child(new_l, x)]
        #![trigger is_child(old_l, x)]
        x != b ==> (is_child(new_l, x) <==> is_child(old_l, x)))
    &&& (forall|x: Seq<char>|
        x != b && is_child(old_l, x) ==> #[trigger] parent_in(new_l, x) == (if parent_in(old_l, x)
            == b {
            bp
        } else {
            parent_in(old_l, x)
        }))
}

/// A tracked branch never records itself as its own parent.
proof fn lemma_no_self_parent(links: Seq<BranchLink>, trunk: Seq<char>, b: Seq<char>)
    requires
        links_wf(links, trunk),
        is_child(links, b),
    ensures
        parent_in(links, b) != b,
{
    if parent_in(links, b) == b {
        let i = choose|i: int| is_child_at(links, i, b);
        assert(links[i].child@ == b);
        assert(reaches(links, b, trunk));
        let k = choose|k: nat| ancestor_at(links, b, k) == Some(trunk);
        lemma_self_loop(links, b, k);
        assert(b != trunk);
    }
}

/// A self-loop pins the whole parent chain to one branch.
proof fn lemma_self_loop(links: Seq<BranchLink>, b: Seq<char>, k: nat)
    requires
        is_child(links, b),
        parent_in(links, b) == b,
    ensures
        ancestor_at(links, b, k) == Some(b),
    decreases k,
{
    if k > 0 {
        lemma_self_loop(links, b, (k - 1) as nat);
    }
}

/// After removing `b` and closing the gap, every other tracked branch still
/// reaches trunk.
proof fn lemma_unlink_chains(
    old_l: Seq<BranchLink>,
    new_l: Seq<BranchLink>,
    trunk: Seq<char>,
    b: Seq<char>,
    x: Seq<char>,
)
    requires
        links_wf(old_l, trunk),
        is_child(old_l, b),
        unlinked(old_l, new_l, b, parent_in(old_l, b)),
        tracked_in(old_l, trunk, x),
        x != b,
    ensures
        reaches(new_l, x, trunk),
    decreases dist_to_trunk(old_l, trunk, x),
{
    if x == trunk {
        lemma_reaches_self(new_l, trunk);
    } else {
        let i = choose|i: int| is_child_at(old_l, i, x);
        lemma_child_index_of(old_l, i, x);
        assert(old_l[i].child@ == x);
        assert(reaches(old_l, x, trunk));
        assert(tracked_in(old_l, trunk, old_l[i].parent@));
        lemma_dist_step(old_l, trunk, x);
        let q = parent_in(old_l, x);
        if q == b {
            let j = choose|j: int| is_child_at(old_l, j, b);
            lemma_child_index_of(old_l, j, b);
            assert(old_l[j].child@ == b);
            assert(reaches(old_l, b, trunk));
            assert(tracked_in(old_l, trunk, old_l[j].parent@));
            assert(b != trunk);
            lemma_dist_step(old_l, trunk, b);
            let bp = parent_in(old_l, b);
            lemma_no_self_parent(old_l, trunk, b);
            lemma_unlink_chains(old_l, new_l, trunk, b, bp);
            assert(is_child(new_l, x) && parent_in(new_l, x) == bp);
            lemma_reaches_unfold(new_l, x, trunk);
        } else {
            lemma_unlink_chains(old_l, new_l, trunk, b, q);
            assert(is_child(new_l, x) && parent_in(new_l, x) == q);
            lemma_reaches_unfold(new_l, x, trunk);
        }
    }
}

/// Removing `b`'s link and re-pointing its children at `b`'s former parent
/// keeps the whole store well-formed.
pub proof fn lemma_unlink_preserves_wf(
    old_l: Seq<BranchLink>,
    new_l: Seq<BranchLink>,
    trunk: Seq<char>,
    b: Seq<char>,
)
    requires
        links_wf(old_l, trunk),
        is_child(old_l, b),
        unlinked(old_l, new_l, b, parent_in(old_l, b)),
    ensures
        links_wf(new_l, trunk),
{
    let bp = parent_in(old_l, b);
    lemma_no_self_parent(old_l, trunk, b);
    let jb = choose|j: int| is_child_at(old_l, j, b);
    lemma_child_index_of(old_l, jb, b);
    assert(old_l[jb].child@ == b);
    assert(tracked_in(old_l, trunk, old_l[jb].parent@));
    assert(tracked_in(old_l, trunk, bp));
    // trunk still owns no link
    assert forall|i: int| 0 <= i < new_l.len() implies (#[trigger] new_l[i].child@) != trunk by {
        let x = new_l[i].child@;
        assert(is_child_at(new_l, i, x));
        assert(is_child(new_l, x));
        assert(x != b);
        assert(is_child(old_l, x));
        let j = choose|j: int| is_child_at(old_l, j, x);
        assert(old_l[j].child@ == x);
    }
    // every parent is still tracked
    assert forall|i: int| 0 <= i < new_l.len() implies tracked_in(
        new_l,
        trunk,
        #[trigger] new_l[i].parent@,
    ) by {
        let x = new_l[i].child@;
        assert(is_child_at(new_l, i, x));
        lemma_child_index_of(new_l, i, x);
        assert(new_l[i].parent@ == parent_in(new_l, x));
        assert(x != b);
        assert(is_child(old_l, x));
        let j = choose|j: int| is_child_at(old_l, j, x);
        lemma_child_index_of(old_l, j, x);
        assert(tracked_in(old_l, trunk, old_l[j].parent@));
        let y = parent_in(new_l, x);
        if parent_in(old_l, x) == b {
            assert(y == bp);
            if bp != trunk {
                assert(is_child(old_l, bp));
                assert(is_child(new_l, bp));
            }
        } else {
            assert(y == parent_in(old_l, x));
            assert(tracked_in(old_l, trunk, y));
            if y != trunk && y != b {
                assert(is_child(new_l, y));
            }
            assert(y != b);
        }
    }
    // every chain still ends at trunk
    assert forall|i: int| 0 <= i < new_l.len() implies reaches(
        new_l,
        #[trigger] new_l[i].child@,
        trunk,
    ) by {
        let x = new_l[i].child@;
        assert(is_child_at(new_l, i, x));
        assert(is_child(new_l, x));
        assert(x != b);
        assert(is_child(old_l, x));
        lemma_unlink_chains(old_l, new_l, trunk, b, x);
    }
}

impl StackGraph {
    /// Detach `branch` from the store. Its children are re-parented onto
    /// `branch`'s former parent, closing the gap in the stack, so discovery
    /// never sees a link pointing at a branch that is gone.
    ///
    /// Fails with `BranchNotTracked` when `branch` owns no link (trunk
    /// included); the store is then unchanged.
    pub fn remove(&mut self, branch: &String) -> (r: StResult<()>)
        requires
            old(self).wf(),
        ensures
            final(self).wf(),
            final(self).trunk@ == old(self).trunk@,
            match r {
                Ok(()) => {
                    &&& is_child(old(self).links@, branch@)
                    &&& unlinked(
                        old(self).links@,
                        final(self).links@,
                        branch@,
                        parent_in(old(self).links@, branch@),
                    )
                    &&& final(self).links@.len() == old(self).links@.len() - 1
                },
                Err(StError::BranchNotTracked(n)) => {
                    &&& n@ == branch@
                    &&& !is_child(old(self).links@, branch@)
                    &&& final(self).links@ == old(self).links@
                },
                _ => false,
            },
    {
        let i = match self.find_link(branch) {
            Some(i) => i,
            None => {
                return Err(StError::BranchNotTracked(branch.clone()));
            },
        };
        proof {
            lemma_child_index_of(self.links@, i as int, branch@);
        }
        let ghost old_links = self.links@;
        let ghost bp_spec = parent_in(self.links@, branch@);
        let removed = self.links.remove(i);
        let bp = removed.parent;
        let ghost mid_links = self.links@;
        proof {
            assert(bp@ == bp_spec);
            assert forall|a: int, c: int| 0 <= a < c < mid_links.len() implies mid_links[a].child@
                != mid_links[c].child@ by {
                assert(mid_links[a].child@ == if a < i as int {
                    old_links[a].child@
                } else {
                    old_links[a + 1].child@
                });
                assert(mid_links[c].child@ == if c < i as int {
                    old_links[c].child@
                } else {
                    old_links[c + 1].child@
                });
            }
        }
        let mut j: usize = 0;
        while j < self.links.len()
            invariant
                j <= self.links@.len(),
                self.trunk@ == old(self).trunk@,
                self.links@.len() == mid_links.len(),
                bp@ == bp_spec,
                forall|a: int| 0 <= a < self.links@.len() ==> (#[trigger] self.links@[a].child@)
                    == mid_links[a].child@,
                forall|a: int| j <= a < self.links@.len() ==> (#[trigger] self.links@[a].parent@)
                    == mid_links[a].parent@,
                forall|a: int| 0 <= a < j ==> (#[trigger] self.links@[a].parent@) == (
                    if mid_links[a].parent@ == branch@ {
                        bp_spec
                    } else {
                        mid_links[a].parent@
                    }),
            decreases self.links@.len() - j,
        {
            if self.links[j].parent == *branch {
                let c = self.links[j].child.clone();
                self.links.set(j, BranchLink { child: c, parent: bp.clone() });
            }
            j = j + 1;
        }
        proof {
            let new_l = self.links@;
            assert forall|a: int, c: int| 0 <= a < c < new_l.len() implies new_l[a].child@
                != new_l[c].child@ by {
                assert(new_l[a].child@ == mid_links[a].child@);
                assert(new_l[c].child@ == mid_links[c].child@);
            }
            // children of the new store are the old ones less `branch`
            assert forall|x: Seq<char>| #[trigger] is_child(new_l, x) implies x != branch@
                && is_child(old_links, x) by {
                let a = choose|a: int| is_child_at(new_l, a, x);
                assert(mid_links[a].child@ == x);
                let o = if a < i as int {
                    a
                } else {
                    a + 1
                };
                assert(old_links[o].child@ == x);
                assert(is_child_at(old_links, o, x));
                if x == branch@ {
                    lemma_child_index_of(old_links, o, branch@);
                }
            }
            assert(!is_child(new_l, branch@));
            assert forall|x: Seq<char>| x != branch@ && is_child(old_links, x) implies is_child(
                new_l,
                x,
            ) by {
                let o = choose|o: int| is_child_at(old_links, o, x);
                assert(o != i as int);
                let a = if o < i as int {
                    o
                } else {
                    o - 1
                };
                assert(mid_links[a].child@ == x);
                assert(is_child_at(new_l, a, x));
            }
            assert forall|x: Seq<char>| x != branch@ && is_child(old_links, x) implies
                #[trigger] parent_in(new_l, x) == (if parent_in(old_links, x) == branch@ {
                bp_spec
            } else {
                parent_in(old_links, x)
            }) by {
                let o = choose|o: int| is_child_at(old_links, o, x);
                lemma_child_index_of(old_links, o, x);
                assert(o != i as int);
                let a = if o < i as int {
                    o
                } else {
                    o - 1
                };
                assert(mid_links[a].child@ == x);
                assert(mid_links[a].parent@ == old_links[o].parent@);
                assert(is_child_at(new_l, a, x));
                lemma_child_index_of(new_l, a, x);
            }
            assert(unlinked(old_links, new_l, branch@, bp_spec));
            lemma_unlink_preserves_wf(old_links, new_l, self.trunk@, branch@);
        }
        Ok(())
    }
}

/// The exact outcome of recording `parent` as the tracked parent of
/// `branch`: one success shape, and each error together with the condition it
/// comes from, if and only if. On every failure the links are unchanged.
pub open spec fn relink_post(
    old_l: Seq<BranchLink>,
    new_l: Seq<BranchLink>,
    trunk: Seq<char>,
    branch: Seq<char>,
    parent: Seq<char>,
    git: Seq<String>,
    r: StResult<()>,
) -> bool {
    match r {
        Ok(()) => {
            &&& !reaches(old_l, parent, branch)
            &&& name_in(git, branch)
            &&& name_in(git, parent)
            &&& tracked_in(old_l, trunk, parent)
            &&& relinked(old_l, new_l, branch, parent)
        },
        Err(StError::CycleDetected) => reaches(old_l, parent, branch) && new_l == old_l,
        Err(StError::UnknownBranch(n)) => {
            &&& !reaches(old_l, parent, branch)
            &&& (n@ == branch && !name_in(git, branch)) || (n@ == parent && name_in(git, branch)
                && !name_in(git, parent))
            &&& new_l == old_l
        },
        Err(StError::ParentNotTracked(n)) => {
            &&& n@ == parent
            &&& !reaches(old_l, parent, branch)
            &&& name_in(git, branch)
            &&& name_in(git, parent)
            &&& !tracked_in(old_l, trunk, parent)
            &&& new_l == old_l
        },
        _ => false,
    }
}

/// The exact outcome of detaching `branch` from the store: success exactly
/// when it owned a link, with its children re-parented onto its former parent
/// and one link gone; `BranchNotTracked` and an unchanged store otherwise.
pub open spec fn unlink_post(
    old_l: Seq<BranchLink>,
    new_l: Seq<BranchLink>,
    branch: Seq<char>,
    r: StResult<()>,
) -> bool {
    match r {
        Ok(()) => {
            &&& is_child(old_l, branch)
            &&& unlinked(old_l, new_l, branch, parent_in(old_l, branch))
            &&& new_l.len() == old_l.len() - 1
        },
        Err(StError::BranchNotTracked(n)) => n@ == branch && !is_child(old_l, branch) && new_l
            == old_l,
        _ => false,
    }
}

impl StackGraph {
    /// Begin tracking `branch` on top of `onto`: the `track` mutation.
    ///
    /// `onto` must be trunk or already tracked (`ParentNotTracked`), both
    /// names must exist in the repository (`UnknownBranch`, checked against
    /// `git_branches`), and the new link must not close a cycle
    /// (`CycleDetected`). On failure the store is unchanged.
    pub fn track(&mut self, branch: &String, onto: &String, git_branches: &Vec<String>) -> (r:
        StResult<()>)
        requires
            old(self).wf(),
        ensures
            final(self).wf(),
            final(self).trunk@ == old(self).trunk@,
            relink_post(
                old(self).links@,
                final(self).links@,
                old(self).trunk@,
                branch@,
                onto@,
                git_branches@,
                r,
            ),
    {
        self.set_parent(branch, onto, git_branches)
    }

    /// Stop tracking `branch`: the `untrack` mutation. Only the stack
    /// metadata is touched — the git branch itself is left alone — and any
    /// children of `branch` are re-parented onto `branch`'s former parent.
    pub fn untrack(&mut self, branch: &String) -> (r: StResult<()>)
        requires
            old(self).wf(),
        ensures
            final(self).wf(),
            final(self).trunk@ == old(self).trunk@,
            unlink_post(old(self).links@, final(self).links@, branch@, r),
    {
        self.remove(branch)
    }

    /// Record the link for a branch the collaborator has just created at the
    /// tip of `current`: the tracking half of the `create` mutation.
    ///
    /// The caller creates the git branch first and only then calls this, so a
    /// failed git creation leaves no link behind; a failure here leaves the
    /// created branch untracked rather than partially linked.
    pub fn create(&mut self, name: &String, current: &String, git_branches: &Vec<String>) -> (r:
        StResult<()>)
        requires
            old(self).wf(),
        ensures
            final(self).wf(),
            final(self).trunk@ == old(self).trunk@,
            relink_post(
                old(self).links@,
                final(self).links@,
                old(self).trunk@,
                name@,
                current@,
                git_branches@,
                r,
            ),
    {
        self.set_parent(name, current, git_branches)
    }

    /// Drop the stack metadata of a branch being deleted: the link-store half
    /// of the `delete` mutation, with children re-parented as in `untrack`.
    ///
    /// Deleting the checked-out branch is ruled out up front — the caller
    /// must check out elsewhere first — and trunk owns no link, so asking to
    /// delete it fails with `BranchNotTracked`.
    pub fn delete(&mut self, branch: &String, head: &String) -> (r: StResult<()>)
        requires
            old(self).wf(),
            branch@ != head@,
        ensures
            final(self).wf(),
            final(self).trunk@ == old(self).trunk@,
            unlink_post(old(self).links@, final(self).links@, branch@, r),
    {
        self.remove(branch)
    }
}

/// The branch on the chain from `x`, `k` steps up (meaningful while the chain
/// is defined).
pub open spec fn step_of(links: Seq<BranchLink>, x: Seq<char>, k: int) -> Seq<char> {
    match ancestor_at(links, x, k as nat) {
        Some(y) => y,
        None => x,
    }
}

/// In a well-formed store the shortest chain to trunk visits each branch at
/// most once, so its length never exceeds the number of links.
pub proof fn lemma_dist_bound(links: Seq<BranchLink>, trunk: Seq<char>, x: Seq<char>)
    requires
        links_wf(links, trunk),
        reaches(links, x, trunk),
    ensures
        dist_to_trunk(links, trunk, x) <= links.len(),
{
    lemma_dist_is_minimal(links, trunk, x);
    let d = dist_to_trunk(links, trunk, x) as int;
    if d > links.len() {
        // every station strictly below trunk owns a link
        assert forall|k: int| 0 <= k < d implies ancestor_at(links, x, k as nat) == Some(
            step_of(links, x, k),
        ) && is_child(links, step_of(links, x, k)) by {
            lemma_ancestor_compose(links, x, k as nat, (d - k) as nat);
            assert(ancestor_at(links, x, k as nat) is Some);
            let y = step_of(links, x, k);
            lemma_ancestor_compose(links, x, (k + 1) as nat, (d - k - 1) as nat);
            lemma_ancestor_compose(links, x, k as nat, 1);
            assert(ancestor_at(links, x, (k + 1) as nat) == ancestor_at(links, y, 1));
            if !is_child(links, y) {
                assert(ancestor_at(links, y, 1) is None);
                assert(ancestor_at(links, x, d as nat) is None);
            }
        }
        // stations are pairwise distinct, else trunk would come sooner
        assert forall|a: int, k: int| 0 <= a < k < d implies step_of(links, x, a) != step_of(
            links,
            x,
            k,
        ) by {
            if step_of(links, x, a) == step_of(links, x, k) {
                lemma_ancestor_compose(links, x, a as nat, (d - k) as nat);
                lemma_ancestor_compose(links, x, k as nat, (d - k) as nat);
                assert(ancestor_at(links, x, (a + d - k) as nat) == Some(trunk));
            }
        }
        // so their link positions are pairwise distinct too
        let idxs = Seq::new(d as nat, |k: int| child_index(links, step_of(links, x, k)));
        assert forall|a: int, k: int| 0 <= a < idxs.len() && 0 <= k < idxs.len() && a != k
            implies idxs[a] != idxs[k] by {
            assert(is_child_at(links, child_index(links, step_of(links, x, a)), step_of(links, x, a)));
            assert(is_child_at(links, child_index(links, step_of(links, x, k)), step_of(links, x, k)));
        }
        assert(idxs.no_duplicates());
        idxs.unique_seq_to_set();
        let range = vstd::set_lib::set_int_range(0, links.len() as int);
        assert forall|e: int| idxs.to_set().contains(e) implies range.contains(e) by {
            let k = choose|k: int| 0 <= k < idxs.len() && idxs[k] == e;
            assert(is_child_at(links, child_index(links, step_of(links, x, k)), step_of(links, x, k)));
        }
        vstd::set_lib::lemma_int_range(0, links.len() as int);
        vstd::set_lib::lemma_len_subset(idxs.to_set(), range);
        assert(false);
    }
}

} // verus!
