//! The restack engine: a resumable pass that re-applies every branch of a
//! stack onto the current tip of its parent, trunk first.
//!
//! The engine only decides; the caller performs each rebase and reports the
//! outcome. On a conflict the state halts where it stands — the remaining
//! branches each depend on the one before, so none of them is attempted — and
//! can be persisted and resumed by a later invocation once the conflict is
//! resolved, or discarded on an explicit abort.

use vstd::prelude::*;

verus! {

/// The step decided for the branch at the cursor.
#[derive(Debug, Clone, PartialEq, Eq)]
pub enum RestackAction {
    /// Re-apply `branch`'s commits onto the current tip of `onto`.
    Rebase { branch: String, onto: String },
    /// `branch` already sits on its parent's tip: touch nothing.
    Skip { branch: String },
}

/// A rebase is decided exactly when the branch's recorded base differs from
/// its parent's current tip.
pub open spec fn decides_rebase(base: Seq<char>, parent_tip: Seq<char>) -> bool {
    base != parent_tip
}

/// The persisted, resumable progress of one restack pass.
pub struct RestackState {
    /// The stack being restacked, trunk first.
    pub stack: Vec<String>,
    /// Index into `stack` of the branch to process next. Trunk itself is
    /// never rebased, so processing starts at 1.
    pub cursor: usize,
    /// The branch at the cursor hit a conflict and awaits resolution.
    pub conflicted: bool,
}

impl RestackState {
    /// The state invariant: the cursor walks positions 1 through one past the
    /// last branch, and a conflict always names a real branch.
    pub open spec fn wf(self) -> bool {
        &&& self.stack@.len() >= 1
        &&& 1 <= self.cursor as int <= self.stack@.len()
        &&& (self.conflicted ==> (self.cursor as int) < self.stack@.len())
    }

    /// Work remains and nothing is halted.
    pub open spec fn in_progress(self) -> bool {
        !self.conflicted && (self.cursor as int) < self.stack@.len()
    }

    /// Start a pass over `stack` (trunk first): the first branch above trunk
    /// is processed first.
    pub fn new(stack: Vec<String>) -> (r: RestackState)
        requires
            stack@.len() >= 1,
        ensures
            r.wf(),
            r.stack@ == stack@,
            r.cursor == 1,
            !r.conflicted,
    {
        RestackState { stack, cursor: 1, conflicted: false }
    }

    /// Rebuild a persisted pass from its recorded parts, accepting exactly
    /// the states the invariant allows: a stale or hand-edited record is
    /// refused rather than resumed.
    pub fn restore(stack: Vec<String>, cursor: usize, conflicted: bool) -> (r: Option<
        RestackState,
    >)
        ensures
            match r {
                Some(st) => st.wf() && st.stack@ == stack@ && st.cursor == cursor && st.conflicted
                    == conflicted,
                None => !(stack@.len() >= 1 && 1 <= cursor as int <= stack@.len() && (conflicted
                    ==> (cursor as int) < stack@.len())),
            },
    {
        if stack.len() >= 1 && 1 <= cursor && cursor <= stack.len() && (!conflicted || cursor
            < stack.len()) {
            Some(RestackState { stack, cursor, conflicted })
        } else {
            None
        }
    }

    /// Every branch was processed and nothing is halted.
    pub fn is_complete(&self) -> (r: bool)
        requires
            self.wf(),
        ensures
            r == (!self.conflicted && self.cursor as int == self.stack@.len()),
    {
        !self.conflicted && self.cursor == self.stack.len()
    }

    /// The branch to process next, with its parent — the pair the caller
    /// reads the base and tip of — or `None` when halted or done.
    pub fn current_work(&self) -> (r: Option<(String, String)>)
        requires
            self.wf(),
        ensures
            match r {
                Some(p) => self.in_progress() && p.0@ == self.stack@[self.cursor as int]@ && p.1@
                    == self.stack@[self.cursor as int - 1]@,
                None => !self.in_progress(),
            },
    {
        if self.conflicted || self.cursor == self.stack.len() {
            None
        } else {
            Some((self.stack[self.cursor].clone(), self.stack[self.cursor - 1].clone()))
        }
    }

    /// Decide the step for the branch at the cursor from its recorded base
    /// and its parent's current tip: rebase exactly when they differ, so a
    /// pass over an already-consistent stack rewrites nothing.
    pub fn next_action(&self, base: &String, parent_tip: &String) -> (r: RestackAction)
        requires
            self.wf(),
            self.in_progress(),
        ensures
            match r {
                RestackAction::Rebase { branch, onto } => decides_rebase(base@, parent_tip@)
                    && branch@ == self.stack@[self.cursor as int]@ && onto@ == self.stack@[self.cursor as int - 1]@,
                RestackAction::Skip { branch } => !decides_rebase(base@, parent_tip@) && branch@
                    == self.stack@[self.cursor as int]@,
            },
    {
        if *base == *parent_tip {
            RestackAction::Skip { branch: self.stack[self.cursor].clone() }
        } else {
            RestackAction::Rebase {
                branch: self.stack[self.cursor].clone(),
                onto: self.stack[self.cursor - 1].clone(),
            }
        }
    }

    /// The branch at the cursor is in place — rebased cleanly or skipped —
    /// so its freshly moved tip becomes the parent reference for the next
    /// branch up.
    pub fn advance(&mut self)
        requires
            old(self).wf(),
            old(self).in_progress(),
        ensures
            final(self).wf(),
            final(self).stack@ == old(self).stack@,
            final(self).cursor == old(self).cursor + 1,
            !final(self).conflicted,
    {
        let n = self.stack.len();
        assert(self.cursor < n);
        self.cursor = self.cursor + 1;
    }

    /// The rebase of the branch at the cursor hit conflicts: halt the pass
    /// right here, leaving every later branch untouched.
    pub fn mark_conflict(&mut self)
        requires
            old(self).wf(),
            old(self).in_progress(),
        ensures
            final(self).wf(),
            final(self).stack@ == old(self).stack@,
            final(self).cursor == old(self).cursor,
            final(self).conflicted,
    {
        self.conflicted = true;
    }

    /// The user resolved the conflict and the halted rebase was finished, so
    /// the pass continues from the next pending branch.
    pub fn resolve(&mut self)
        requires
            old(self).wf(),
            old(self).conflicted,
        ensures
            final(self).wf(),
            final(self).stack@ == old(self).stack@,
            final(self).cursor == old(self).cursor + 1,
            !final(self).conflicted,
    {
        let n = self.stack.len();
        assert(self.cursor < n);
        self.conflicted = false;
        self.cursor = self.cursor + 1;
    }

    /// The branch whose rebase is halted on a conflict, if any.
    pub fn conflicted_branch(&self) -> (r: Option<String>)
        requires
            self.wf(),
        ensures
            match r {
                Some(b) => self.conflicted && b@ == self.stack@[self.cursor as int]@,
                None => !self.conflicted,
            },
    {
        if self.conflicted {
            Some(self.stack[self.cursor].clone())
        } else {
            None
        }
    }

    /// The branches still waiting beyond the one at the cursor, in stack
    /// order.
    pub fn remaining(&self) -> (r: Vec<String>)
        requires
            self.wf(),
        ensures
            (self.cursor as int) < self.stack@.len() ==> r.deep_view() == self.stack.deep_view()
                .subrange(self.cursor as int + 1, self.stack@.len() as int),
            (self.cursor as int) == self.stack@.len() ==> r.deep_view().len() == 0,
    {
        let mut r: Vec<String> = Vec::new();
        if self.cursor == self.stack.len() {
            return r;
        }
        let mut i: usize = self.cursor + 1;
        while i < self.stack.len()
            invariant
                self.cursor as int + 1 <= i as int <= self.stack@.len(),
                r.deep_view() == self.stack.deep_view().subrange(self.cursor as int + 1, i as int),
            decreases self.stack@.len() - i,
        {
            let ghost prev = r.deep_view();
            r.push(self.stack[i].clone());
            proof {
                assert(r.deep_view() =~= prev.push(self.stack.deep_view()[i as int]));
                assert(r.deep_view() =~= self.stack.deep_view().subrange(
                    self.cursor as int + 1,
                    i + 1 as int,
                ));
            }
            i = i + 1;
        }
        r
    }
}

/// A restack pass over an already-consistent stack — every branch's recorded
/// base equal to its parent's tip — decides `Skip` at every step: no commit
/// is rewritten and no ref moves.
pub proof fn lemma_restack_consistent_noop(base: Seq<char>, parent_tip: Seq<char>)
    requires
        base == parent_tip,
    ensures
        !decides_rebase(base, parent_tip),
{
}

} // verus!
