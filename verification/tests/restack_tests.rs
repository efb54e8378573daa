//! Tests for the restack state machine: ordering, conflicts, resumption and
//! the no-op pass over an already-consistent stack.

use st_core::restack::{RestackAction, RestackState};

#[test]
fn restore_accepts_only_valid_records() {
    let st = RestackState::restore(stack(), 2, true).unwrap();
    assert_eq!(st.conflicted_branch(), Some(s("b")));
    // cursor past the end, a conflict at the end, or an empty stack: refused
    assert!(RestackState::restore(stack(), 5, false).is_none());
    assert!(RestackState::restore(stack(), 0, false).is_none());
    assert!(RestackState::restore(stack(), 4, true).is_none());
    assert!(RestackState::restore(Vec::new(), 1, false).is_none());
}

fn s(x: &str) -> String {
    x.to_string()
}

fn stack() -> Vec<String> {
    vec![s("trunk"), s("a"), s("b"), s("c")]
}

#[test]
fn pass_walks_branches_in_stack_order() {
    let mut st = RestackState::new(stack());
    assert_eq!(st.current_work(), Some((s("a"), s("trunk"))));
    st.advance();
    assert_eq!(st.current_work(), Some((s("b"), s("a"))));
    st.advance();
    assert_eq!(st.current_work(), Some((s("c"), s("b"))));
    st.advance();
    assert_eq!(st.current_work(), None);
    assert!(st.is_complete());
}

#[test]
fn moved_parent_tip_decides_a_rebase() {
    // trunk moved, so a's recorded base no longer matches trunk's tip
    let st = RestackState::new(stack());
    let action = st.next_action(&s("0ld7r0nk"), &s("new7r0nk"));
    assert_eq!(
        action,
        RestackAction::Rebase { branch: s("a"), onto: s("trunk") }
    );
}

#[test]
fn consistent_stack_restacks_as_a_noop() {
    // every branch already based on its parent's tip: the pass visits each
    // branch and rewrites nothing
    let mut st = RestackState::new(stack());
    let tips = [s("tip0"), s("tip1"), s("tip2")];
    for tip in &tips {
        let action = st.next_action(tip, tip);
        assert!(matches!(action, RestackAction::Skip { .. }));
        st.advance();
    }
    assert!(st.is_complete());
    assert_eq!(st.conflicted_branch(), None);
}

#[test]
fn conflict_halts_the_pass_and_records_the_rest() {
    // trunk's tip moved: a rebases cleanly, b conflicts, c is untouched
    let mut st = RestackState::new(stack());
    assert_eq!(
        st.next_action(&s("base-a"), &s("trunk-tip2")),
        RestackAction::Rebase { branch: s("a"), onto: s("trunk") }
    );
    st.advance();
    assert_eq!(
        st.next_action(&s("base-b"), &s("a-tip2")),
        RestackAction::Rebase { branch: s("b"), onto: s("a") }
    );
    st.mark_conflict();
    assert!(!st.is_complete());
    assert_eq!(st.conflicted_branch(), Some(s("b")));
    assert_eq!(st.remaining(), vec![s("c")]);
    assert_eq!(st.current_work(), None);
}

#[test]
fn resolving_a_conflict_resumes_from_the_next_branch() {
    let mut st = RestackState::new(stack());
    st.advance();
    st.mark_conflict();
    assert_eq!(st.conflicted_branch(), Some(s("b")));
    st.resolve();
    assert_eq!(st.conflicted_branch(), None);
    assert_eq!(st.current_work(), Some((s("c"), s("b"))));
    st.advance();
    assert!(st.is_complete());
}

#[test]
fn trunk_alone_is_immediately_complete() {
    let st = RestackState::new(vec![s("trunk")]);
    assert!(st.is_complete());
    assert_eq!(st.current_work(), None);
    assert_eq!(st.remaining(), Vec::<String>::new());
}
