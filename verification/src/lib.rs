//! Core engine for managing stacks of dependent git branches.
//!
//! A *stack* is an ordered chain of branches rooted at the trunk branch, each
//! branch carrying changes that build on the branch below it. This crate holds
//! the verified heart of that workflow:
//!
//! - [`graph::StackGraph`]: the persisted child-to-parent link store, whose
//!   mutations (`set_parent`, `remove`, `track`, `untrack`, `delete`) keep the
//!   links a forest rooted at trunk — no cycles, ever;
//! - [`discover`]: reconstruction of the full ordered stack from any branch in it;
//! - [`navigate`]: the `top` / `bottom` / `up` / `down` commands, resolved to a
//!   checkout target or an informational no-op;
//! - [`restack`]: the resumable state machine that rebases every branch of a
//!   stack onto its (possibly moved) parent, halting cleanly on conflicts.
//!
//! Everything that touches a real repository — reading refs, rebasing,
//! checking branches out — is a collaborator outside this crate: callers hand
//! in plain values (branch names, commit identifiers) and perform the actions
//! these functions decide on.

pub mod discover;
pub mod errors;
pub mod graph;
pub mod navigate;
pub mod restack;
