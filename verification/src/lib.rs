//! Recursive directory traversal with depth control, symlink loop
//! detection, ordering, hidden-entry skipping, filtering and pagination.
//!
//! This crate holds every decision a walk makes. [`walk::Traversal`] is the
//! walk itself: it asks its driver for each piece of filesystem work through
//! a [`walk::Action`] and decides, from the answers, what is yielded and what
//! is descended into. [`order`] orders the entries of one directory,
//! [`pager`] cuts a walk to `skip(offset).take(limit)`, and [`slots`] keeps
//! concurrently resolved results in directory order. [`preorder`] states
//! what a whole walk yields: the depth-first pre-order of the tree, pruned
//! by the options.
pub mod entry;
pub mod error;
pub mod exact;
pub mod footprint;
pub mod options;
pub mod order;
pub mod pager;
pub mod preorder;
pub mod reach;
pub mod slots;
pub mod text;
pub mod walk;

pub use entry::{Ancestor, Async, Blocking, Candidate, Filtering, Node, Platform};
pub use error::{Error, ErrorKind};
pub use options::{AsyncOptions, WalkDirOptions};
pub use walk::{Action, Awaiting, Traversal};

use vstd::prelude::*;

verus! {

/// Type alias for results that may contain a traversal [`Error`].
pub type Result<T, E = Error> = std::result::Result<T, E>;

} // verus!
