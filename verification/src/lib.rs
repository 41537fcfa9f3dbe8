//! Low-level git plumbing with verified cores: a reflog reader that walks a
//! log file forward or backward through a bounded window, an index-to-worktree
//! checkout engine modelled against an explicit filesystem, and the
//! request/response bookkeeping of a smart-HTTP remote worker.

use vstd::prelude::*;

pub mod checkout;
pub mod http;
pub mod reflog;

verus! {

/// The classes of I/O failure that the engines in this crate distinguish.
/// They mirror the host's error kinds as far as the logic reads them.
#[derive(Clone, Copy, Debug, PartialEq, Eq, Structural)]
pub enum IoErrorKind {
    NotFound,
    PermissionDenied,
    AlreadyExists,
    ConnectionAborted,
    Other,
}

} // verus!
