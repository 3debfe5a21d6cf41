//! Failures of a remote call.

use vstd::prelude::*;

verus! {

/// Why a remote call failed.
#[derive(Debug, Clone, Copy, PartialEq, Eq, Structural)]
pub enum NetworkError {
    Connection,
    Timeout,
    Write,
    Read,
    WrongRPC,
    Send,
}

} // verus!
