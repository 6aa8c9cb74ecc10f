//! Worktree workspace engine: repository-handle modelling, layered
//! configuration, and deterministic workspace-path derivation.

pub mod codec;
pub mod config;
pub mod digest;
pub mod git;
pub mod text;

use vstd::prelude::*;

verus! {

/// True when `c` is one of the ASCII whitespace characters this library
/// trims from the ends of strings: space, tab, line feed, carriage
/// return.
pub open spec fn is_space(c: char) -> bool {
    c as u32 == 32 || c as u32 == 9 || c as u32 == 10 || c as u32 == 13
}

} // verus!
