//! A recursive file enumerator, written as a verified state machine.
//!
//! The engine keeps two stacks of pending paths (directories still to be
//! expanded and files still to be handed out) and a log of paths it could not
//! process. It performs no I/O: whoever drives it probes paths and lists
//! directories, then hands the outcomes back as plain values.
use vstd::prelude::*;

pub mod explorer;
pub mod completeness;
pub mod runs;
pub mod policy;

verus! {

/// Views a sequence of owned strings as the sequence of their characters.
pub open spec fn paths_of(v: Seq<String>) -> Seq<Seq<char>> {
    v.map_values(|s: String| s@)
}

} // verus!
