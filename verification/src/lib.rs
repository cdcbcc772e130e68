//! Engine of a dotfiles importer: it reconciles a version-controlled
//! repository working tree with a live home directory through symlinks,
//! backs up conflicting files, and tracks every file's classification
//! (mapped, suggested, differing) across synchronization passes.
//!
//! The engine works on an explicit model of the two directory trees
//! (`fs::Fs`): a flat collection of files and symlinks keyed by absolute
//! path. Every decision — what to visit, link, back up, restore or
//! reclassify — is made and proved here; the surrounding daemon applies
//! the resulting actions to the real filesystem and feeds observations
//! back in.

pub mod backup;
pub mod cli;
pub mod fs;
pub mod handlers;
pub mod link;
pub mod paths;
pub mod pattern;
pub mod protocol;
pub mod setup;
pub mod state;
pub mod sync;
pub mod util;
pub mod walker;

use vstd::prelude::*;

verus! {

/// Fixed size of a framed request or response on the daemon's socket.
pub const BUFFER_SIZE: usize = 10000;

} // verus!
