//! Compares any number of directory trees by structure and metadata and
//! reports, per relative path, how the trees' entries differ.
use vstd::prelude::*;

pub mod entry;
pub mod path;
pub mod diff;
pub mod laws;

verus! {

} // verus!
