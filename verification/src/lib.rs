//! Synchronizes per-exposure film metadata with scanned photo files.
//!
//! The pipeline has three stages: discover and order candidate photo files,
//! parse and validate an ordered table of exposure records, and pair each
//! file with its record to plan the invocations of the external tagging
//! utility.  Discovery ordering and positional pairing are the load-bearing
//! invariants: files are matched to exposure rows purely by position.

use vstd::prelude::*;

pub mod get_photos;
pub mod numbers;
pub mod read_metadata;
pub mod text;
pub mod update_exif_metadata;

verus! {

} // verus!
