//! File identities.
//!
//! Every on-disk table and WAL file is named by a 128-bit ULID, so ids
//! sort lexicographically by creation time. The library holds the id as
//! its raw 128-bit value.

use vstd::prelude::*;

verus! {

/// Identity of one on-disk file: the raw value of a ULID.
pub type FileId = u128;

/// Relies on ulid::Ulid::generate for a fresh file id drawn from the
/// clock and randomness; nothing can be promised of the value.
#[verifier::external_body]
pub(crate) fn generate_file_id() -> u128 {
    ulid::Ulid::generate().0
}

} // verus!
