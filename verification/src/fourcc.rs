//! Four-byte identifiers.

use vstd::prelude::*;

use crate::bytes::bytes_equal;

verus! {

/// The four bytes of a chunk, form or format identifier.
pub type FourCc = [u8; 4];

/// Whether bytes are the given identifier.
pub(crate) fn is_id(bytes: &[u8], id: &FourCc) -> (same: bool)
    ensures
        same == (bytes@ == id@),
{
    bytes_equal(bytes, id.as_slice())
}

} // verus!
