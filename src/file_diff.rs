//! Byte-exact comparison of two files read in lock-step chunks.
use crate::file_hash::bytes_equal;
use vstd::prelude::*;

verus! {

/// Size of the chunks two files are read in when compared.
pub const CHUNK_SIZE: usize = 4096;

/// What one pair of chunks decides: `None` to read on, `Some(v)` for the verdict.
pub open spec fn chunk_verdict(a: Seq<u8>, b: Seq<u8>) -> Option<bool> {
    if a.len() != b.len() {
        Some(false)
    } else if a.len() == 0 {
        Some(true)
    } else if a != b {
        Some(false)
    } else {
        None
    }
}

/// Decides on the next chunks `a` and `b` read from the two files: lengths
/// that differ or bytes that differ end the comparison with `false`, two
/// empty reads (both files consumed together) with `true`; equal chunks ask
/// for more.
pub fn same_chunks(a: &[u8], b: &[u8]) -> (r: Option<bool>)
    ensures
        r == chunk_verdict(a@, b@),
        r == chunk_verdict(b@, a@),
{
    if a.len() != b.len() {
        Some(false)
    } else if a.len() == 0 {
        Some(true)
    } else if !bytes_equal(a, b) {
        Some(false)
    } else {
        None
    }
}

} // verus!
