//! An order-inverting, self-framing byte transform.
//!
//! `map` turns a byte string into a framed byte string whose lexicographic
//! order is the reverse of the input's; `unmap` recovers the input and reports
//! malformed frames precisely.
use vstd::prelude::*;

pub mod arith;
pub mod codec;
pub mod laws;

pub use crate::codec::Error;
use crate::arith::encoded_len;
use crate::codec::mapped;
use crate::codec::unmapped;

verus! {

/// Maps `bytes` with the default group size of 8.
pub fn map(bytes: &[u8]) -> (r: Vec<u8>)
    requires
        encoded_len(bytes@.len() as int, 8) <= usize::MAX,
    ensures
        r@ == mapped(bytes@, 8),
        r@.len() == encoded_len(bytes@.len() as int, 8),
{
    codec::map::<8>(bytes)
}

/// Unmaps `bytes` with the default group size of 8.
pub fn unmap(bytes: &[u8]) -> (r: Result<Vec<u8>, Error>)
    ensures
        match r {
            Ok(v) => unmapped(bytes@, 8) == Ok::<Seq<u8>, Error>(v@),
            Err(e) => unmapped(bytes@, 8) == Err::<Seq<u8>, Error>(e),
        },
{
    codec::unmap::<8>(bytes)
}

} // verus!
