//! Fixed-width binary encodings of values.
use vstd::prelude::*;

use crate::error::Error;

verus! {

/// A value with a fixed-width binary encoding that can be written into a buffer.
pub trait Serialize {
    /// The bytes that encode this value.
    spec fn encoding(&self) -> Seq<u8>;

    /// Writes the encoding of this value into `buf`. The length of `buf` must
    /// be exactly the length of the encoding; otherwise nothing is written and
    /// `InvalidSliceLength` is returned.
    fn serialize(&self, buf: &mut [u8]) -> (r: Result<(), Error>)
        ensures
            r is Ok <==> old(buf)@.len() == self.encoding().len(),
            r is Ok ==> final(buf)@ == self.encoding(),
            r is Err ==> r == Err::<(), Error>(Error::InvalidSliceLength) && final(buf)@ == old(
                buf,
            )@,
    ;
}

/// A value that can be read back from its fixed-width binary encoding.
pub trait Deserialize: Sized {
    /// Whether `bytes` have the shape of an encoding.
    spec fn decodable(bytes: Seq<u8>) -> bool;

    /// Whether `bytes` encode `value`.
    spec fn decodes(bytes: Seq<u8>, value: Self) -> bool;

    /// Reads a value from its encoding in `buf`; fails with
    /// `InvalidSliceLength` when `buf` has the wrong length.
    fn deserialize(buf: &[u8]) -> (r: Result<Self, Error>)
        ensures
            r is Ok <==> Self::decodable(buf@),
            r matches Ok(v) ==> Self::decodes(buf@, v),
            r is Err ==> r == Err::<Self, Error>(Error::InvalidSliceLength),
    ;
}

/// Copies `src` into `dst`, which has the same length.
pub(crate) fn copy_into(dst: &mut [u8], src: &[u8])
    requires
        old(dst)@.len() == src@.len(),
    ensures
        final(dst)@ == src@,
{
    let n: usize = src.len();
    let mut i: usize = 0;
    while i < n
        invariant
            i <= n,
            n == src@.len(),
            dst@.len() == n,
            forall|k: int| 0 <= k < i ==> dst@[k] == src@[k],
        decreases n - i,
    {
        dst[i] = src[i];
        i += 1;
    }
    assert(dst@ =~= src@);
}

} // verus!
