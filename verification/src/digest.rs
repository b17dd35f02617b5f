use vstd::prelude::*;

verus! {

/// The BLAKE3 digest of a byte string, in its default 32-byte form.
pub uninterp spec fn blake3_digest(data: Seq<u8>) -> Seq<u8>;

/// Calls `blake3::hash` and copies its 32 output bytes (`Hash::as_bytes`).
/// Trusted: the result is the BLAKE3 digest of `data`, a function of the
/// input bytes alone, and is `blake3::OUT_LEN` = 32 bytes long.
#[verifier::external_body]
pub(crate) fn digest(data: &Vec<u8>) -> (out: Vec<u8>)
    ensures
        out@ == blake3_digest(data@),
        out@.len() == 32,
{
    blake3::hash(data.as_slice()).as_bytes().to_vec()
}

} // verus!
