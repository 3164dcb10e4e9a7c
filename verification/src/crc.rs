use vstd::prelude::*;

verus! {

/// The IEEE CRC-32 digest of a byte sequence. The digest is a pure function
/// of the bytes; its value on given bytes is not specified here, only used
/// to relate the checksum stored in an entry to the bytes it covers.
pub uninterp spec fn crc32_of(bytes: Seq<u8>) -> u32;

/// Relies on crc32fast::hash: computes the IEEE CRC-32 of `v[start..end]`,
/// a deterministic function of those bytes alone.
#[verifier::external_body]
pub(crate) fn crc32_range(v: &Vec<u8>, start: usize, end: usize) -> (r: u32)
    requires
        start <= end <= v@.len(),
    ensures
        r == crc32_of(v@.subrange(start as int, end as int)),
{
    crc32fast::hash(&v[start..end])
}

} // verus!
