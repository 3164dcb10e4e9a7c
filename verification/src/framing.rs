use vstd::prelude::*;

verus! {

use crate::BLOCK_SIZE;
use crate::buffer::AlignedSlice;
use crate::crc::{crc32_of, crc32_range};
use vstd::assert_seqs_equal;
use vstd::pervasive::VecAdditionalExecFns;

/// Size in bytes of the fixed entry header: crc, rollover and payload length,
/// each a little-endian u32.
pub const HEADER_SIZE: usize = 12;

/// The fixed header stored at the first bytes of an entry's first block.
#[derive(Debug, Copy, Clone, PartialEq, Eq, Structural)]
pub struct EntryHeader {
    /// CRC-32 of the entry from byte 4 through the end of the payload.
    pub crc: u32,
    /// The rollover counter under which the entry was written.
    pub rollover: u32,
    /// Payload length in bytes, not counting the header.
    pub len: u32,
}

/// The little-endian bytes of a 32-bit integer.
pub open spec fn spec_u32_le(x: u32) -> Seq<u8> {
    seq![
        (x & 0xff) as u8,
        ((x >> 8) & 0xff) as u8,
        ((x >> 16) & 0xff) as u8,
        ((x >> 24) & 0xff) as u8,
    ]
}

/// The 32-bit integer stored in the first four bytes of `s`, little-endian.
pub open spec fn spec_u32_from_le(s: Seq<u8>) -> u32 {
    (s[0] as u32) | (s[1] as u32) << 8u32 | (s[2] as u32) << 16u32 | (s[3] as u32) << 24u32
}

/// Writing an integer and reading it back yields the integer.
pub proof fn lemma_u32_le_round_trip(x: u32)
    ensures
        spec_u32_le(x).len() == 4,
        spec_u32_from_le(spec_u32_le(x)) == x,
{
    assert((x & 0xff) as u8 as u32 | (((x >> 8) & 0xff) as u8 as u32) << 8u32 | (((x >> 16)
        & 0xff) as u8 as u32) << 16u32 | (((x >> 24) & 0xff) as u8 as u32) << 24u32 == x)
        by (bit_vector);
}

/// Four zero bytes read back as zero.
pub proof fn lemma_u32_from_le_zero(s: Seq<u8>)
    requires
        s.len() >= 4,
        forall|i: int| 0 <= i < 4 ==> s[i] == 0,
    ensures
        spec_u32_from_le(s) == 0,
{
    assert(0u8 as u32 | (0u8 as u32) << 8u32 | (0u8 as u32) << 16u32 | (0u8 as u32) << 24u32 == 0)
        by (bit_vector);
}

/// Number of blocks an entry with a payload of `len` bytes occupies.
pub open spec fn spec_num_blocks(len: nat) -> nat {
    (((HEADER_SIZE + len) as int + (BLOCK_SIZE as int - 1)) / (BLOCK_SIZE as int)) as nat
}

/// A sequence of `n` zero bytes.
pub open spec fn zero_seq(n: nat) -> Seq<u8> {
    Seq::new(n, |i: int| 0u8)
}

/// The bytes of an entry that its CRC covers: rollover, length and payload.
pub open spec fn covered_bytes(p: Seq<u8>, rollover: u32) -> Seq<u8> {
    spec_u32_le(rollover) + spec_u32_le(p.len() as u32) + p
}

/// The full on-device bytes of an entry: header with the computed CRC,
/// payload, and zero padding to the end of the last block.
pub open spec fn spec_encode(p: Seq<u8>, rollover: u32) -> Seq<u8> {
    let covered = covered_bytes(p, rollover);
    spec_u32_le(crc32_of(covered)) + covered + zero_seq(
        (spec_num_blocks(p.len()) * BLOCK_SIZE - (HEADER_SIZE + p.len())) as nat,
    )
}

/// The header read back from the first bytes of an entry.
pub open spec fn spec_parse_header(s: Seq<u8>) -> EntryHeader {
    EntryHeader {
        crc: spec_u32_from_le(s.subrange(0, 4)),
        rollover: spec_u32_from_le(s.subrange(4, 8)),
        len: spec_u32_from_le(s.subrange(8, 12)),
    }
}

/// An all-zero byte view parses to the all-zero header.
pub proof fn lemma_parse_header_zero(s: Seq<u8>)
    requires
        s.len() >= HEADER_SIZE,
        forall|i: int| 0 <= i < HEADER_SIZE ==> s[i] == 0,
    ensures
        spec_parse_header(s) == (EntryHeader { crc: 0, rollover: 0, len: 0 }),
{
    lemma_u32_from_le_zero(s.subrange(0, 4));
    lemma_u32_from_le_zero(s.subrange(4, 8));
    lemma_u32_from_le_zero(s.subrange(8, 12));
}

/// Whether `s` holds a valid entry at its start: a positive length that fits
/// in `s`, and a stored CRC that matches the bytes it covers.
pub open spec fn valid_entry_bytes(s: Seq<u8>) -> bool {
    let h = spec_parse_header(s);
    &&& s.len() >= HEADER_SIZE
    &&& h.len > 0
    &&& HEADER_SIZE + h.len <= s.len()
    &&& crc32_of(s.subrange(4, HEADER_SIZE + h.len as int)) == h.crc
}

/// Bounds of the block count of an entry: the blocks hold the header and
/// payload, with less than one block of padding.
pub proof fn lemma_num_blocks_bounds(len: nat)
    ensures
        spec_num_blocks(len) * BLOCK_SIZE >= HEADER_SIZE + len,
        spec_num_blocks(len) * BLOCK_SIZE < HEADER_SIZE + len + BLOCK_SIZE,
        spec_num_blocks(len) >= 1,
{
    let a = (HEADER_SIZE + len + (BLOCK_SIZE - 1) as nat) as int;
    let b = BLOCK_SIZE as int;
    vstd::arithmetic::div_mod::lemma_fundamental_div_mod(a, b);
    assert(0 <= a % b < b) by {
        vstd::arithmetic::div_mod::lemma_mod_bound(a, b);
    };
}

impl EntryHeader {
    /// How many blocks are required to store the full entry.
    pub fn num_blocks(&self) -> (r: u32)
        ensures
            r == spec_num_blocks(self.len as nat),
    {
        proof {
            lemma_num_blocks_bounds(self.len as nat);
        }
        ((HEADER_SIZE as u64 + self.len as u64 + (BLOCK_SIZE as u64 - 1)) / BLOCK_SIZE as u64) as u32
    }
}

/// Read one little-endian u32 at byte offset `at`.
fn get_u32_le(v: &Vec<u8>, at: usize) -> (x: u32)
    requires
        at + 4 <= v@.len(),
    ensures
        x == spec_u32_from_le(v@.subrange(at as int, at as int + 4)),
{
    // a vector's length fits usize, so the later index sums cannot overflow
    let _n: usize = v.len();
    let b0 = v[at];
    let b1 = v[at + 1];
    let b2 = v[at + 2];
    let b3 = v[at + 3];
    b0 as u32 | (b1 as u32) << 8u32 | (b2 as u32) << 16u32 | (b3 as u32) << 24u32
}

/// Overwrite four bytes at `at` with the little-endian form of `x`.
fn put_u32_le(v: &mut Vec<u8>, at: usize, x: u32)
    requires
        at + 4 <= old(v)@.len(),
    ensures
        final(v)@.len() == old(v)@.len(),
        final(v)@.subrange(at as int, at as int + 4) == spec_u32_le(x),
        forall|i: int|
            0 <= i < old(v)@.len() && !(at <= i < at + 4) ==> final(v)@[i] == old(v)@[i],
{
    proof {
        assert(x & 0xff < 256 && (x >> 8u32) & 0xff < 256 && (x >> 16u32) & 0xff < 256 && (x
            >> 24u32) & 0xff < 256) by (bit_vector);
    }
    // a vector's length fits usize, so the later index sums cannot overflow
    let _n: usize = v.len();
    v.set(at, (x & 0xff) as u8);
    v.set(at + 1, ((x >> 8u32) & 0xff) as u8);
    v.set(at + 2, ((x >> 16u32) & 0xff) as u8);
    v.set(at + 3, ((x >> 24u32) & 0xff) as u8);
    proof {
        assert_seqs_equal!(v@.subrange(at as int, at as int + 4) == spec_u32_le(x));
    }
}

/// Read the fixed header from the first bytes of a buffer.
pub fn decode_header(v: &Vec<u8>) -> (r: EntryHeader)
    requires
        v@.len() >= HEADER_SIZE,
    ensures
        r == spec_parse_header(v@),
{
    let crc = get_u32_le(v, 0);
    let rollover = get_u32_le(v, 4);
    let len = get_u32_le(v, 8);
    EntryHeader { crc, rollover, len }
}

/// Frame a payload as an on-device entry: header, payload, zero padding to a
/// whole number of blocks, with the CRC computed over bytes 4 onward.
pub fn encode(payload: &[u8], rollover: u32) -> (r: AlignedSlice)
    requires
        payload@.len() <= u32::MAX,
        payload@.len() + HEADER_SIZE + BLOCK_SIZE <= usize::MAX,
    ensures
        r@ == spec_encode(payload@, rollover),
        r@.len() == spec_num_blocks(payload@.len()) * BLOCK_SIZE,
{
    proof {
        lemma_num_blocks_bounds(payload@.len());
    }
    let plen: usize = payload.len();
    let nb: usize = (HEADER_SIZE + plen + (BLOCK_SIZE as usize - 1)) / BLOCK_SIZE as usize;
    let total: usize = nb * BLOCK_SIZE as usize;

    let mut v: Vec<u8> = vec![0u8; HEADER_SIZE];
    v.extend_from_slice(payload);
    while v.len() < total
        invariant
            HEADER_SIZE + plen <= v@.len() <= total,
            total == spec_num_blocks(payload@.len()) * BLOCK_SIZE,
            plen == payload@.len(),
            v@.subrange(HEADER_SIZE as int, HEADER_SIZE + plen as int) == payload@,
            forall|i: int| 0 <= i < HEADER_SIZE ==> v@[i] == 0,
            forall|i: int| HEADER_SIZE + plen <= i < v@.len() ==> v@[i] == 0,
        decreases total - v@.len(),
    {
        v.push(0u8);
        proof {
            assert_seqs_equal!(v@.subrange(HEADER_SIZE as int, HEADER_SIZE + plen as int)
                == payload@);
        }
    }

    put_u32_le(&mut v, 4, rollover);
    put_u32_le(&mut v, 8, plen as u32);
    proof {
        assert_seqs_equal!(v@.subrange(4, HEADER_SIZE + plen as int)
            == covered_bytes(payload@, rollover));
    }
    let crc = crc32_range(&v, 4, HEADER_SIZE + plen);
    put_u32_le(&mut v, 0, crc);
    proof {
        assert_seqs_equal!(v@ == spec_encode(payload@, rollover));
        assert((spec_num_blocks(payload@.len()) * BLOCK_SIZE) % (BLOCK_SIZE as int) == 0) by {
            vstd::arithmetic::div_mod::lemma_mod_multiples_basic(
                spec_num_blocks(payload@.len()) as int,
                BLOCK_SIZE as int,
            );
        };
    }
    AlignedSlice::from_vec(v)
}

} // verus!
