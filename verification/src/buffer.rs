use vstd::prelude::*;

verus! {

use crate::BLOCK_SIZE;

/// A heap buffer whose length is a whole number of blocks. Writes handed to a
/// device are framed in such buffers so that every submission starts at a
/// block boundary and covers whole blocks.
pub struct AlignedSlice {
    data: Vec<u8>,
    blocks: u32,
}

impl View for AlignedSlice {
    type V = Seq<u8>;

    closed spec fn view(&self) -> Seq<u8> {
        self.data@
    }
}

impl AlignedSlice {
    #[verifier::type_invariant]
    spec fn type_inv(self) -> bool {
        self.data@.len() == self.blocks * BLOCK_SIZE
    }

    /// Round `raw_size` up to whole blocks and allocate that many zeroed bytes.
    pub fn new(raw_size: usize) -> (r: Self)
        requires
            raw_size <= 0xffff_ffff * 0x1000,
            raw_size + BLOCK_SIZE <= usize::MAX,
        ensures
            r@.len() == ((raw_size + BLOCK_SIZE - 1) / (BLOCK_SIZE as int)) * BLOCK_SIZE,
            forall|i: int| 0 <= i < r@.len() ==> r@[i] == 0u8,
    {
        proof {
            vstd::arithmetic::div_mod::lemma_div_is_ordered(
                (raw_size + (BLOCK_SIZE - 1)) as int,
                (0xffff_ffff * 0x1000 + 0xfff) as int,
                BLOCK_SIZE as int,
            );
            vstd::arithmetic::div_mod::lemma_fundamental_div_mod(
                (raw_size + (BLOCK_SIZE - 1)) as int,
                BLOCK_SIZE as int,
            );
            vstd::arithmetic::div_mod::lemma_mod_bound(
                (raw_size + (BLOCK_SIZE - 1)) as int,
                BLOCK_SIZE as int,
            );
        }
        let blocks_wide: usize = (raw_size + (BLOCK_SIZE as usize - 1)) / BLOCK_SIZE as usize;
        let blocks: u32 = blocks_wide as u32;
        let total: usize = blocks_wide * BLOCK_SIZE as usize;
        let data: Vec<u8> = vec![0u8; total];
        AlignedSlice { data, blocks }
    }

    /// Wrap an already block-multiple byte vector.
    pub fn from_vec(data: Vec<u8>) -> (r: Self)
        requires
            data@.len() as int % (BLOCK_SIZE as int) == 0,
            data@.len() <= 0xffff_ffff * 0x1000,
        ensures
            r@ == data@,
    {
        proof {
            vstd::arithmetic::div_mod::lemma_fundamental_div_mod(
                data@.len() as int,
                BLOCK_SIZE as int,
            );
            vstd::arithmetic::div_mod::lemma_div_is_ordered(
                data@.len() as int,
                (0xffff_ffff * 0x1000) as int,
                BLOCK_SIZE as int,
            );
        }
        let blocks: u32 = (data.len() / BLOCK_SIZE as usize) as u32;
        AlignedSlice { data, blocks }
    }

    /// Number of blocks the buffer spans.
    pub fn blocks(&self) -> (r: u32)
        ensures
            r * BLOCK_SIZE == self@.len(),
    {
        proof {
            use_type_invariant(self);
        }
        self.blocks
    }

    /// Size of the buffer in bytes.
    pub fn size(&self) -> (r: u32)
        requires
            self@.len() <= u32::MAX,
        ensures
            r == self@.len(),
    {
        self.data.len() as u32
    }

    /// The buffer's bytes, read-only.
    pub fn as_slice(&self) -> (r: &[u8])
        ensures
            r@ == self@,
    {
        self.data.as_slice()
    }

    /// Give up the buffer as a plain byte vector.
    pub fn into_vec(self) -> (r: Vec<u8>)
        ensures
            r@ == self@,
    {
        self.data
    }
}

} // verus!
