use vstd::prelude::*;

verus! {

use std::collections::HashMap;

use crate::BLOCK_SIZE;
use crate::buffer::AlignedSlice;
use crate::device::{PersistentDevice, WalError};
use crate::framing::zero_seq;
use crate::position::WalPosition;
use vstd::assert_maps_equal;
use vstd::assert_seqs_equal;
use vstd::map::*;

broadcast use vstd::std_specs::hash::group_hash_axioms;

/// An in-memory reference device: writes are stored in a map keyed by their
/// starting block offset, and writes submitted with `notify` complete
/// immediately at the next drain.
pub struct MemDevice {
    buffer: HashMap<u32, Vec<u8>>,
    completions: Vec<WalPosition>,
    capacity_blocks: u32,
}

impl MemDevice {
    /// A fresh empty device of the given capacity in blocks.
    pub fn new(capacity_blocks: u32) -> (r: Self)
        ensures
            r.blocks() == Map::<u32, Seq<u8>>::empty(),
            r.pending() == Seq::<WalPosition>::empty(),
            forall|s: u32, b: u32|
                r.accepts(s, b) <==> s as int + b as int <= capacity_blocks as int,
    {
        let r = MemDevice {
            buffer: HashMap::new(),
            completions: Vec::new(),
            capacity_blocks,
        };
        proof {
            assert_maps_equal!(r.blocks(), Map::<u32, Seq<u8>>::empty());
        }
        r
    }
}

impl PersistentDevice for MemDevice {
    closed spec fn blocks(&self) -> Map<u32, Seq<u8>> {
        self.buffer@.map_values(|v: Vec<u8>| v@)
    }

    closed spec fn pending(&self) -> Seq<WalPosition> {
        self.completions@
    }

    closed spec fn accepts(&self, start_block: u32, num_blocks: u32) -> bool {
        start_block as int + num_blocks as int <= self.capacity_blocks as int
    }

    closed spec fn read_ok(&self, block: u32, len: nat) -> bool {
        self.blocks().contains_key(block) ==> len <= self.blocks()[block].len()
    }

    fn write(&mut self, pos: WalPosition, data: AlignedSlice, notify: bool) -> (r: Result<
        (),
        WalError,
    >) {
        let nb = data.blocks();
        if pos.offset as u64 + nb as u64 > self.capacity_blocks as u64 {
            return Err(WalError::InvalidArgument);
        }
        let ghost pre = self.buffer@;
        let ghost bytes = data@;
        let stored = data.into_vec();
        self.buffer.insert(pos.offset, stored);
        proof {
            assert_maps_equal!(
                self.buffer@.map_values(|v: Vec<u8>| v@),
                pre.map_values(|v: Vec<u8>| v@).insert(pos.offset, bytes)
            );
        }
        if notify {
            self.completions.push(pos);
        }
        Ok(())
    }

    fn process_completions(&mut self) -> (r: Vec<WalPosition>) {
        let mut out: Vec<WalPosition> = Vec::new();
        let n = self.completions.len();
        let mut i: usize = 0;
        while i < n
            invariant
                i <= n,
                n == self.completions@.len(),
                self.completions@ == old(self).completions@,
                self.buffer@ == old(self).buffer@,
                out@ == self.completions@.subrange(0, i as int),
            decreases n - i,
        {
            out.push(self.completions[i]);
            proof {
                assert_seqs_equal!(out@ == self.completions@.subrange(0, i + 1));
            }
            i = i + 1;
        }
        self.completions.clear();
        proof {
            assert_seqs_equal!(out@ == old(self).completions@);
        }
        out
    }

    fn read(&self, pos: u64, len: usize) -> (r: Result<Vec<u8>, WalError>) {
        let block = (pos / BLOCK_SIZE as u64) as u32;
        match self.buffer.get(&block) {
            Some(data) => {
                if len > data.len() {
                    Err(WalError::InvalidArgument)
                } else {
                    let mut v: Vec<u8> = Vec::new();
                    let mut i: usize = 0;
                    while i < len
                        invariant
                            i <= len,
                            len <= data@.len(),
                            v@ == data@.subrange(0, i as int),
                        decreases len - i,
                    {
                        v.push(data[i]);
                        proof {
                            assert_seqs_equal!(v@ == data@.subrange(0, i + 1));
                        }
                        i = i + 1;
                    }
                    Ok(v)
                }
            },
            None => {
                let v = vec![0u8; len];
                proof {
                    assert_seqs_equal!(v@ == zero_seq(len as nat));
                }
                Ok(v)
            },
        }
    }
}

} // verus!
