use vstd::prelude::*;

verus! {

use crate::BLOCK_SIZE;
use crate::buffer::AlignedSlice;
use crate::device::{PersistentDevice, WalError};
use crate::framing::zero_seq;
use crate::position::WalPosition;
use vstd::assert_seqs_equal;

/// The writes of a history, keyed by the block offset each one starts at;
/// later writes override earlier ones.
pub open spec fn offset_map(s: Seq<(WalPosition, Vec<u8>)>) -> Map<u32, Seq<u8>>
    decreases s.len(),
{
    if s.len() == 0 {
        Map::empty()
    } else {
        offset_map(s.drop_last()).insert(s.last().0.offset, s.last().1@)
    }
}

/// The writes of a history, keyed by the full position each one was
/// submitted at; later writes override earlier ones.
pub open spec fn position_map(s: Seq<(WalPosition, Vec<u8>)>) -> Map<WalPosition, Seq<u8>>
    decreases s.len(),
{
    if s.len() == 0 {
        Map::empty()
    } else {
        position_map(s.drop_last()).insert(s.last().0, s.last().1@)
    }
}

/// An in-memory device that keeps every write, retrievable by the exact
/// position it was submitted at: a recording double for tests.
pub struct MemBufferDevice {
    buffer: Vec<(WalPosition, Vec<u8>)>,
    completions: Vec<WalPosition>,
}

impl MemBufferDevice {
    /// A fresh empty device.
    pub fn new() -> (r: Self)
        ensures
            r.blocks() == Map::<u32, Seq<u8>>::empty(),
            r.position_view() == Map::<WalPosition, Seq<u8>>::empty(),
            r.pending() == Seq::<WalPosition>::empty(),
    {
        MemBufferDevice { buffer: Vec::new(), completions: Vec::new() }
    }

    /// What was written, by the exact position of each write.
    pub closed spec fn position_view(&self) -> Map<WalPosition, Seq<u8>> {
        position_map(self.buffer@)
    }

    /// The bytes of the write submitted at exactly `pos`, if any.
    pub fn get(&self, pos: WalPosition) -> (r: Option<&Vec<u8>>)
        ensures
            match r {
                Some(v) => self.position_view().contains_key(pos) && v@
                    == self.position_view()[pos],
                None => !self.position_view().contains_key(pos),
            },
    {
        let mut i: usize = self.buffer.len();
        proof {
            assert_seqs_equal!(self.buffer@.subrange(0, self.buffer@.len() as int)
                == self.buffer@);
        }
        while i > 0
            invariant
                i <= self.buffer@.len(),
                position_map(self.buffer@.subrange(0, i as int)).contains_key(pos)
                    == self.position_view().contains_key(pos),
                position_map(self.buffer@.subrange(0, i as int)).contains_key(pos)
                    ==> position_map(self.buffer@.subrange(0, i as int))[pos]
                    == self.position_view()[pos],
            decreases i,
        {
            i = i - 1;
            proof {
                assert_seqs_equal!(self.buffer@.subrange(0, i + 1).drop_last()
                    == self.buffer@.subrange(0, i as int));
                assert(self.buffer@.subrange(0, i + 1).last() == self.buffer@[i as int]);
            }
            if self.buffer[i].0 == pos {
                return Some(&self.buffer[i].1);
            }
        }
        proof {
            assert_seqs_equal!(self.buffer@.subrange(0, 0)
                == Seq::<(WalPosition, Vec<u8>)>::empty());
        }
        None
    }
}

impl PersistentDevice for MemBufferDevice {
    closed spec fn blocks(&self) -> Map<u32, Seq<u8>> {
        offset_map(self.buffer@)
    }

    closed spec fn pending(&self) -> Seq<WalPosition> {
        self.completions@
    }

    closed spec fn accepts(&self, start_block: u32, num_blocks: u32) -> bool {
        true
    }

    closed spec fn read_ok(&self, block: u32, len: nat) -> bool {
        self.blocks().contains_key(block) ==> len <= self.blocks()[block].len()
    }

    fn write(&mut self, pos: WalPosition, data: AlignedSlice, notify: bool) -> (r: Result<
        (),
        WalError,
    >) {
        let ghost pre = self.buffer@;
        let bytes = data.into_vec();
        self.buffer.push((pos, bytes));
        proof {
            assert_seqs_equal!(self.buffer@.drop_last() == pre);
        }
        if notify {
            self.completions.push(pos);
        }
        Ok(())
    }

    fn process_completions(&mut self) -> (r: Vec<WalPosition>) {
        let mut out: Vec<WalPosition> = Vec::new();
        let n = self.completions.len();
        let mut i: usize = 0;
        while i < n
            invariant
                i <= n,
                n == self.completions@.len(),
                self.completions@ == old(self).completions@,
                self.buffer@ == old(self).buffer@,
                out@ == self.completions@.subrange(0, i as int),
            decreases n - i,
        {
            out.push(self.completions[i]);
            proof {
                assert_seqs_equal!(out@ == self.completions@.subrange(0, i + 1));
            }
            i = i + 1;
        }
        self.completions.clear();
        proof {
            assert_seqs_equal!(out@ == old(self).completions@);
        }
        out
    }

    fn read(&self, pos: u64, len: usize) -> (r: Result<Vec<u8>, WalError>) {
        let block = (pos / BLOCK_SIZE as u64) as u32;
        let mut i: usize = self.buffer.len();
        proof {
            assert_seqs_equal!(self.buffer@.subrange(0, self.buffer@.len() as int)
                == self.buffer@);
        }
        while i > 0
            invariant
                i <= self.buffer@.len(),
                block == (pos / BLOCK_SIZE as u64) as u32,
                offset_map(self.buffer@.subrange(0, i as int)).contains_key(block)
                    == self.blocks().contains_key(block),
                offset_map(self.buffer@.subrange(0, i as int)).contains_key(block)
                    ==> offset_map(self.buffer@.subrange(0, i as int))[block]
                    == self.blocks()[block],
            decreases i,
        {
            i = i - 1;
            proof {
                assert_seqs_equal!(self.buffer@.subrange(0, i + 1).drop_last()
                    == self.buffer@.subrange(0, i as int));
                assert(self.buffer@.subrange(0, i + 1).last() == self.buffer@[i as int]);
            }
            if self.buffer[i].0.offset == block {
                let data = &self.buffer[i].1;
                proof {
                    assert(offset_map(self.buffer@.subrange(0, i + 1)).contains_key(block));
                    assert(offset_map(self.buffer@.subrange(0, i + 1))[block] == data@);
                    assert(self.blocks().contains_key(block) && self.blocks()[block] == data@);
                }
                if len > data.len() {
                    return Err(WalError::InvalidArgument);
                }
                let mut v: Vec<u8> = Vec::new();
                let mut j: usize = 0;
                while j < len
                    invariant
                        j <= len,
                        len <= data@.len(),
                        v@ == data@.subrange(0, j as int),
                    decreases len - j,
                {
                    v.push(data[j]);
                    proof {
                        assert_seqs_equal!(v@ == data@.subrange(0, j + 1));
                    }
                    j = j + 1;
                }
                return Ok(v);
            }
        }
        proof {
            assert_seqs_equal!(self.buffer@.subrange(0, 0)
                == Seq::<(WalPosition, Vec<u8>)>::empty());
        }
        let v = vec![0u8; len];
        proof {
            assert_seqs_equal!(v@ == zero_seq(len as nat));
        }
        Ok(v)
    }
}

} // verus!
