use vstd::prelude::*;

verus! {

use crate::BLOCK_SIZE;
use crate::buffer::AlignedSlice;
use crate::framing::zero_seq;
use crate::position::WalPosition;

/// The kinds of failure a device or the log can report.
#[derive(Debug, Copy, Clone, PartialEq, Eq, Structural)]
pub enum WalError {
    /// The submission queue is full; retry later.
    WouldBlock,
    /// Out-of-range position, over-long read, or a payload that cannot fit.
    InvalidArgument,
    /// The background worker or kernel mechanism has gone away.
    BrokenPipe,
    /// A header failed to decode or a CRC did not match during iteration.
    InvalidData,
    /// Any other device-level failure.
    Io,
}

/// A device that accepts aligned writes without blocking, later reports which
/// writes are durable, and serves synchronous positional reads.
///
/// The model is the history of submitted writes, keyed by the block offset at
/// which each write starts, together with the queue of positions whose
/// durability will be reported by the next completion drain.
pub trait PersistentDevice: Sized {
    /// The bytes of each submitted write, keyed by its starting block
    /// offset. The default history is empty: an implementation that keeps
    /// it says nothing of what it stores.
    open spec fn blocks(&self) -> Map<u32, Seq<u8>> {
        Map::empty()
    }

    /// Positions that the next completion drain will report. The default is
    /// none pending.
    open spec fn pending(&self) -> Seq<WalPosition> {
        Seq::empty()
    }

    /// Writes of `num_blocks` blocks starting at `start_block` that this
    /// device promises to accept. By default a device promises none.
    open spec fn accepts(&self, start_block: u32, num_blocks: u32) -> bool {
        false
    }

    /// Reads of `len` bytes at block `block` that this device promises to
    /// serve. By default a device promises none.
    open spec fn read_ok(&self, block: u32, len: nat) -> bool {
        false
    }

    /// Submit a write of `data` starting at `pos`'s block offset. The buffer
    /// is owned by the device from here on. With `notify` set, `pos` will be
    /// reported as a completion once the write is durable; without it the
    /// bytes are still persisted but no completion is ever reported.
    fn write(&mut self, pos: WalPosition, data: AlignedSlice, notify: bool) -> (r: Result<
        (),
        WalError,
    >)
        ensures
            r is Ok ==> final(self).blocks() == old(self).blocks().insert(pos.offset, data@),
            r is Ok ==> final(self).pending() == if notify {
                old(self).pending().push(pos)
            } else {
                old(self).pending()
            },
            r is Err ==> final(self).blocks() == old(self).blocks() && final(self).pending()
                == old(self).pending(),
            old(self).accepts(pos.offset, (data@.len() as int / BLOCK_SIZE as int) as u32) ==> r
                is Ok,
    ;

    /// Report the positions of writes that have become durable since the last
    /// drain, each exactly once across the device's lifetime.
    fn process_completions(&mut self) -> (r: Vec<WalPosition>)
        ensures
            r@ == old(self).pending(),
            final(self).pending() == Seq::<WalPosition>::empty(),
            final(self).blocks() == old(self).blocks(),
    ;

    /// Synchronous positional read of `len` bytes at byte offset `pos`,
    /// serving from the write that starts at the containing block: its stored
    /// prefix, or zeros where nothing was ever written.
    fn read(&self, pos: u64, len: usize) -> (r: Result<Vec<u8>, WalError>)
        requires
            pos / (BLOCK_SIZE as u64) < 0x1_0000_0000,
        ensures
            match r {
                Ok(v) => {
                    let b = (pos / BLOCK_SIZE as u64) as u32;
                    &&& v@.len() == len
                    &&& self.blocks().contains_key(b) ==> len <= self.blocks()[b].len() && v@
                        == self.blocks()[b].subrange(0, len as int)
                    &&& !self.blocks().contains_key(b) ==> v@ == zero_seq(len as nat)
                },
                Err(e) => e is Io || e is InvalidArgument,
            },
            self.read_ok((pos / BLOCK_SIZE as u64) as u32, len as nat) ==> r is Ok,
    ;
}

} // verus!
