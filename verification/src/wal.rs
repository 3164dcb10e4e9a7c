use vstd::prelude::*;

verus! {

use crate::BLOCK_SIZE;
use crate::buffer::AlignedSlice;
use crate::crc::{crc32_of, crc32_range};
use crate::device::{PersistentDevice, WalError};
use crate::framing::{
    EntryHeader, HEADER_SIZE, decode_header, encode, lemma_num_blocks_bounds,
    lemma_parse_header_zero, spec_encode, spec_num_blocks, spec_parse_header, zero_seq,
};
use crate::position::{WalPosition, pos_le, pos_lt};
use vstd::assert_seqs_equal;

// ---------------------------------------------------------------------------
// Model of the device contents
// ---------------------------------------------------------------------------

/// The bytes a positional read of `len` bytes serves at block `b` of the
/// write history `m`: the prefix of the write starting there, or zeros where
/// nothing was ever written.
pub open spec fn read_model(m: Map<u32, Seq<u8>>, b: u32, len: nat) -> Seq<u8> {
    if m.contains_key(b) {
        m[b].subrange(0, len as int)
    } else {
        zero_seq(len)
    }
}

/// The header stored at block `b`: the first header-size bytes read there.
pub open spec fn header_at(m: Map<u32, Seq<u8>>, b: u32) -> EntryHeader {
    spec_parse_header(read_model(m, b, HEADER_SIZE as nat))
}

/// Whether a valid entry starts at block `b`: a write starts there, its
/// header announces a positive payload length that the write holds in full,
/// and the stored CRC matches the covered bytes.
pub open spec fn entry_valid_at(m: Map<u32, Seq<u8>>, b: u32) -> bool {
    let h = header_at(m, b);
    &&& m.contains_key(b)
    &&& h.len > 0
    &&& HEADER_SIZE + h.len <= m[b].len()
    &&& HEADER_SIZE + h.len <= usize::MAX
    &&& crc32_of(m[b].subrange(4, HEADER_SIZE + h.len as int)) == h.crc
}

/// The payload of the entry starting at block `b`.
pub open spec fn payload_at(m: Map<u32, Seq<u8>>, b: u32) -> Seq<u8> {
    m[b].subrange(HEADER_SIZE as int, HEADER_SIZE + header_at(m, b).len as int)
}

/// Phase A of recovery: walk valid entries with non-decreasing rollover from
/// block `off`, and return the first free position. `ro` is the rollover of
/// the last entry walked, initially zero.
pub open spec fn scan_head(m: Map<u32, Seq<u8>>, cap: u32, off: u32, ro: u32) -> WalPosition
    decreases cap - off,
{
    let h = header_at(m, off);
    if !entry_valid_at(m, off) || h.rollover < ro {
        WalPosition { offset: off, rollover: ro }
    } else {
        let next = off + spec_num_blocks(h.len as nat);
        if next >= cap {
            WalPosition { offset: off, rollover: ro }
        } else {
            scan_head(m, cap, next as u32, h.rollover)
        }
    }
}

/// Phase B of recovery: the first block at or after `off` holding a valid
/// entry of rollover `want`, or `start` when none exists before `cap`.
pub open spec fn scan_tail(m: Map<u32, Seq<u8>>, cap: u32, off: u32, start: u32, want: u32) -> u32
    decreases cap - off,
{
    if off >= cap {
        start
    } else if entry_valid_at(m, off) && header_at(m, off).rollover == want {
        off
    } else {
        scan_tail(m, cap, (off + 1) as u32, start, want)
    }
}

/// The tail recovery computes once the head is known: the origin on a fresh
/// device, otherwise the first surviving entry of the previous rollover at or
/// after the head's offset.
pub open spec fn spec_recovered_tail(m: Map<u32, Seq<u8>>, cap: u32) -> WalPosition {
    let h = scan_head(m, cap, 0, 0);
    if h.rollover == 0 {
        WalPosition { offset: 0, rollover: 0 }
    } else {
        WalPosition {
            offset: scan_tail(m, cap, h.offset, h.offset, (h.rollover - 1) as u32),
            rollover: (h.rollover - 1) as u32,
        }
    }
}

// ---------------------------------------------------------------------------
// Iteration
// ---------------------------------------------------------------------------

/// What one iterator step yields, as a function of the device model.
pub enum IterStep {
    /// The cursor has reached the end of the range.
    Done,
    /// A valid entry: the position yielded, its payload, and the cursor
    /// standing after the entry.
    Entry(WalPosition, Seq<u8>, WalPosition),
    /// The entry at the cursor fails validation.
    Corrupt,
}

/// One step of iteration at cursor `cur`, bounded by `end`, over a history
/// `m` of `cap` blocks: done past the end; otherwise the valid entry at the
/// cursor with the cursor moved past it — wrapping to the next rollover at
/// the physical end — or corrupt where validation fails.
pub open spec fn iter_step(m: Map<u32, Seq<u8>>, cap: u32, cur: WalPosition, end: WalPosition)
    -> IterStep {
    if !pos_lt(cur, end) {
        IterStep::Done
    } else {
        let h = header_at(m, cur.offset);
        if !entry_valid_at(m, cur.offset) {
            IterStep::Corrupt
        } else {
            let nb = spec_num_blocks(h.len as nat);
            if cur.offset + nb >= cap && h.rollover == u32::MAX {
                IterStep::Corrupt
            } else {
                let next = if cur.offset + nb >= cap {
                    WalPosition { offset: 0, rollover: (h.rollover + 1) as u32 }
                } else {
                    WalPosition { offset: (cur.offset + nb) as u32, rollover: h.rollover }
                };
                IterStep::Entry(
                    WalPosition { offset: cur.offset, rollover: h.rollover },
                    payload_at(m, cur.offset),
                    next,
                )
            }
        }
    }
}

// ---------------------------------------------------------------------------
// Append arithmetic
// ---------------------------------------------------------------------------

/// Whether an append of `w` blocks at head `h` would cross the physical end
/// of a ring of `cap` blocks, and so must first pad out and wrap.
pub open spec fn append_wraps(h: WalPosition, w: nat, cap: u32) -> bool {
    h.offset + w > cap
}

/// The position at which an append of `w` blocks lands.
pub open spec fn append_target(h: WalPosition, w: nat, cap: u32) -> WalPosition {
    if append_wraps(h, w, cap) {
        WalPosition { offset: 0, rollover: (h.rollover + 1) as u32 }
    } else {
        h
    }
}

/// The head after a successful append of `w` blocks.
pub open spec fn head_after_append(h: WalPosition, w: nat, cap: u32) -> WalPosition {
    let t = append_target(h, w, cap);
    WalPosition { offset: (t.offset + w) as u32, rollover: t.rollover }
}

// ---------------------------------------------------------------------------
// The log
// ---------------------------------------------------------------------------

/// A fixed-capacity, block-aligned circular write-ahead log over a pluggable
/// device. `head` is where the next append writes; `tail` is the oldest
/// position iteration exposes.
pub struct Wal<D: PersistentDevice> {
    dev: D,
    // capacity in blocks
    capacity: u32,
    head: WalPosition,
    tail: WalPosition,
    // every position ever reported by a completion drain
    emitted: Ghost<Set<WalPosition>>,
}

impl<D: PersistentDevice> Wal<D> {
    /// The position at which the next append will write.
    pub closed spec fn spec_head(&self) -> WalPosition {
        self.head
    }

    /// The oldest position considered valid for iteration.
    pub closed spec fn spec_tail(&self) -> WalPosition {
        self.tail
    }

    /// Total blocks in the ring.
    pub closed spec fn spec_capacity(&self) -> u32 {
        self.capacity
    }

    /// The device's write history.
    pub closed spec fn model(&self) -> Map<u32, Seq<u8>> {
        self.dev.blocks()
    }

    /// Positions the next completion drain will report.
    pub closed spec fn pending(&self) -> Seq<WalPosition> {
        self.dev.pending()
    }

    /// Every position a completion drain has ever reported.
    pub closed spec fn emitted(&self) -> Set<WalPosition> {
        self.emitted@
    }

    /// Writes the device promises to accept.
    pub closed spec fn dev_accepts(&self, start_block: u32, num_blocks: u32) -> bool {
        self.dev.accepts(start_block, num_blocks)
    }

    /// Reads the device promises to serve.
    pub closed spec fn dev_read_ok(&self, block: u32, len: nat) -> bool {
        self.dev.read_ok(block, len)
    }

    /// Well-formedness of the log between operations: the head sits inside
    /// the ring (at most one past the last block), a ring of this capacity
    /// fits the address space, and every completion — already reported or
    /// still pending — names a position strictly before the head, pending
    /// ones pairwise distinct and never reported before.
    pub open spec fn wf(&self) -> bool {
        &&& self.spec_head().offset <= self.spec_capacity()
        &&& (self.spec_capacity() as int) * (BLOCK_SIZE as int) + BLOCK_SIZE <= usize::MAX
        &&& (forall|i: int|
            0 <= i < self.pending().len() ==> pos_lt(#[trigger] self.pending()[i], self.spec_head()))
        &&& (forall|i: int, j: int|
            #![trigger self.pending()[i], self.pending()[j]]
            0 <= i < j < self.pending().len() ==> self.pending()[i] != self.pending()[j])
        &&& (forall|p: WalPosition|
            self.emitted().contains(p) ==> pos_lt(p, self.spec_head()))
        &&& (forall|i: int|
            0 <= i < self.pending().len() ==> !self.emitted().contains(
                #[trigger] self.pending()[i],
            ))
    }

    /// The completion bookkeeping of `wf` is stable under a head that only
    /// moves forward while pending completions and the emitted record stay.
    proof fn lemma_wf_frame(pre: Self, post: Self)
        requires
            pre.wf(),
            post.pending() == pre.pending(),
            post.emitted() == pre.emitted(),
            post.spec_capacity() == pre.spec_capacity(),
            pos_le(pre.spec_head(), post.spec_head()),
            post.spec_head().offset <= post.spec_capacity(),
        ensures
            post.wf(),
    {
        assert forall|i: int| 0 <= i < post.pending().len() implies pos_lt(
            #[trigger] post.pending()[i],
            post.spec_head(),
        ) by {
            assert(pos_lt(pre.pending()[i], pre.spec_head()));
        }
        assert forall|i: int, j: int|
            #![trigger post.pending()[i], post.pending()[j]]
            0 <= i < j < post.pending().len() implies post.pending()[i] != post.pending()[j] by {
            assert(pre.pending()[i] != pre.pending()[j]);
        }
        assert forall|p: WalPosition| post.emitted().contains(p) implies pos_lt(
            p,
            post.spec_head(),
        ) by {
            assert(pos_lt(p, pre.spec_head()));
        }
        assert forall|i: int| 0 <= i < post.pending().len() implies !post.emitted().contains(
            #[trigger] post.pending()[i],
        ) by {
            assert(!pre.emitted().contains(pre.pending()[i]));
        }
    }

    /// The completion bookkeeping of `wf` accepts one more pending position
    /// `p` when `p` lies at or past the old head and before the new one.
    proof fn lemma_wf_push(pre: Self, post: Self, p: WalPosition)
        requires
            pre.wf(),
            post.pending() == pre.pending().push(p),
            post.emitted() == pre.emitted(),
            post.spec_capacity() == pre.spec_capacity(),
            pos_le(pre.spec_head(), p),
            pos_lt(p, post.spec_head()),
            post.spec_head().offset <= post.spec_capacity(),
        ensures
            post.wf(),
    {
        let n = pre.pending().len() as int;
        assert forall|i: int| 0 <= i < post.pending().len() implies pos_lt(
            #[trigger] post.pending()[i],
            post.spec_head(),
        ) by {
            if i < n {
                assert(pos_lt(pre.pending()[i], pre.spec_head()));
            } else {
                assert(post.pending()[i] == p);
            }
        }
        assert forall|i: int, j: int|
            #![trigger post.pending()[i], post.pending()[j]]
            0 <= i < j < post.pending().len() implies post.pending()[i] != post.pending()[j] by {
            if j < n {
                assert(pre.pending()[i] != pre.pending()[j]);
            } else {
                assert(pos_lt(pre.pending()[i], pre.spec_head()));
            }
        }
        assert forall|q: WalPosition| post.emitted().contains(q) implies pos_lt(
            q,
            post.spec_head(),
        ) by {
            assert(pos_lt(q, pre.spec_head()));
        }
        assert forall|i: int| 0 <= i < post.pending().len() implies !post.emitted().contains(
            #[trigger] post.pending()[i],
        ) by {
            if i < n {
                assert(!pre.emitted().contains(pre.pending()[i]));
            } else {
                if pre.emitted().contains(p) {
                    assert(pos_lt(p, pre.spec_head()));
                }
            }
        }
    }

    /// The completion bookkeeping of `wf` survives a drain: every pending
    /// position moves into the emitted record, and all of them sat before
    /// the head.
    proof fn lemma_wf_drain(pre: Self, post: Self)
        requires
            pre.wf(),
            post.pending().len() == 0,
            post.emitted() == pre.emitted().union(pre.pending().to_set()),
            post.spec_head() == pre.spec_head(),
            post.spec_capacity() == pre.spec_capacity(),
        ensures
            post.wf(),
    {
        assert forall|p: WalPosition| post.emitted().contains(p) implies pos_lt(
            p,
            post.spec_head(),
        ) by {
            if pre.emitted().contains(p) {
                assert(pos_lt(p, pre.spec_head()));
            } else {
                assert(pre.pending().contains(p));
                let i = choose|i: int| 0 <= i < pre.pending().len() && pre.pending()[i] == p;
                assert(pos_lt(pre.pending()[i], pre.spec_head()));
            }
        }
    }

    /// Append an entry. The payload is copied and framed into an aligned
    /// buffer which the device owns until the write completes; the returned
    /// position is where the entry landed. When the entry would cross the
    /// physical end, a zero pad is first written from the head to the end
    /// (with no completion) and the entry lands at offset zero of the next
    /// rollover. On failure the head is left at the slot the entry would
    /// have taken, so the next append retries it.
    pub fn append(&mut self, data: &[u8]) -> (r: Result<WalPosition, WalError>)
        requires
            old(self).wf(),
            data@.len() >= 1,
            data@.len() <= u32::MAX,
            spec_num_blocks(data@.len()) <= old(self).spec_capacity(),
        ensures
            final(self).wf(),
            final(self).spec_capacity() == old(self).spec_capacity(),
            final(self).spec_tail() == old(self).spec_tail(),
            final(self).emitted() == old(self).emitted(),
            ({
                let w = spec_num_blocks(data@.len());
                let h0 = old(self).spec_head();
                let cap = old(self).spec_capacity();
                let target = append_target(h0, w, cap);
                let pad = zero_seq(((cap - h0.offset) * BLOCK_SIZE) as nat);
                &&& (match r {
                    Ok(p) => {
                        &&& p == target
                        &&& p.offset + w <= cap
                        &&& (append_wraps(h0, w, cap) ==> h0.rollover < u32::MAX && p
                            == (WalPosition { offset: 0, rollover: (h0.rollover + 1) as u32 }))
                        &&& final(self).spec_head() == head_after_append(h0, w, cap)
                        &&& final(self).pending() == old(self).pending().push(p)
                        &&& final(self).model() == if append_wraps(h0, w, cap) {
                            old(self).model().insert(h0.offset, pad).insert(
                                0,
                                spec_encode(data@, target.rollover),
                            )
                        } else {
                            old(self).model().insert(h0.offset, spec_encode(data@, h0.rollover))
                        }
                    },
                    Err(_) => {
                        let unchanged = final(self).spec_head() == h0 && final(self).model()
                            == old(self).model();
                        let padded = append_wraps(h0, w, cap) && h0.rollover < u32::MAX
                            && final(self).spec_head() == target && final(self).model()
                            == old(self).model().insert(h0.offset, pad);
                        &&& final(self).pending() == old(self).pending()
                        &&& (unchanged || padded)
                    },
                })
                &&& (!append_wraps(h0, w, cap) && old(self).dev_accepts(h0.offset, w as u32)
                    ==> r is Ok)
            }),
    {
        proof {
            lemma_num_blocks_bounds(data@.len());
        }
        let w: u32 = ((HEADER_SIZE as u64 + data.len() as u64 + (BLOCK_SIZE as u64 - 1))
            / BLOCK_SIZE as u64) as u32;

        // Move the head past the physical end first when the entry will not
        // fit: pad out the remainder of the ring so that stale entries of
        // the previous rollover cannot survive past the head.
        if self.head.offset as u64 + w as u64 > self.capacity as u64 {
            if self.head.rollover == u32::MAX {
                proof {
                    Self::lemma_wf_frame(*old(self), *self);
                }
                return Err(WalError::InvalidArgument);
            }
            let pad_blocks: u32 = self.capacity - self.head.offset;
            let raw: usize = pad_blocks as usize * BLOCK_SIZE as usize;
            proof {
                assert((raw as int + (BLOCK_SIZE as int - 1)) / (BLOCK_SIZE as int)
                    == pad_blocks as int) by (nonlinear_arith)
                    requires raw == pad_blocks as int * BLOCK_SIZE as int;
            }
            let pad = AlignedSlice::new(raw);
            proof {
                assert_seqs_equal!(pad@ == zero_seq((raw) as nat));
            }
            match self.dev.write(self.head, pad, false) {
                Ok(_) => {},
                Err(e) => {
                    proof {
                        Self::lemma_wf_frame(*old(self), *self);
                    }
                    return Err(e);
                },
            }
            self.head = WalPosition { offset: 0, rollover: self.head.rollover + 1 };
        }

        let buf = encode(data, self.head.rollover);
        let pos = self.head;
        proof {
            assert((buf@.len() as int / BLOCK_SIZE as int) == w as int) by (nonlinear_arith)
                requires buf@.len() == w as int * BLOCK_SIZE as int;
        }
        match self.dev.write(pos, buf, true) {
            Ok(_) => {
                self.head = WalPosition {
                    offset: self.head.offset + w,
                    rollover: self.head.rollover,
                };
                proof {
                    Self::lemma_wf_push(*old(self), *self, pos);
                }
                Ok(pos)
            },
            Err(e) => {
                proof {
                    Self::lemma_wf_frame(*old(self), *self);
                }
                Err(e)
            },
        }
    }

    /// Move the tail forward to `position`; positions at or behind the
    /// current tail are a no-op. The update is advisory and not persisted:
    /// a restart re-exposes truncated entries.
    pub fn truncate(&mut self, position: WalPosition)
        requires
            old(self).wf(),
        ensures
            final(self).wf(),
            final(self).spec_tail() == if pos_lt(old(self).spec_tail(), position) {
                position
            } else {
                old(self).spec_tail()
            },
            final(self).spec_head() == old(self).spec_head(),
            final(self).spec_capacity() == old(self).spec_capacity(),
            final(self).model() == old(self).model(),
            final(self).pending() == old(self).pending(),
            final(self).emitted() == old(self).emitted(),
    {
        if position > self.tail {
            self.tail = position;
        }
        proof {
            Self::lemma_wf_frame(*old(self), *self);
        }
    }

    /// Report the positions of appends that have become durable since the
    /// last drain. Pad writes are never reported, and across all drains of
    /// one log each position is reported at most once.
    pub fn process_completions(&mut self) -> (r: Vec<WalPosition>)
        requires
            old(self).wf(),
        ensures
            final(self).wf(),
            r@ == old(self).pending(),
            final(self).pending().len() == 0,
            final(self).emitted() == old(self).emitted().union(r@.to_set()),
            forall|i: int| 0 <= i < r@.len() ==> !old(self).emitted().contains(#[trigger] r@[i]),
            forall|i: int, j: int|
                #![trigger r@[i], r@[j]]
                0 <= i < j < r@.len() ==> r@[i] != r@[j],
            final(self).spec_head() == old(self).spec_head(),
            final(self).spec_tail() == old(self).spec_tail(),
            final(self).spec_capacity() == old(self).spec_capacity(),
            final(self).model() == old(self).model(),
    {
        let r = self.dev.process_completions();
        self.emitted = Ghost(self.emitted@.union(r@.to_set()));
        proof {
            Self::lemma_wf_drain(*old(self), *self);
            assert forall|i: int| 0 <= i < r@.len() implies !old(self).emitted().contains(
                #[trigger] r@[i],
            ) by {
                assert(!old(self).emitted().contains(old(self).pending()[i]));
            }
            assert forall|i: int, j: int|
                #![trigger r@[i], r@[j]]
                0 <= i < j < r@.len() implies r@[i] != r@[j] by {
                assert(old(self).pending()[i] != old(self).pending()[j]);
            }
        }
        r
    }

    /// The position at which the next append will write.
    pub fn head(&self) -> (r: WalPosition)
        ensures
            r == self.spec_head(),
    {
        self.head
    }

    /// The oldest position considered valid for iteration.
    pub fn tail(&self) -> (r: WalPosition)
        ensures
            r == self.spec_tail(),
    {
        self.tail
    }

    /// Total blocks in the ring.
    pub fn capacity(&self) -> (r: u32)
        ensures
            r == self.spec_capacity(),
    {
        self.capacity
    }

    /// A cursor over the entries of the log, from the tail (inclusive) to
    /// the head (exclusive), in logical order.
    pub fn iterate<'a>(&'a self) -> (it: WalIterator<'a, D>)
        ensures
            it.spec_current() == self.spec_tail(),
            it.spec_end() == self.spec_head(),
            it.spec_capacity() == self.spec_capacity(),
            it.model() == self.model(),
            forall|b: u32, l: nat| #[trigger] it.dev_read_ok(b, l) == self.dev_read_ok(b, l),
    {
        WalIterator::new(&self.dev, self.tail, self.head, self.capacity)
    }

    /// Open a log over a device: set head and tail to the origin, then
    /// reconstruct both by scanning the device contents.
    pub fn open(dev: D, capacity: u32) -> (r: Result<Wal<D>, WalError>)
        requires
            dev.pending() == Seq::<WalPosition>::empty(),
            capacity >= 1,
            (capacity as int) * (BLOCK_SIZE as int) + BLOCK_SIZE <= usize::MAX,
        ensures
            match r {
                Ok(w) => {
                    &&& w.wf()
                    &&& w.spec_capacity() == capacity
                    &&& w.model() == dev.blocks()
                    &&& w.pending() == dev.pending()
                    &&& w.emitted() == Set::<WalPosition>::empty()
                    &&& w.spec_head() == scan_head(dev.blocks(), capacity, 0, 0)
                    &&& w.spec_tail() == spec_recovered_tail(dev.blocks(), capacity)
                },
                Err(e) => e is Io || e is InvalidArgument,
            },
    {
        let init = WalPosition { offset: 0, rollover: 0 };
        let mut wal = Wal {
            dev,
            capacity,
            head: init,
            tail: init,
            emitted: Ghost(Set::empty()),
        };
        match recover(&mut wal) {
            Ok(_) => Ok(wal),
            Err(e) => Err(e),
        }
    }

    /// Tear the log down: drain and discard any completions still pending,
    /// and hand the device back.
    pub fn close(self) -> (r: D)
        ensures
            r.blocks() == self.model(),
            r.pending() == Seq::<WalPosition>::empty(),
    {
        let mut dev = self.dev;
        let _ = dev.process_completions();
        dev
    }
}

/// A lazy cursor over the entries of a log, from a start position up to an
/// end position, reading each entry from the device as it is asked for.
pub struct WalIterator<'a, D: PersistentDevice> {
    dev: &'a D,
    current: WalPosition,
    end: WalPosition,
    // number of blocks in the ring
    capacity: u32,
}

impl<'a, D: PersistentDevice> WalIterator<'a, D> {
    /// The position the next call will read at.
    pub closed spec fn spec_current(&self) -> WalPosition {
        self.current
    }

    /// The position iteration stops at, exclusive.
    pub closed spec fn spec_end(&self) -> WalPosition {
        self.end
    }

    /// Total blocks in the ring.
    pub closed spec fn spec_capacity(&self) -> u32 {
        self.capacity
    }

    /// The write history of the device read from.
    pub closed spec fn model(&self) -> Map<u32, Seq<u8>> {
        self.dev.blocks()
    }

    /// Reads the device promises to serve.
    pub closed spec fn dev_read_ok(&self, block: u32, len: nat) -> bool {
        self.dev.read_ok(block, len)
    }

    /// A cursor from `start` (inclusive) to `end` (exclusive) over `dev`.
    pub fn new(dev: &'a D, start: WalPosition, end: WalPosition, capacity: u32) -> (r: Self)
        ensures
            r.spec_current() == start,
            r.spec_end() == end,
            r.spec_capacity() == capacity,
            r.model() == dev.blocks(),
            forall|b: u32, l: nat| #[trigger] r.dev_read_ok(b, l) == dev.read_ok(b, l),
    {
        WalIterator { dev, current: start, end, capacity }
    }

    /// Yield the entry at the cursor and move past it, `None` at the end of
    /// the range or when the device fails to serve a read, or an
    /// invalid-data error — with the cursor kept, so the iterator is
    /// exhausted — where the entry fails validation.
    pub fn next(&mut self) -> (r: Option<Result<(WalPosition, Vec<u8>), WalError>>)
        ensures
            final(self).spec_end() == old(self).spec_end(),
            final(self).spec_capacity() == old(self).spec_capacity(),
            final(self).model() == old(self).model(),
            forall|b: u32, l: nat| #[trigger]
                final(self).dev_read_ok(b, l) == old(self).dev_read_ok(b, l),
            ({
                let step = iter_step(
                    old(self).model(),
                    old(self).spec_capacity(),
                    old(self).spec_current(),
                    old(self).spec_end(),
                );
                let h = header_at(old(self).model(), old(self).spec_current().offset);
                &&& (match r {
                    None => final(self).spec_current() == old(self).spec_current(),
                    Some(Ok((p, d))) => step == IterStep::Entry(p, d@, final(self).spec_current()),
                    Some(Err(e)) => e == WalError::InvalidData && step is Corrupt
                        && final(self).spec_current() == old(self).spec_current(),
                })
                &&& (step is Done ==> r is None)
                &&& (!(step is Done) && old(self).dev_read_ok(
                    old(self).spec_current().offset,
                    HEADER_SIZE as nat,
                ) && old(self).dev_read_ok(
                    old(self).spec_current().offset,
                    (HEADER_SIZE + h.len) as nat,
                ) ==> r is Some)
            }),
    {
        let ghost m = self.dev.blocks();
        let cur = self.current;
        if self.current >= self.end {
            return None;
        }
        let byte = cur.byte_offset();
        let v = match self.dev.read(byte, HEADER_SIZE) {
            Ok(v) => v,
            Err(_) => {
                return None;
            },
        };
        let h = decode_header(&v);
        proof {
            assert forall|i: int| 0 <= i < HEADER_SIZE implies v@[i] == read_model(
                m,
                cur.offset,
                HEADER_SIZE as nat,
            )[i] by {}
            lemma_parse_agree(v@, read_model(m, cur.offset, HEADER_SIZE as nat));
            assert(h == header_at(m, cur.offset));
        }

        if h.len == 0 {
            return Some(Err(WalError::InvalidData));
        }
        proof {
            assert(m.contains_key(cur.offset)) by {
                if !m.contains_key(cur.offset) {
                    lemma_parse_header_zero(read_model(m, cur.offset, HEADER_SIZE as nat));
                }
            };
        }
        if h.len as u64 + HEADER_SIZE as u64 > usize::MAX as u64 {
            return Some(Err(WalError::InvalidData));
        }
        let flen: usize = h.len as usize + HEADER_SIZE;
        let v2 = match self.dev.read(byte, flen) {
            Ok(v2) => v2,
            Err(_) => {
                return None;
            },
        };
        let crc = crc32_range(&v2, 4, flen);
        proof {
            assert_seqs_equal!(
                v2@.subrange(4, flen as int) == m[cur.offset].subrange(4, flen as int)
            );
        }
        if crc != h.crc {
            return Some(Err(WalError::InvalidData));
        }
        proof {
            assert(entry_valid_at(m, cur.offset));
            lemma_num_blocks_bounds(h.len as nat);
        }

        let nb = h.num_blocks();
        let next64 = cur.offset as u64 + nb as u64;
        let next = if next64 >= self.capacity as u64 {
            if h.rollover == u32::MAX {
                return Some(Err(WalError::InvalidData));
            }
            WalPosition { offset: 0, rollover: h.rollover + 1 }
        } else {
            WalPosition { offset: next64 as u32, rollover: h.rollover }
        };
        self.current = next;

        let mut payload: Vec<u8> = Vec::new();
        let mut i: usize = HEADER_SIZE;
        while i < flen
            invariant
                HEADER_SIZE <= i <= flen,
                flen == v2@.len(),
                payload@ == v2@.subrange(HEADER_SIZE as int, i as int),
            decreases flen - i,
        {
            payload.push(v2[i]);
            proof {
                assert_seqs_equal!(payload@
                    == v2@.subrange(HEADER_SIZE as int, i + 1));
            }
            i = i + 1;
        }
        proof {
            assert_seqs_equal!(payload@ == payload_at(m, cur.offset));
        }
        Some(Ok((WalPosition { offset: cur.offset, rollover: h.rollover }, payload)))
    }
}

/// Two byte views that agree on the header bytes parse to the same header.
pub proof fn lemma_parse_agree(a: Seq<u8>, b: Seq<u8>)
    requires
        a.len() >= HEADER_SIZE,
        b.len() >= HEADER_SIZE,
        forall|i: int| 0 <= i < HEADER_SIZE ==> a[i] == b[i],
    ensures
        spec_parse_header(a) == spec_parse_header(b),
{
    assert_seqs_equal!(a.subrange(0, 4) == b.subrange(0, 4));
    assert_seqs_equal!(a.subrange(4, 8) == b.subrange(4, 8));
    assert_seqs_equal!(a.subrange(8, 12) == b.subrange(8, 12));
}

/// Reconstruct the head and the tail of a freshly opened log by scanning the
/// device. Phase A walks valid entries with non-decreasing rollover from the
/// origin until an invalid, older or out-of-range entry stops it; phase B,
/// on a wrapped log, looks for the first surviving entry of the previous
/// rollover at or after the head's offset.
pub fn recover<D: PersistentDevice>(wal: &mut Wal<D>) -> (r: Result<(), WalError>)
    requires
        old(wal).wf(),
        old(wal).spec_head() == (WalPosition { offset: 0, rollover: 0 }),
        old(wal).spec_tail() == (WalPosition { offset: 0, rollover: 0 }),
        old(wal).spec_capacity() >= 1,
    ensures
        final(wal).wf(),
        final(wal).spec_capacity() == old(wal).spec_capacity(),
        final(wal).model() == old(wal).model(),
        final(wal).pending() == old(wal).pending(),
        final(wal).emitted() == old(wal).emitted(),
        match r {
            Ok(_) => {
                &&& final(wal).spec_head() == scan_head(
                    old(wal).model(),
                    old(wal).spec_capacity(),
                    0,
                    0,
                )
                &&& final(wal).spec_tail() == spec_recovered_tail(
                    old(wal).model(),
                    old(wal).spec_capacity(),
                )
            },
            Err(e) => e is Io || e is InvalidArgument,
        },
{
    let ghost m = wal.dev.blocks();
    let cap = wal.capacity;

    // Phase A: locate the head.
    loop
        invariant_except_break
            old(wal).wf(),
            old(wal).spec_head() == (WalPosition { offset: 0, rollover: 0 }),
            old(wal).spec_capacity() >= 1,
            wal.dev == old(wal).dev,
            wal.capacity == old(wal).capacity,
            wal.tail == old(wal).tail,
            wal.emitted == old(wal).emitted,
            cap == wal.capacity,
            m == wal.dev.blocks(),
            wal.head.offset < cap,
            scan_head(m, cap, wal.head.offset, wal.head.rollover) == scan_head(m, cap, 0, 0),
        ensures
            wal.dev == old(wal).dev,
            wal.capacity == old(wal).capacity,
            wal.tail == old(wal).tail,
            wal.emitted == old(wal).emitted,
            wal.head == scan_head(m, cap, 0, 0),
            wal.head.offset < cap,
        decreases cap - wal.head.offset,
    {
        let off = wal.head.offset;
        let byte = wal.head.byte_offset();
        let v = match wal.dev.read(byte, BLOCK_SIZE as usize) {
            Ok(v) => v,
            Err(e) => {
                proof {
                    Wal::lemma_wf_frame(*old(wal), *wal);
                }
                return Err(e);
            },
        };
        let h = decode_header(&v);
        proof {
            assert forall|i: int| 0 <= i < HEADER_SIZE implies v@[i] == read_model(
                m,
                off,
                HEADER_SIZE as nat,
            )[i] by {}
            lemma_parse_agree(v@, read_model(m, off, HEADER_SIZE as nat));
            assert(h == header_at(m, off));
        }

        // A zero length marks uninitialized space: the head is here.
        if h.len == 0 {
            break ;
        }

        proof {
            assert(m.contains_key(off)) by {
                if !m.contains_key(off) {
                    lemma_parse_header_zero(read_model(m, off, HEADER_SIZE as nat));
                }
            };
        }

        // A length the address space cannot hold cannot be a stored entry.
        if h.len as u64 + HEADER_SIZE as u64 > usize::MAX as u64 {
            break ;
        }
        let flen: usize = h.len as usize + HEADER_SIZE;
        let v2 = match wal.dev.read(byte, flen) {
            Ok(v2) => v2,
            Err(e) => {
                proof {
                    Wal::lemma_wf_frame(*old(wal), *wal);
                }
                return Err(e);
            },
        };
        let crc = crc32_range(&v2, 4, flen);
        proof {
            assert_seqs_equal!(v2@.subrange(4, flen as int) == m[off].subrange(4, flen as int));
        }
        if crc != h.crc {
            break ;
        }

        // An entry of an older rollover lies past the logical head.
        if h.rollover < wal.head.rollover {
            break ;
        }

        proof {
            assert(entry_valid_at(m, off));
            lemma_num_blocks_bounds(h.len as nat);
        }
        let nb = h.num_blocks();
        let next = off as u64 + nb as u64;
        if next >= cap as u64 {
            break ;
        }
        wal.head = WalPosition { offset: next as u32, rollover: h.rollover };
    }

    // Phase B: locate the tail.
    if wal.head.rollover > 0 {
        let want: u32 = wal.head.rollover - 1;
        let start: u32 = wal.head.offset;
        wal.tail = WalPosition { offset: start, rollover: want };
        let mut off: u32 = start;
        loop
            invariant_except_break
                old(wal).wf(),
                old(wal).spec_head() == (WalPosition { offset: 0, rollover: 0 }),
                old(wal).spec_capacity() >= 1,
                wal.dev == old(wal).dev,
                wal.capacity == old(wal).capacity,
                wal.emitted == old(wal).emitted,
                cap == wal.capacity,
                m == wal.dev.blocks(),
                wal.head == scan_head(m, cap, 0, 0),
                wal.head.offset < cap,
                wal.head.rollover > 0,
                want == wal.head.rollover - 1,
                start == wal.head.offset,
                wal.tail == (WalPosition { offset: start, rollover: want }),
                start <= off <= cap,
                scan_tail(m, cap, off, start, want) == scan_tail(m, cap, start, start, want),
            ensures
                wal.dev == old(wal).dev,
                wal.capacity == old(wal).capacity,
                wal.emitted == old(wal).emitted,
                wal.head == scan_head(m, cap, 0, 0),
                wal.head.offset < cap,
                wal.head.rollover > 0,
                want == wal.head.rollover - 1,
                wal.tail == (WalPosition {
                    offset: scan_tail(m, cap, start, start, want),
                    rollover: want,
                }),
                start == wal.head.offset,
            decreases cap - off,
        {
            if off >= cap {
                break ;
            }
            let byte = off as u64 * BLOCK_SIZE as u64;
            let v = match wal.dev.read(byte, BLOCK_SIZE as usize) {
                Ok(v) => v,
                Err(e) => {
                    proof {
                        Wal::lemma_wf_frame(*old(wal), *wal);
                    }
                    return Err(e);
                },
            };
            let h = decode_header(&v);
            proof {
                assert forall|i: int| 0 <= i < HEADER_SIZE implies v@[i] == read_model(
                    m,
                    off,
                    HEADER_SIZE as nat,
                )[i] by {}
                lemma_parse_agree(v@, read_model(m, off, HEADER_SIZE as nat));
                assert(h == header_at(m, off));
            }

            if h.rollover == want && h.len != 0 && h.len as u64 + HEADER_SIZE as u64
                <= usize::MAX as u64 {
                proof {
                    assert(m.contains_key(off)) by {
                        if !m.contains_key(off) {
                            lemma_parse_header_zero(read_model(m, off, HEADER_SIZE as nat));
                        }
                    };
                }
                let flen: usize = h.len as usize + HEADER_SIZE;
                let v2 = match wal.dev.read(byte, flen) {
                    Ok(v2) => v2,
                    Err(e) => {
                        proof {
                            Wal::lemma_wf_frame(*old(wal), *wal);
                        }
                        return Err(e);
                    },
                };
                let crc = crc32_range(&v2, 4, flen);
                proof {
                    assert_seqs_equal!(
                        v2@.subrange(4, flen as int) == m[off].subrange(4, flen as int)
                    );
                }
                if crc == h.crc {
                    // A surviving entry of the previous rollover: the tail.
                    proof {
                        assert(entry_valid_at(m, off));
                    }
                    wal.tail = WalPosition { offset: off, rollover: want };
                    break ;
                }
            }
            off = off + 1;
        }
    }

    proof {
        Wal::lemma_wf_frame(*old(wal), *wal);
    }
    Ok(())
}

} // verus!
