use vstd::prelude::*;

mod buffer;
mod crc;
mod device;
mod framing;
mod laws;
mod mem;
mod mem_buffer;
mod position;
mod wal;

pub use buffer::AlignedSlice;
pub use crc::crc32_of;
pub use device::{PersistentDevice, WalError};
pub use framing::{EntryHeader, HEADER_SIZE, covered_bytes, decode_header, encode,
    lemma_num_blocks_bounds, lemma_parse_header_zero, lemma_u32_le_round_trip, spec_encode,
    spec_num_blocks, spec_parse_header, spec_u32_from_le, spec_u32_le, valid_entry_bytes,
    zero_seq};
pub use laws::{appended_model, entry_offset, lemma_append_no_spanning,
    lemma_append_positions_monotone, lemma_crc_mismatch_detected, lemma_framing_round_trip,
    lemma_iteration_after_appends, lemma_iteration_after_wrap_new,
    lemma_iteration_after_wrap_old, lemma_pad_stops_scan, lemma_recovery_after_appends,
    lemma_recovery_after_wrap, lemma_scan_tail_first_match, lemma_scan_tail_none,
    lemma_single_entry_round_trip, lemma_wrap_rollover, run_entry_at, run_model, wrap_model};
pub use mem::MemDevice;
pub use mem_buffer::{MemBufferDevice, offset_map, position_map};
pub use position::{WalPosition, pos_le, pos_lt};
pub use wal::{IterStep, Wal, WalIterator, append_target, append_wraps, entry_valid_at,
    head_after_append, header_at, iter_step, lemma_parse_agree, payload_at, read_model, recover,
    scan_head, scan_tail, spec_recovered_tail};

verus! {

/// Size in bytes of one device block: the unit of alignment and I/O.
pub const BLOCK_SIZE: u32 = 4096;

} // verus!
