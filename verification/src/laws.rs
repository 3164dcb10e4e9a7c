use vstd::prelude::*;

verus! {

use crate::BLOCK_SIZE;
use crate::crc::crc32_of;
use crate::framing::{
    HEADER_SIZE, covered_bytes, lemma_num_blocks_bounds, lemma_parse_header_zero,
    lemma_u32_le_round_trip, spec_encode, spec_num_blocks, spec_parse_header, spec_u32_le,
    valid_entry_bytes, zero_seq,
};
use crate::position::{WalPosition, pos_lt};
use crate::wal::{
    IterStep, append_target, append_wraps, entry_valid_at, head_after_append, header_at,
    iter_step, payload_at, read_model, scan_head, scan_tail, spec_recovered_tail,
};
use vstd::assert_seqs_equal;

/// Framing idempotence: encoding a payload under a rollover and decoding the
/// result yields a header carrying that rollover and the payload's length,
/// with a CRC that verifies against the encoded bytes.
pub proof fn lemma_framing_round_trip(p: Seq<u8>, rollover: u32)
    requires
        1 <= p.len() <= u32::MAX,
    ensures
        spec_parse_header(spec_encode(p, rollover)).rollover == rollover,
        spec_parse_header(spec_encode(p, rollover)).len == p.len(),
        spec_parse_header(spec_encode(p, rollover)).crc == crc32_of(covered_bytes(p, rollover)),
        valid_entry_bytes(spec_encode(p, rollover)),
{
    let e = spec_encode(p, rollover);
    let covered = covered_bytes(p, rollover);
    let crc = crc32_of(covered);
    lemma_num_blocks_bounds(p.len());
    lemma_u32_le_round_trip(crc);
    lemma_u32_le_round_trip(rollover);
    lemma_u32_le_round_trip(p.len() as u32);
    assert_seqs_equal!(e.subrange(0, 4) == spec_u32_le(crc));
    assert_seqs_equal!(e.subrange(4, 8) == spec_u32_le(rollover));
    assert_seqs_equal!(e.subrange(8, 12) == spec_u32_le(p.len() as u32));
    let h = spec_parse_header(e);
    assert(h.len == p.len());
    assert_seqs_equal!(e.subrange(4, HEADER_SIZE + h.len as int) == covered);
}

/// Monotone positions: two consecutive successful appends return strictly
/// increasing positions. The hypotheses are what `append` guarantees of a
/// successful call: block counts of at least one block, a head inside the
/// ring, and a rollover counter that has room wherever a wrap happens.
pub proof fn lemma_append_positions_monotone(h0: WalPosition, w1: nat, w2: nat, cap: u32)
    requires
        w1 >= 1,
        w2 >= 1,
        append_wraps(h0, w1, cap) ==> h0.rollover < u32::MAX,
        append_wraps(head_after_append(h0, w1, cap), w2, cap) ==> head_after_append(
            h0,
            w1,
            cap,
        ).rollover < u32::MAX,
        w1 <= cap,
    ensures
        pos_lt(
            append_target(h0, w1, cap),
            append_target(head_after_append(h0, w1, cap), w2, cap),
        ),
{
}

/// No spanning of the physical end: a successful append lands its entry so
/// that it ends at or before the ring's last block.
pub proof fn lemma_append_no_spanning(h0: WalPosition, w: nat, cap: u32)
    requires
        h0.offset <= cap,
        w <= cap,
    ensures
        append_target(h0, w, cap).offset + w <= cap,
{
}

/// Wrap triggers rollover: an append that would cross the physical end
/// lands at offset zero of the next rollover, and leaves the head `w`
/// blocks further.
pub proof fn lemma_wrap_rollover(h0: WalPosition, w: nat, cap: u32)
    requires
        append_wraps(h0, w, cap),
        h0.rollover < u32::MAX,
    ensures
        append_target(h0, w, cap) == (WalPosition {
            offset: 0,
            rollover: (h0.rollover + 1) as u32,
        }),
        head_after_append(h0, w, cap) == (WalPosition {
            offset: w as u32,
            rollover: (h0.rollover + 1) as u32,
        }),
{
}

/// CRC detection: an entry whose stored CRC does not match the bytes it
/// covers is reported as corrupt by iteration at its position.
pub proof fn lemma_crc_mismatch_detected(
    m: Map<u32, Seq<u8>>,
    cap: u32,
    cur: WalPosition,
    end: WalPosition,
)
    requires
        pos_lt(cur, end),
        crc32_of(
            m[cur.offset].subrange(4, HEADER_SIZE + header_at(m, cur.offset).len as int),
        ) != header_at(m, cur.offset).crc,
    ensures
        iter_step(m, cap, cur, end) is Corrupt,
{
}

/// The block offset at which the `i`-th of a run of appends lands, when the
/// run starts at the origin and never wraps: the widths of the entries
/// before it, summed.
pub open spec fn entry_offset(ps: Seq<Seq<u8>>, i: int) -> int
    decreases i,
{
    if i <= 0 {
        0
    } else {
        entry_offset(ps, i - 1) + spec_num_blocks(ps[i - 1].len())
    }
}

/// The write history after a run of appends of the payloads `ps` from a
/// fresh device at rollover zero, each entry laid right after the one
/// before: exactly what `append`'s contract builds while no append wraps.
pub open spec fn appended_model(ps: Seq<Seq<u8>>) -> Map<u32, Seq<u8>>
    decreases ps.len(),
{
    if ps.len() == 0 {
        Map::empty()
    } else {
        appended_model(ps.drop_last()).insert(
            entry_offset(ps, ps.len() - 1) as u32,
            spec_encode(ps.last(), 0),
        )
    }
}

proof fn lemma_entry_offset_prefix(ps: Seq<Seq<u8>>, i: int)
    requires
        0 <= i < ps.len(),
    ensures
        entry_offset(ps.drop_last(), i) == entry_offset(ps, i),
    decreases i,
{
    if i > 0 {
        lemma_entry_offset_prefix(ps, i - 1);
    }
}

proof fn lemma_entry_offset_monotone(ps: Seq<Seq<u8>>, i: int, j: int)
    requires
        0 <= i <= j <= ps.len(),
    ensures
        entry_offset(ps, i) <= entry_offset(ps, j),
        i < j ==> entry_offset(ps, i) < entry_offset(ps, j),
    decreases j - i,
{
    if i < j {
        lemma_num_blocks_bounds(ps[j - 1].len());
        lemma_entry_offset_monotone(ps, i, j - 1);
    }
}

proof fn lemma_appended_model_dom(ps: Seq<Seq<u8>>, k: u32)
    requires
        appended_model(ps).contains_key(k),
        entry_offset(ps, ps.len() as int) <= u32::MAX,
    ensures
        exists|j: int| 0 <= j < ps.len() && k == entry_offset(ps, j),
    decreases ps.len(),
{
    if ps.len() > 0 {
        let last = ps.len() - 1;
        lemma_entry_offset_monotone(ps, last, ps.len() as int);
        lemma_entry_offset_monotone(ps, 0, last);
        if k as int == entry_offset(ps, last) {
            assert(0 <= last < ps.len() && k == entry_offset(ps, last));
        } else {
            lemma_entry_offset_prefix(ps, last);
            lemma_appended_model_dom(ps.drop_last(), k);
            let j = choose|j: int|
                0 <= j < ps.drop_last().len() && k == entry_offset(ps.drop_last(), j);
            lemma_entry_offset_prefix(ps, j);
            assert(0 <= j < ps.len() && k == entry_offset(ps, j));
        }
    }
}

proof fn lemma_appended_model_lookup(ps: Seq<Seq<u8>>, i: int, cap: u32)
    requires
        0 <= i < ps.len(),
        entry_offset(ps, ps.len() as int) <= cap,
    ensures
        appended_model(ps).contains_key(entry_offset(ps, i) as u32),
        appended_model(ps)[entry_offset(ps, i) as u32] == spec_encode(ps[i], 0),
    decreases ps.len(),
{
    lemma_entry_offset_monotone(ps, i, ps.len() as int);
    lemma_entry_offset_monotone(ps, 0, i);
    if i == ps.len() - 1 {
    } else {
        lemma_entry_offset_monotone(ps.drop_last(), i, ps.drop_last().len() as int);
        lemma_entry_offset_prefix(ps, i);
        assert(forall|j: int|
            0 <= j < ps.drop_last().len() ==> ps.drop_last()[j] == ps[j]);
        lemma_entry_offset_prefix(ps, ps.len() - 1);
        lemma_appended_model_lookup(ps.drop_last(), i, cap);
        // The later entry sits at a strictly larger offset, so its insert
        // leaves this key alone.
        lemma_entry_offset_monotone(ps, i, ps.len() - 1);
    }
}

proof fn lemma_scan_from(ps: Seq<Seq<u8>>, cap: u32, i: int)
    requires
        0 <= i <= ps.len(),
        forall|k: int| 0 <= k < ps.len() ==> 1 <= (#[trigger] ps[k]).len() <= u32::MAX,
        forall|k: int| 0 <= k < ps.len() ==> (#[trigger] ps[k]).len() + HEADER_SIZE <= usize::MAX,
        entry_offset(ps, ps.len() as int) < cap,
    ensures
        scan_head(appended_model(ps), cap, entry_offset(ps, i) as u32, 0) == (WalPosition {
            offset: entry_offset(ps, ps.len() as int) as u32,
            rollover: 0,
        }),
    decreases ps.len() - i,
{
    let m = appended_model(ps);
    let n = ps.len() as int;
    lemma_entry_offset_monotone(ps, i, n);
    lemma_entry_offset_monotone(ps, 0, i);
    let oi = entry_offset(ps, i) as u32;
    if i == n {
        // No entry was written at the position after the last one.
        assert(!m.contains_key(oi)) by {
            if m.contains_key(oi) {
                lemma_appended_model_dom(ps, oi);
                let j = choose|j: int| 0 <= j < ps.len() && oi == entry_offset(ps, j);
                lemma_entry_offset_monotone(ps, j, n);
                lemma_entry_offset_monotone(ps, 0, j);
                lemma_entry_offset_monotone(ps, j, j + 1);
            }
        };
        lemma_parse_header_zero(read_model(m, oi, HEADER_SIZE as nat));
        assert(!entry_valid_at(m, oi));
    } else {
        let e = spec_encode(ps[i], 0);
        lemma_appended_model_lookup(ps, i, cap);
        lemma_framing_round_trip(ps[i], 0);
        lemma_num_blocks_bounds(ps[i].len());
        crate::wal::lemma_parse_agree(read_model(m, oi, HEADER_SIZE as nat), e);
        let h = header_at(m, oi);
        assert(h == spec_parse_header(e));
        assert(entry_valid_at(m, oi));
        // The next position of the scan is where the next entry landed.
        lemma_entry_offset_monotone(ps, i + 1, n);
        assert(oi + spec_num_blocks(h.len as nat) == entry_offset(ps, i + 1));
        lemma_scan_from(ps, cap, i + 1);
    }
}

/// Recovery convergence for an unwrapped log: after any run of appends at
/// rollover zero whose entries end strictly before the physical end — the
/// history `append`'s contract builds from a fresh device — recovery places
/// the head immediately after the last entry and the tail at the origin.
pub proof fn lemma_recovery_after_appends(ps: Seq<Seq<u8>>, cap: u32)
    requires
        forall|k: int| 0 <= k < ps.len() ==> 1 <= (#[trigger] ps[k]).len() <= u32::MAX,
        forall|k: int| 0 <= k < ps.len() ==> (#[trigger] ps[k]).len() + HEADER_SIZE <= usize::MAX,
        entry_offset(ps, ps.len() as int) < cap,
    ensures
        scan_head(appended_model(ps), cap, 0, 0) == (WalPosition {
            offset: entry_offset(ps, ps.len() as int) as u32,
            rollover: 0,
        }),
        spec_recovered_tail(appended_model(ps), cap) == (WalPosition { offset: 0, rollover: 0 }),
{
    lemma_scan_from(ps, cap, 0);
}

/// Iteration over an unwrapped run of appends: at the offset where the
/// `i`-th append landed, one step of iteration up to the recovered head
/// yields exactly that payload at that position, and moves the cursor to
/// where the next append landed. Together with the recovery lemma this
/// says the whole run reads back in order.
pub proof fn lemma_iteration_after_appends(ps: Seq<Seq<u8>>, cap: u32, i: int)
    requires
        forall|k: int| 0 <= k < ps.len() ==> 1 <= (#[trigger] ps[k]).len() <= u32::MAX,
        forall|k: int| 0 <= k < ps.len() ==> (#[trigger] ps[k]).len() + HEADER_SIZE <= usize::MAX,
        entry_offset(ps, ps.len() as int) < cap,
        0 <= i < ps.len(),
    ensures
        ({
            let m = appended_model(ps);
            let head = WalPosition {
                offset: entry_offset(ps, ps.len() as int) as u32,
                rollover: 0,
            };
            let here = WalPosition { offset: entry_offset(ps, i) as u32, rollover: 0 };
            let next = WalPosition { offset: entry_offset(ps, i + 1) as u32, rollover: 0 };
            iter_step(m, cap, here, head) == IterStep::Entry(here, ps[i], next)
        }),
{
    let m = appended_model(ps);
    let n = ps.len() as int;
    lemma_entry_offset_monotone(ps, 0, i);
    lemma_entry_offset_monotone(ps, i, n);
    lemma_entry_offset_monotone(ps, i, i + 1);
    lemma_entry_offset_monotone(ps, i + 1, n);
    let oi = entry_offset(ps, i) as u32;
    let e = spec_encode(ps[i], 0);
    lemma_appended_model_lookup(ps, i, cap);
    lemma_framing_round_trip(ps[i], 0);
    lemma_num_blocks_bounds(ps[i].len());
    crate::wal::lemma_parse_agree(read_model(m, oi, HEADER_SIZE as nat), e);
    let h = header_at(m, oi);
    assert(h == spec_parse_header(e));
    assert(entry_valid_at(m, oi));
    assert(oi + spec_num_blocks(h.len as nat) == entry_offset(ps, i + 1));
    assert_seqs_equal!(payload_at(m, oi) == ps[i]);
}

/// A pad-out write stops the head scan where it starts: its all-zero bytes
/// never validate as an entry, so stale entries of the previous rollover
/// behind it cannot be walked into.
pub proof fn lemma_pad_stops_scan(m: Map<u32, Seq<u8>>, cap: u32, off: u32, ro: u32)
    requires
        m.contains_key(off),
        forall|i: int| 0 <= i < m[off].len() ==> m[off][i] == 0,
    ensures
        scan_head(m, cap, off, ro) == (WalPosition { offset: off, rollover: ro }),
{
    if m[off].len() >= HEADER_SIZE {
        lemma_parse_header_zero(read_model(m, off, HEADER_SIZE as nat));
    }
    assert(!entry_valid_at(m, off));
}

/// The write history after a further run of appends of the payloads `ps`
/// over an existing history `base`, all under rollover `r`, laid head to
/// tail from the origin.
pub open spec fn run_model(base: Map<u32, Seq<u8>>, ps: Seq<Seq<u8>>, r: u32) -> Map<u32, Seq<u8>>
    decreases ps.len(),
{
    if ps.len() == 0 {
        base
    } else {
        run_model(base, ps.drop_last(), r).insert(
            entry_offset(ps, ps.len() - 1) as u32,
            spec_encode(ps.last(), r),
        )
    }
}

/// Whether the history `m` holds the `j`-th entry of the run `ps` at
/// rollover `r`, where that run laid it.
pub open spec fn run_entry_at(m: Map<u32, Seq<u8>>, ps: Seq<Seq<u8>>, r: u32, j: int) -> bool {
    m.contains_key(entry_offset(ps, j) as u32) && m[entry_offset(ps, j) as u32] == spec_encode(
        ps[j],
        r,
    )
}

proof fn lemma_run_model_lookup(
    base: Map<u32, Seq<u8>>,
    ps: Seq<Seq<u8>>,
    r: u32,
    j: int,
    cap: u32,
)
    requires
        0 <= j < ps.len(),
        entry_offset(ps, ps.len() as int) <= cap,
    ensures
        run_model(base, ps, r).contains_key(entry_offset(ps, j) as u32),
        run_model(base, ps, r)[entry_offset(ps, j) as u32] == spec_encode(ps[j], r),
    decreases ps.len(),
{
    lemma_entry_offset_monotone(ps, j, ps.len() as int);
    lemma_entry_offset_monotone(ps, 0, j);
    if j == ps.len() - 1 {
    } else {
        lemma_entry_offset_prefix(ps, j);
        lemma_entry_offset_prefix(ps, ps.len() - 1);
        assert(forall|k: int| 0 <= k < ps.drop_last().len() ==> ps.drop_last()[k] == ps[k]);
        lemma_run_model_lookup(base, ps.drop_last(), r, j, cap);
        lemma_entry_offset_monotone(ps, j, ps.len() - 1);
    }
}

proof fn lemma_run_model_untouched(base: Map<u32, Seq<u8>>, ps: Seq<Seq<u8>>, r: u32, k: u32)
    requires
        forall|j: int| 0 <= j < ps.len() ==> k as int != entry_offset(ps, j),
        entry_offset(ps, ps.len() as int) <= u32::MAX,
    ensures
        run_model(base, ps, r).contains_key(k) == base.contains_key(k),
        base.contains_key(k) ==> run_model(base, ps, r)[k] == base[k],
    decreases ps.len(),
{
    if ps.len() > 0 {
        let last = ps.len() - 1;
        lemma_entry_offset_monotone(ps, last, ps.len() as int);
        lemma_entry_offset_monotone(ps, 0, last);
        assert(k != entry_offset(ps, last) as u32);
        assert forall|j: int|
            0 <= j < ps.drop_last().len() implies k as int != entry_offset(
            ps.drop_last(),
            j,
        ) by {
            lemma_entry_offset_prefix(ps, j);
        }
        lemma_entry_offset_prefix(ps, last);
        lemma_run_model_untouched(base, ps.drop_last(), r, k);
    }
}

proof fn lemma_run_model_dom(base: Map<u32, Seq<u8>>, ps: Seq<Seq<u8>>, r: u32, k: u32)
    requires
        run_model(base, ps, r).contains_key(k),
        entry_offset(ps, ps.len() as int) <= u32::MAX,
    ensures
        base.contains_key(k) || exists|j: int| 0 <= j < ps.len() && k == entry_offset(ps, j),
    decreases ps.len(),
{
    if ps.len() > 0 {
        let last = ps.len() - 1;
        lemma_entry_offset_monotone(ps, last, ps.len() as int);
        lemma_entry_offset_monotone(ps, 0, last);
        if k as int == entry_offset(ps, last) {
            assert(0 <= last < ps.len() && k == entry_offset(ps, last));
        } else {
            lemma_entry_offset_prefix(ps, last);
            lemma_run_model_dom(base, ps.drop_last(), r, k);
            if !base.contains_key(k) {
                let j = choose|j: int|
                    0 <= j < ps.drop_last().len() && k == entry_offset(ps.drop_last(), j);
                lemma_entry_offset_prefix(ps, j);
                assert(0 <= j < ps.len() && k == entry_offset(ps, j));
            }
        }
    }
}

proof fn lemma_scan_run(
    m: Map<u32, Seq<u8>>,
    cap: u32,
    ps: Seq<Seq<u8>>,
    r: u32,
    ro: u32,
    i: int,
)
    requires
        0 <= i <= ps.len(),
        ro <= r,
        i >= 1 ==> ro == r,
        ps.len() == 0 ==> ro == r,
        forall|k: int| 0 <= k < ps.len() ==> 1 <= (#[trigger] ps[k]).len() <= u32::MAX,
        forall|k: int| 0 <= k < ps.len() ==> (#[trigger] ps[k]).len() + HEADER_SIZE <= usize::MAX,
        entry_offset(ps, ps.len() as int) < cap,
        forall|j: int| 0 <= j < ps.len() ==> #[trigger] run_entry_at(m, ps, r, j),
        !(entry_valid_at(m, entry_offset(ps, ps.len() as int) as u32) && header_at(
            m,
            entry_offset(ps, ps.len() as int) as u32,
        ).rollover >= r),
    ensures
        scan_head(m, cap, entry_offset(ps, i) as u32, ro) == (WalPosition {
            offset: entry_offset(ps, ps.len() as int) as u32,
            rollover: r,
        }),
    decreases ps.len() - i,
{
    let n = ps.len() as int;
    lemma_entry_offset_monotone(ps, i, n);
    lemma_entry_offset_monotone(ps, 0, i);
    let oi = entry_offset(ps, i) as u32;
    if i == n {
    } else {
        assert(run_entry_at(m, ps, r, i));
        lemma_framing_round_trip(ps[i], r);
        lemma_num_blocks_bounds(ps[i].len());
        crate::wal::lemma_parse_agree(
            read_model(m, oi, HEADER_SIZE as nat),
            spec_encode(ps[i], r),
        );
        let h = header_at(m, oi);
        assert(h == spec_parse_header(spec_encode(ps[i], r)));
        assert(entry_valid_at(m, oi));
        lemma_entry_offset_monotone(ps, i + 1, n);
        assert(oi + spec_num_blocks(h.len as nat) == entry_offset(ps, i + 1));
        lemma_scan_run(m, cap, ps, r, r, i + 1);
    }
}

/// Recovery convergence after a single wrap: a first run of appends fills
/// the ring up to its pad-out, a second run overwrites the front of the
/// ring under the next rollover, and `t` names the first entry of the old
/// run at or after where the second run ends. Recovery then puts the head
/// right after the second run, and the tail on that `t`-th old entry, so
/// iteration exposes the survivors of the old run followed by the new one.
pub proof fn lemma_recovery_after_wrap(ps0: Seq<Seq<u8>>, ps1: Seq<Seq<u8>>, cap: u32, t: int)
    requires
        forall|k: int| 0 <= k < ps0.len() ==> 1 <= (#[trigger] ps0[k]).len() <= u32::MAX,
        forall|k: int| 0 <= k < ps0.len() ==> (#[trigger] ps0[k]).len() + HEADER_SIZE
            <= usize::MAX,
        forall|k: int| 0 <= k < ps1.len() ==> 1 <= (#[trigger] ps1[k]).len() <= u32::MAX,
        forall|k: int| 0 <= k < ps1.len() ==> (#[trigger] ps1[k]).len() + HEADER_SIZE
            <= usize::MAX,
        ps1.len() >= 1,
        entry_offset(ps0, ps0.len() as int) <= cap,
        entry_offset(ps1, ps1.len() as int) < cap,
        0 <= t < ps0.len(),
        entry_offset(ps0, t) >= entry_offset(ps1, ps1.len() as int),
        forall|i: int| 0 <= i < t ==> entry_offset(ps0, i) < entry_offset(ps1, ps1.len() as int),
    ensures
        ({
            let m = wrap_model(ps0, ps1, cap);
            let head = WalPosition {
                offset: entry_offset(ps1, ps1.len() as int) as u32,
                rollover: 1,
            };
            &&& scan_head(m, cap, 0, 0) == head
            &&& spec_recovered_tail(m, cap) == (WalPosition {
                offset: entry_offset(ps0, t) as u32,
                rollover: 0,
            })
        }),
{
    let total0 = entry_offset(ps0, ps0.len() as int);
    let total1 = entry_offset(ps1, ps1.len() as int);
    let base = appended_model(ps0).insert(
        total0 as u32,
        zero_seq(((cap - total0) * BLOCK_SIZE) as nat),
    );
    let m = wrap_model(ps0, ps1, cap);
    let ot = entry_offset(ps0, t);
    lemma_entry_offset_monotone(ps0, t, ps0.len() as int);
    lemma_entry_offset_monotone(ps0, 0, t);
    lemma_entry_offset_monotone(ps1, 0, ps1.len() as int);

    // The new run's entries stand in the combined history.
    assert forall|j: int| 0 <= j < ps1.len() implies #[trigger] run_entry_at(m, ps1, 1, j) by {
        lemma_run_model_lookup(base, ps1, 1, j, cap);
    }

    // Whatever sits where the new run ends stops the head scan: the pad,
    // an entry of the old rollover, or nothing at all.
    assert(!(entry_valid_at(m, total1 as u32) && header_at(m, total1 as u32).rollover >= 1)) by {
        assert forall|j: int| 0 <= j < ps1.len() implies total1 != entry_offset(ps1, j) by {
            lemma_entry_offset_monotone(ps1, j, ps1.len() as int);
            lemma_entry_offset_monotone(ps1, j, j + 1);
        }
        lemma_run_model_untouched(base, ps1, 1, total1 as u32);
        if m.contains_key(total1 as u32) {
            if total1 == total0 {
                // The pad: all zeros, no valid entry.
                lemma_parse_header_zero(read_model(m, total1 as u32, HEADER_SIZE as nat));
            } else {
                // An entry of the old run, at rollover zero.
                assert(appended_model(ps0).contains_key(total1 as u32));
                lemma_appended_model_dom(ps0, total1 as u32);
                let i = choose|i: int| 0 <= i < ps0.len() && total1 as u32 == entry_offset(ps0, i);
                assert(i == t) by {
                    if i > t {
                        lemma_entry_offset_monotone(ps0, t, i);
                    }
                }
                lemma_appended_model_lookup(ps0, t, cap);
                lemma_framing_round_trip(ps0[t], 0);
                crate::wal::lemma_parse_agree(
                    read_model(m, total1 as u32, HEADER_SIZE as nat),
                    spec_encode(ps0[t], 0),
                );
            }
        } else {
            lemma_parse_header_zero(read_model(m, total1 as u32, HEADER_SIZE as nat));
        }
    };

    lemma_scan_run(m, cap, ps1, 1, 0, 0);
    assert(scan_head(m, cap, 0, 0) == (WalPosition { offset: total1 as u32, rollover: 1 }));

    // The t-th old entry survives in the combined history.
    assert forall|j: int| 0 <= j < ps1.len() implies ot != entry_offset(ps1, j) by {
        lemma_entry_offset_monotone(ps1, j, ps1.len() as int);
    }
    lemma_run_model_untouched(base, ps1, 1, ot as u32);
    lemma_appended_model_lookup(ps0, t, cap);
    assert(m[ot as u32] == spec_encode(ps0[t], 0));
    lemma_framing_round_trip(ps0[t], 0);
    crate::wal::lemma_parse_agree(read_model(m, ot as u32, HEADER_SIZE as nat), spec_encode(ps0[t], 0));
    assert(entry_valid_at(m, ot as u32) && header_at(m, ot as u32).rollover == 0);

    // Nothing between the head and the t-th old entry validates at the old
    // rollover: those blocks were never the start of any surviving write.
    assert forall|k: u32| total1 <= k < ot implies !(entry_valid_at(m, k) && header_at(
        m,
        k,
    ).rollover == 0) by {
        if m.contains_key(k) {
            lemma_run_model_dom(base, ps1, 1, k);
            if exists|j: int| 0 <= j < ps1.len() && k == entry_offset(ps1, j) {
                // k is where some new entry landed; those all lie before
                // where the new run ends.
                let j = choose|j: int| 0 <= j < ps1.len() && k == entry_offset(ps1, j);
                lemma_entry_offset_monotone(ps1, j, ps1.len() as int);
                assert(false);
            } else if k as int == total0 {
                // The pad sits past every old entry, so past ot as well.
                lemma_entry_offset_monotone(ps0, t, ps0.len() as int);
                assert(false);
            } else {
                assert(appended_model(ps0).contains_key(k));
                lemma_appended_model_dom(ps0, k);
                let i = choose|i: int| 0 <= i < ps0.len() && k == entry_offset(ps0, i);
                if i < t {
                    assert(entry_offset(ps0, i) < total1);
                } else {
                    lemma_entry_offset_monotone(ps0, t, i);
                }
                assert(false);
            }
        } else {
            lemma_parse_header_zero(read_model(m, k, HEADER_SIZE as nat));
        }
    }
    lemma_scan_tail_first_match(m, cap, total1 as u32, 0, ot as u32);
}

/// Iteration after a single wrap that filled the ring exactly, at a
/// surviving entry of the old rollover: the cursor yields that entry and
/// steps to the next old entry, wrapping past the physical end into the new
/// rollover after the last one.
pub proof fn lemma_iteration_after_wrap_old(
    ps0: Seq<Seq<u8>>,
    ps1: Seq<Seq<u8>>,
    cap: u32,
    i: int,
)
    requires
        forall|k: int| 0 <= k < ps0.len() ==> 1 <= (#[trigger] ps0[k]).len() <= u32::MAX,
        forall|k: int| 0 <= k < ps0.len() ==> (#[trigger] ps0[k]).len() + HEADER_SIZE
            <= usize::MAX,
        forall|k: int| 0 <= k < ps1.len() ==> 1 <= (#[trigger] ps1[k]).len() <= u32::MAX,
        entry_offset(ps0, ps0.len() as int) == cap,
        entry_offset(ps1, ps1.len() as int) < cap,
        0 <= i < ps0.len(),
        entry_offset(ps0, i) >= entry_offset(ps1, ps1.len() as int),
    ensures
        ({
            let m = wrap_model(ps0, ps1, cap);
            let end = WalPosition {
                offset: entry_offset(ps1, ps1.len() as int) as u32,
                rollover: 1,
            };
            iter_step(
                m,
                cap,
                WalPosition { offset: entry_offset(ps0, i) as u32, rollover: 0 },
                end,
            ) == IterStep::Entry(
                WalPosition { offset: entry_offset(ps0, i) as u32, rollover: 0 },
                ps0[i],
                if i + 1 == ps0.len() {
                    WalPosition { offset: 0, rollover: 1 }
                } else {
                    WalPosition { offset: entry_offset(ps0, i + 1) as u32, rollover: 0 }
                },
            )
        }),
{
    let m = wrap_model(ps0, ps1, cap);
    let total0 = entry_offset(ps0, ps0.len() as int);
    let base = appended_model(ps0).insert(
        total0 as u32,
        zero_seq(((cap - total0) * BLOCK_SIZE) as nat),
    );
    lemma_entry_offset_monotone(ps0, 0, i);
    lemma_entry_offset_monotone(ps0, i, i + 1);
    lemma_entry_offset_monotone(ps0, i + 1, ps0.len() as int);
    let oi = entry_offset(ps0, i);
    // The old entry survives the new run, which ends at or before it.
    assert forall|j: int| 0 <= j < ps1.len() implies oi != entry_offset(ps1, j) by {
        lemma_entry_offset_monotone(ps1, j, ps1.len() as int);
    }
    lemma_run_model_untouched(base, ps1, 1, oi as u32);
    lemma_appended_model_lookup(ps0, i, cap);
    assert(m[oi as u32] == spec_encode(ps0[i], 0));
    lemma_framing_round_trip(ps0[i], 0);
    lemma_num_blocks_bounds(ps0[i].len());
    crate::wal::lemma_parse_agree(
        read_model(m, oi as u32, HEADER_SIZE as nat),
        spec_encode(ps0[i], 0),
    );
    assert(entry_valid_at(m, oi as u32));
    assert(oi + spec_num_blocks(ps0[i].len()) == entry_offset(ps0, i + 1));
    assert_seqs_equal!(payload_at(m, oi as u32) == ps0[i]);
}

/// Iteration after a single wrap, at an entry of the new rollover: the
/// cursor yields that entry and steps to the one after it; at the head the
/// step is done. With the wrapped recovery lemma and the step above, the
/// whole surviving log reads back in strict position order.
pub proof fn lemma_iteration_after_wrap_new(
    ps0: Seq<Seq<u8>>,
    ps1: Seq<Seq<u8>>,
    cap: u32,
    j: int,
)
    requires
        forall|k: int| 0 <= k < ps0.len() ==> 1 <= (#[trigger] ps0[k]).len() <= u32::MAX,
        forall|k: int| 0 <= k < ps1.len() ==> 1 <= (#[trigger] ps1[k]).len() <= u32::MAX,
        forall|k: int| 0 <= k < ps1.len() ==> (#[trigger] ps1[k]).len() + HEADER_SIZE
            <= usize::MAX,
        entry_offset(ps0, ps0.len() as int) <= cap,
        entry_offset(ps1, ps1.len() as int) < cap,
        0 <= j < ps1.len(),
    ensures
        ({
            let m = wrap_model(ps0, ps1, cap);
            let end = WalPosition {
                offset: entry_offset(ps1, ps1.len() as int) as u32,
                rollover: 1,
            };
            &&& iter_step(
                m,
                cap,
                WalPosition { offset: entry_offset(ps1, j) as u32, rollover: 1 },
                end,
            ) == IterStep::Entry(
                WalPosition { offset: entry_offset(ps1, j) as u32, rollover: 1 },
                ps1[j],
                WalPosition { offset: entry_offset(ps1, j + 1) as u32, rollover: 1 },
            )
            &&& iter_step(m, cap, end, end) == IterStep::Done
        }),
{
    let m = wrap_model(ps0, ps1, cap);
    let total0 = entry_offset(ps0, ps0.len() as int);
    let base = appended_model(ps0).insert(
        total0 as u32,
        zero_seq(((cap - total0) * BLOCK_SIZE) as nat),
    );
    lemma_entry_offset_monotone(ps1, 0, j);
    lemma_entry_offset_monotone(ps1, j, j + 1);
    lemma_entry_offset_monotone(ps1, j + 1, ps1.len() as int);
    let qj = entry_offset(ps1, j);
    lemma_run_model_lookup(base, ps1, 1, j, cap);
    assert(m[qj as u32] == spec_encode(ps1[j], 1));
    lemma_framing_round_trip(ps1[j], 1);
    lemma_num_blocks_bounds(ps1[j].len());
    crate::wal::lemma_parse_agree(
        read_model(m, qj as u32, HEADER_SIZE as nat),
        spec_encode(ps1[j], 1),
    );
    assert(entry_valid_at(m, qj as u32));
    assert(qj + spec_num_blocks(ps1[j].len()) == entry_offset(ps1, j + 1));
    assert_seqs_equal!(payload_at(m, qj as u32) == ps1[j]);
}

/// The write history after a first run `ps0` at rollover zero, the pad-out
/// that fills the rest of the ring with zeros, and a second run `ps1` at
/// rollover one laid again from the origin.
pub open spec fn wrap_model(ps0: Seq<Seq<u8>>, ps1: Seq<Seq<u8>>, cap: u32) -> Map<u32, Seq<u8>> {
    let total0 = entry_offset(ps0, ps0.len() as int);
    run_model(
        appended_model(ps0).insert(total0 as u32, zero_seq(((cap - total0) * BLOCK_SIZE) as nat)),
        ps1,
        1,
    )
}

proof fn lemma_scan_tail_reaches(
    m: Map<u32, Seq<u8>>,
    cap: u32,
    off: u32,
    start: u32,
    want: u32,
    o: u32,
)
    requires
        off <= o < cap,
        entry_valid_at(m, o),
        header_at(m, o).rollover == want,
        forall|k: u32|
            off <= k < o ==> !(entry_valid_at(m, k) && header_at(m, k).rollover == want),
    ensures
        scan_tail(m, cap, off, start, want) == o,
    decreases o - off,
{
    if off < o {
        lemma_scan_tail_reaches(m, cap, (off + 1) as u32, start, want, o);
    }
}

/// The tail scan finds the first block at or after the head's offset that
/// holds a valid entry of the previous rollover, skipping everything else.
pub proof fn lemma_scan_tail_first_match(
    m: Map<u32, Seq<u8>>,
    cap: u32,
    start: u32,
    want: u32,
    o: u32,
)
    requires
        start <= o < cap,
        entry_valid_at(m, o),
        header_at(m, o).rollover == want,
        forall|k: u32|
            start <= k < o ==> !(entry_valid_at(m, k) && header_at(m, k).rollover == want),
    ensures
        scan_tail(m, cap, start, start, want) == o,
{
    lemma_scan_tail_reaches(m, cap, start, start, want, o);
}

/// When no block from `off` to the physical end holds a valid entry of the
/// wanted rollover, the tail scan falls back to where it started.
pub proof fn lemma_scan_tail_none(m: Map<u32, Seq<u8>>, cap: u32, off: u32, start: u32, want: u32)
    requires
        forall|k: u32|
            off <= k < cap ==> !(entry_valid_at(m, k) && header_at(m, k).rollover == want),
    ensures
        scan_tail(m, cap, off, start, want) == start,
    decreases cap - off,
{
    if off < cap {
        lemma_scan_tail_none(m, cap, (off + 1) as u32, start, want);
    }
}

/// Round trip of a single entry: on a fresh device, appending a payload that
/// fits strictly inside the ring stores exactly one encoded entry at the
/// origin (this is what `append`'s contract says of a head at the origin);
/// recovery over that history puts the head right after the entry and the
/// tail at the origin; and iteration from tail to head yields exactly the
/// payload at the position the append returned, then ends.
pub proof fn lemma_single_entry_round_trip(p: Seq<u8>, cap: u32)
    requires
        1 <= p.len() <= u32::MAX,
        p.len() + HEADER_SIZE <= usize::MAX,
        spec_num_blocks(p.len()) < cap,
    ensures
        ({
            let origin = WalPosition { offset: 0, rollover: 0 };
            let w = spec_num_blocks(p.len());
            let m1 = Map::<u32, Seq<u8>>::empty().insert(0, spec_encode(p, 0));
            let head = scan_head(m1, cap, 0, 0);
            &&& !append_wraps(origin, w, cap)
            &&& append_target(origin, w, cap) == origin
            &&& head == (WalPosition { offset: w as u32, rollover: 0 })
            &&& head == head_after_append(origin, w, cap)
            &&& spec_recovered_tail(m1, cap) == origin
            &&& iter_step(m1, cap, origin, head) == IterStep::Entry(origin, p, head)
            &&& iter_step(m1, cap, head, head) == IterStep::Done
        }),
{
    let origin = WalPosition { offset: 0, rollover: 0 };
    let w = spec_num_blocks(p.len());
    let e = spec_encode(p, 0);
    let m1 = Map::<u32, Seq<u8>>::empty().insert(0, e);
    lemma_num_blocks_bounds(p.len());
    lemma_framing_round_trip(p, 0);

    // The header stored at the origin is the encoded header.
    assert(read_model(m1, 0, HEADER_SIZE as nat) == e.subrange(0, HEADER_SIZE as int));
    crate::wal::lemma_parse_agree(e.subrange(0, HEADER_SIZE as int), e);
    let h = header_at(m1, 0);
    assert(h == spec_parse_header(e));
    assert(entry_valid_at(m1, 0));

    // Phase A walks the entry, then stops on the zeroed block after it.
    let wu = w as u32;
    assert(!m1.contains_key(wu));
    lemma_parse_header_zero(read_model(m1, wu, HEADER_SIZE as nat));
    assert(!entry_valid_at(m1, wu));
    assert(scan_head(m1, cap, wu, 0) == (WalPosition { offset: wu, rollover: 0 }));
    assert(scan_head(m1, cap, 0, 0) == (WalPosition { offset: wu, rollover: 0 }));

    // Iteration yields the payload back.
    assert_seqs_equal!(payload_at(m1, 0) == p);
    let head = scan_head(m1, cap, 0, 0);
    assert(iter_step(m1, cap, origin, head) == IterStep::Entry(origin, p, head));
}

} // verus!
