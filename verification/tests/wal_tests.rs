use wal::{MemDevice, PersistentDevice, Wal, WalPosition};

fn pos(rollover: u32, offset: u32) -> WalPosition {
    WalPosition { offset, rollover }
}

#[test]
fn s1_fresh_open() {
    let wal = Wal::open(MemDevice::new(64), 64).unwrap();
    assert_eq!(wal.head(), pos(0, 0));
    assert_eq!(wal.tail(), pos(0, 0));
    let mut it = wal.iterate();
    assert!(it.next().is_none());
}

#[test]
fn s2_single_small_append() {
    let mut wal = Wal::open(MemDevice::new(64), 64).unwrap();
    let p = wal.append(&[0x01, 0x02, 0x03]).unwrap();
    assert_eq!(p, pos(0, 0));
    assert_eq!(wal.process_completions(), vec![pos(0, 0)]);

    // Reopen over the same device contents
    let dev = wal.close();
    let wal = Wal::open(dev, 64).unwrap();
    let mut it = wal.iterate();
    let (rp, data) = it.next().unwrap().unwrap();
    assert_eq!(rp, p);
    assert_eq!(data, vec![0x01, 0x02, 0x03]);
    assert!(it.next().is_none());
}

#[test]
fn s3_wrap_triggers_rollover() {
    // Capacity four blocks: two one-block entries, then a three-block entry
    // that cannot fit in the two blocks left, so the ring pads out from
    // offset 2 and the entry lands at the start of the next rollover.
    let mut wal = Wal::open(MemDevice::new(4), 4).unwrap();
    let p1 = wal.append(&vec![0x11u8; 3000]).unwrap();
    let p2 = wal.append(&vec![0x22u8; 3000]).unwrap();
    let p3 = wal.append(&vec![0x33u8; 10000]).unwrap();
    assert_eq!(p1, pos(0, 0));
    assert_eq!(p2, pos(0, 1));
    assert_eq!(p3, pos(1, 0));
    assert_eq!(wal.head(), pos(1, 3));

    // The pad-out write is not reported as a completion.
    assert_eq!(wal.process_completions(), vec![p1, p2, p3]);
}

#[test]
fn s4_crc_corruption_empties_the_log() {
    let mut wal = Wal::open(MemDevice::new(64), 64).unwrap();
    wal.append(&[0x01, 0x02, 0x03]).unwrap();
    wal.process_completions();
    let mut dev = wal.close();

    // Flip the byte at offset 4 of the entry (inside the rollover field):
    // the stored CRC no longer matches.
    let mut block = dev.read(0, 4096).unwrap();
    block[4] ^= 0xFF;
    dev.write(pos(0, 0), wal::AlignedSlice::from_vec(block), false)
        .unwrap();

    let wal = Wal::open(dev, 64).unwrap();
    assert_eq!(wal.head(), pos(0, 0));
    assert_eq!(wal.tail(), pos(0, 0));
    let mut it = wal.iterate();
    assert!(it.next().is_none());
}

#[test]
fn s5_recovery_after_rollover() {
    // Nine one-block entries in a ring of eight: the ninth wraps.
    let mut wal = Wal::open(MemDevice::new(8), 8).unwrap();
    for i in 0..9u8 {
        let p = wal.append(&vec![i + 1; 100]).unwrap();
        if i < 8 {
            assert_eq!(p, pos(0, i as u32));
        } else {
            assert_eq!(p, pos(1, 0));
        }
    }
    assert_eq!(wal.head(), pos(1, 1));
    wal.process_completions();
    let dev = wal.close();

    let wal = Wal::open(dev, 8).unwrap();
    assert_eq!(wal.head(), pos(1, 1));
    assert_eq!(wal.tail(), pos(0, 1));

    // Iteration yields the surviving entries in strict position order: the
    // tail side of the previous rollover, then the newest entry at the
    // start of the current one.
    let mut it = wal.iterate();
    let mut seen = Vec::new();
    while let Some(e) = it.next() {
        seen.push(e.unwrap());
    }
    let expected: Vec<(WalPosition, u8)> = vec![
        (pos(0, 1), 2),
        (pos(0, 2), 3),
        (pos(0, 3), 4),
        (pos(0, 4), 5),
        (pos(0, 5), 6),
        (pos(0, 6), 7),
        (pos(0, 7), 8),
        (pos(1, 0), 9),
    ];
    assert_eq!(seen.len(), expected.len());
    for ((rp, data), (ep, marker)) in seen.iter().zip(expected.iter()) {
        assert_eq!(rp, ep);
        assert_eq!(data, &vec![*marker; 100]);
    }
}

#[test]
fn iteration_stops_at_a_pad_out() {
    // Four one-block entries, then a three-block entry that pads out the
    // last two blocks and wraps. Iteration from the recovered tail yields
    // the surviving old entry, then reports the pad as invalid data: a pad
    // block never validates as an entry.
    let mut wal = Wal::open(MemDevice::new(6), 6).unwrap();
    for i in 0..4u8 {
        wal.append(&vec![i + 1; 100]).unwrap();
    }
    let p5 = wal.append(&vec![0x55u8; 10000]).unwrap();
    assert_eq!(p5, pos(1, 0));
    wal.process_completions();
    let dev = wal.close();

    let wal = Wal::open(dev, 6).unwrap();
    assert_eq!(wal.head(), pos(1, 3));
    assert_eq!(wal.tail(), pos(0, 3));
    let mut it = wal.iterate();
    let (rp, data) = it.next().unwrap().unwrap();
    assert_eq!(rp, pos(0, 3));
    assert_eq!(data, vec![4u8; 100]);
    assert!(it.next().unwrap().is_err());
}

#[test]
fn monotone_positions_across_appends() {
    let mut wal = Wal::open(MemDevice::new(8), 8).unwrap();
    let mut last: Option<WalPosition> = None;
    for i in 0..20u8 {
        let p = wal.append(&vec![i; 2000]).unwrap();
        if let Some(prev) = last {
            assert!(prev < p);
        }
        last = Some(p);
    }
}

#[test]
fn appended_entries_never_span_the_physical_end() {
    let mut wal = Wal::open(MemDevice::new(5), 5).unwrap();
    for i in 0..12u8 {
        // Two-block entries in a five-block ring exercise the wrap.
        let p = wal.append(&vec![i; 5000]).unwrap();
        assert!(p.offset + 2 <= 5);
    }
}

#[test]
fn entry_reaching_the_physical_end_is_not_walked_past() {
    // Recovery stops at the physical end without moving past an entry that
    // reaches it, so an entry filling the whole ring is appended fine but
    // not exposed again after a reopen.
    let mut wal = Wal::open(MemDevice::new(1), 1).unwrap();
    let p = wal.append(&[0x42]).unwrap();
    assert_eq!(p, pos(0, 0));
    assert_eq!(wal.process_completions(), vec![p]);
    let dev = wal.close();

    let wal = Wal::open(dev, 1).unwrap();
    assert_eq!(wal.head(), pos(0, 0));
    let mut it = wal.iterate();
    assert!(it.next().is_none());
}

#[test]
fn truncate_moves_the_tail_forward_only() {
    let mut wal = Wal::open(MemDevice::new(64), 64).unwrap();
    let p1 = wal.append(&[1]).unwrap();
    let p2 = wal.append(&[2]).unwrap();
    let p3 = wal.append(&[3]).unwrap();
    wal.truncate(p2);
    assert_eq!(wal.tail(), p2);

    // Moving backwards is a no-op.
    wal.truncate(p1);
    assert_eq!(wal.tail(), p2);

    // Iteration now starts at the new tail.
    let mut it = wal.iterate();
    let (rp, data) = it.next().unwrap().unwrap();
    assert_eq!(rp, p2);
    assert_eq!(data, vec![2]);
    let (rp, data) = it.next().unwrap().unwrap();
    assert_eq!(rp, p3);
    assert_eq!(data, vec![3]);
    assert!(it.next().is_none());
}

#[test]
fn completions_are_reported_exactly_once() {
    let mut wal = Wal::open(MemDevice::new(64), 64).unwrap();
    let p1 = wal.append(&[1]).unwrap();
    let p2 = wal.append(&[2]).unwrap();
    assert_eq!(wal.process_completions(), vec![p1, p2]);
    assert!(wal.process_completions().is_empty());
    let p3 = wal.append(&[3]).unwrap();
    assert_eq!(wal.process_completions(), vec![p3]);
}
