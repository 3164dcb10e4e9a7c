use wal::{
    decode_header, encode, AlignedSlice, EntryHeader, MemDevice, PersistentDevice, WalError,
    WalIterator, WalPosition,
};

fn pos(rollover: u32, offset: u32) -> WalPosition {
    WalPosition { offset, rollover }
}

#[test]
fn framing_round_trip() {
    let buf = encode(&[0x01, 0x02, 0x03], 7);
    let v = buf.into_vec();
    assert_eq!(v.len(), 4096);
    let h = decode_header(&v);
    assert_eq!(h.rollover, 7);
    assert_eq!(h.len, 3);
    // The stored CRC verifies against the encoded bytes.
    assert_eq!(h.crc, crc32fast::hash(&v[4..15]));
    // The payload sits right after the header, zero padding after it.
    assert_eq!(&v[12..15], &[0x01, 0x02, 0x03]);
    assert!(v[15..].iter().all(|&b| b == 0));
}

#[test]
fn header_crc_uses_ieee_polynomial() {
    // A fixed vector pins the polynomial: CRC-32 (IEEE, reflected) of
    // "123456789" is 0xCBF43926.
    assert_eq!(crc32fast::hash(b"123456789"), 0xCBF43926);
    let buf = encode(b"123456789", 0);
    let v = buf.into_vec();
    let h = decode_header(&v);
    // The CRC covers rollover, length and payload, not just the payload.
    let mut covered = Vec::new();
    covered.extend_from_slice(&0u32.to_le_bytes());
    covered.extend_from_slice(&9u32.to_le_bytes());
    covered.extend_from_slice(b"123456789");
    assert_eq!(h.crc, crc32fast::hash(&covered));
}

#[test]
fn num_blocks_rounds_up_to_whole_blocks() {
    let h = |len: u32| EntryHeader {
        crc: 0,
        rollover: 0,
        len,
    };
    assert_eq!(h(1).num_blocks(), 1);
    assert_eq!(h(4084).num_blocks(), 1); // header + payload == 4096 exactly
    assert_eq!(h(4085).num_blocks(), 2);
    assert_eq!(h(8180).num_blocks(), 2);
    assert_eq!(h(8181).num_blocks(), 3);
}

#[test]
fn byte_offset_is_blocks_times_block_size() {
    assert_eq!(pos(9, 3).byte_offset(), 3 * 4096);
    assert_eq!(pos(0, 0).byte_offset(), 0);
}

#[test]
fn position_order_is_lexicographic() {
    assert!(pos(0, 5) < pos(1, 0));
    assert!(pos(1, 0) < pos(1, 1));
    assert!(pos(2, 0) > pos(1, 9));
    assert!(pos(1, 1) == pos(1, 1));
    assert!(!(pos(1, 1) < pos(1, 1)));
}

fn device_with_entry(payload: &[u8], corrupt_at: Option<usize>) -> MemDevice {
    let mut v = encode(payload, 0).into_vec();
    if let Some(i) = corrupt_at {
        v[i] ^= 0x01; // flip a single bit
    }
    let mut dev = MemDevice::new(64);
    dev.write(pos(0, 0), AlignedSlice::from_vec(v), false).unwrap();
    dev
}

#[test]
fn single_bit_flips_are_detected_as_invalid_data() {
    // Flipping one bit anywhere in the CRC-covered region (bytes 4 through
    // the end of the payload), or in the stored CRC itself, makes the
    // iterator report invalid data at that entry.
    let payload = [0x10u8, 0x20, 0x30, 0x40, 0x50];
    for i in 0..(12 + payload.len()) {
        let dev = device_with_entry(&payload, Some(i));
        let mut it = WalIterator::new(&dev, pos(0, 0), pos(0, 1), 64);
        let r = it.next();
        if i == 10 || i == 11 {
            // A flip in the high bytes of the length field makes the entry
            // claim more bytes than the write holds: the read fails and
            // iteration ends without yielding the entry.
            assert!(r.is_none(), "bit flip at byte {i} yielded {r:?}");
        } else {
            match r.unwrap() {
                Err(WalError::InvalidData) => {},
                other => panic!("bit flip at byte {i} was not detected: {other:?}"),
            }
        }
    }

    // The intact entry reads back fine.
    let dev = device_with_entry(&payload, None);
    let mut it = WalIterator::new(&dev, pos(0, 0), pos(0, 1), 64);
    let (p, data) = it.next().unwrap().unwrap();
    assert_eq!(p, pos(0, 0));
    assert_eq!(data, payload.to_vec());
    assert!(it.next().is_none());
}

#[test]
fn zero_length_header_is_invalid_during_iteration() {
    // An uninitialized block inside the iteration range is invalid data.
    let dev = MemDevice::new(64);
    let mut it = WalIterator::new(&dev, pos(0, 0), pos(0, 5), 64);
    match it.next().unwrap() {
        Err(WalError::InvalidData) => {},
        other => panic!("zero-length header was accepted: {other:?}"),
    }
}
