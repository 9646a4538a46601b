use blockchain_store::engine::{bytes_eq, Engine};
use blockchain_store::index::hash_key;
use blockchain_store::types::{
    decode_offset, decode_size, encode_offset, encode_size, ByteCursor, DbError, Offset, OffsetReader, U24, MASK48,
    PAGE_SIZE,
};

#[test]
fn offset_round_trip_masks_high_bits() {
    let v: u64 = 0x1234_5678_9abc_def0;
    let bytes = encode_offset(v & MASK48);
    assert_eq!(bytes, vec![0x56, 0x78, 0x9a, 0xbc, 0xde, 0xf0]);
    let o = decode_offset(&bytes).unwrap();
    assert_eq!(o.as_u64(), 0x5678_9abc_def0);
    assert_eq!(encode_offset(v), bytes);
}

#[test]
fn offset_round_trip_edges() {
    for v in [0u64, 1, 255, 256, MASK48, u64::MAX] {
        let o = decode_offset(&encode_offset(v & MASK48)).unwrap();
        assert_eq!(o.as_u64(), v & MASK48);
    }
}

#[test]
fn decode_offset_rejects_short_input() {
    assert_eq!(decode_offset(&[1, 2, 3, 4, 5]), Err(DbError::Format));
    assert_eq!(decode_offset(&[]), Err(DbError::Format));
}

#[test]
fn decode_offset_reads_first_six_bytes() {
    let o = decode_offset(&[0, 0, 0, 0, 1, 0, 9, 9]).unwrap();
    assert_eq!(o.as_u64(), 256);
}

#[test]
fn offset_from_truncates() {
    assert_eq!(Offset::from(u64::MAX).as_u64(), MASK48);
    assert_eq!(Offset::new(0x1_0000_0000_0005).as_u64(), 5);
}

#[test]
fn offset_to_vec_is_big_endian() {
    assert_eq!(Offset::new(0x0102_0304_0506).to_vec(), vec![1, 2, 3, 4, 5, 6]);
}

#[test]
fn size_round_trip() {
    for s in [0usize, 1, 300, 0xffff, 0xff_ffff] {
        let b = encode_size(s).unwrap();
        assert_eq!(b.len(), 3);
        assert_eq!(decode_size(&b).unwrap(), s);
    }
    assert_eq!(encode_size(300).unwrap(), vec![0, 1, 0x2c]);
}

#[test]
fn size_over_24_bits_is_refused() {
    assert_eq!(encode_size(0x100_0000), Err(DbError::Capacity));
    assert_eq!(encode_size(usize::MAX), Err(DbError::Capacity));
}

#[test]
fn decode_size_rejects_short_input() {
    assert_eq!(decode_size(&[1, 2]), Err(DbError::Format));
}

#[test]
fn u24_masks_and_serializes() {
    let s = U24::new(0x1234_5678);
    assert_eq!(s.as_usize(), 0x34_5678);
    assert_eq!(U24::from(0x1ff_ffffusize).as_usize(), 0xff_ffff);
    let mut buf = [9u8; 5];
    s.serialize(&mut buf);
    assert_eq!(buf, [0x34, 0x56, 0x78, 9, 9]);
    assert_eq!(U24::from_slice(&buf).unwrap().as_usize(), 0x34_5678);
    assert_eq!(U24::from_slice(&buf[..2]), Err(DbError::Format));
}

#[test]
fn page_arithmetic() {
    let o = Offset::new(5000);
    assert_eq!(PAGE_SIZE, 4096);
    assert_eq!(o.this_page().as_u64(), 4096);
    assert_eq!(o.next_page().as_u64(), 8192);
    assert_eq!(o.page_number(), 1);
    assert_eq!(o.in_page_pos(), 904);
    let p = Offset::new(8192);
    assert_eq!(p.this_page().as_u64(), 8192);
    assert_eq!(p.next_page().as_u64(), 12288);
    assert_eq!(p.in_page_pos(), 0);
}

#[test]
fn page_arithmetic_bounds_hold_on_samples() {
    for v in [0u64, 1, 4095, 4096, 4097, 123_456_789, MASK48 - 2 * PAGE_SIZE] {
        let o = Offset::new(v);
        assert!(o.this_page().as_u64() <= v);
        assert!(v < o.next_page().as_u64());
        assert_eq!(o.next_page().as_u64() - o.this_page().as_u64(), PAGE_SIZE);
    }
}

#[test]
fn next_page_below_the_last_page() {
    let o = Offset::new(MASK48 - PAGE_SIZE);
    assert_eq!(o.next_page().as_u64(), MASK48 + 1 - PAGE_SIZE);
    assert!(o.as_u64() < o.next_page().as_u64());
    assert_eq!(Offset::new(MASK48).page_number(), MASK48 / PAGE_SIZE);
}

#[test]
fn from_impls_mask_and_encode() {
    assert_eq!(Offset::from(338u64).to_vec(), vec![0, 0, 0, 0, 0x01, 0x52]);
    assert_eq!(Offset::from(0x0102_0304_0506_0708u64).to_vec(), vec![3, 4, 5, 6, 7, 8]);
    let o = Offset::from(2 * PAGE_SIZE + 7);
    assert_eq!(o.page_number(), 2);
    assert_eq!(o.in_page_pos(), 7);
    assert_eq!(Offset::from(o.as_u64()), o);
    let mut buf = [0u8; 3];
    U24::from(32usize).serialize(&mut buf);
    assert_eq!(buf, [0, 0, 0x20]);
    U24::from(300usize).serialize(&mut buf);
    assert_eq!(buf, [0, 1, 0x2c]);
    assert_eq!(U24::from_slice(&buf).unwrap(), U24::from(300usize));
}

#[test]
fn cursor_reads_offsets_in_order() {
    let mut c = ByteCursor::new(vec![0, 0, 0, 0, 0, 7, 0, 0, 0, 0, 1, 0, 42]);
    assert_eq!(c.read_offset().unwrap().as_u64(), 7);
    assert_eq!(c.read_offset().unwrap().as_u64(), 256);
    assert_eq!(c.read_offset(), Err(DbError::Format));
}

#[test]
fn hash_and_compare() {
    assert_eq!(hash_key(&[]), 0);
    assert_eq!(hash_key(&[1, 2]), 259);
    assert!(bytes_eq(&[1, 2, 3], &[1, 2, 3]));
    assert!(!bytes_eq(&[1, 2, 3], &[1, 2, 4]));
    assert!(!bytes_eq(&[1, 2], &[1, 2, 3]));
}

#[test]
fn get_missing_key_is_none() {
    let mut e = Engine::new(16).unwrap();
    assert_eq!(e.get(b"absent").unwrap(), None);
    e.put(b"k", b"v").unwrap();
    assert_eq!(e.get(b"absent").unwrap(), None);
    assert_eq!(e.get(b"k").unwrap(), Some(b"v".to_vec()));
}

#[test]
fn second_put_of_a_key_wins() {
    let mut e = Engine::new(8).unwrap();
    e.put(b"key", b"first").unwrap();
    e.put(b"other", b"x").unwrap();
    e.put(b"key", b"second").unwrap();
    assert_eq!(e.get(b"key").unwrap(), Some(b"second".to_vec()));
    assert_eq!(e.get(b"other").unwrap(), Some(b"x".to_vec()));
}

#[test]
fn colliding_keys_resolve_in_one_bucket() {
    let mut e = Engine::new(1).unwrap();
    for i in 0u8..50 {
        e.put(&[i, i, 7], &[i; 10]).unwrap();
    }
    for i in 0u8..50 {
        assert_eq!(e.get(&[i, i, 7]).unwrap(), Some(vec![i; 10]));
    }
    assert_eq!(e.get(&[200, 200, 7]).unwrap(), None);
}

#[test]
fn restart_after_batch_keeps_values() {
    let mut e = Engine::new(64).unwrap();
    for i in 0u32..200 {
        e.put(&i.to_be_bytes(), &(i * 3).to_be_bytes()).unwrap();
    }
    let c = e.batch();
    assert_eq!(c.start, 0);
    let disk = e.durable_log();
    assert_eq!(c.data, disk);
    let r = Engine::recover(&c.header, &disk, 64).unwrap();
    for i in 0u32..200 {
        assert_eq!(r.get(&i.to_be_bytes()).unwrap(), Some((i * 3).to_be_bytes().to_vec()));
        assert_eq!(e.get(&i.to_be_bytes()).unwrap(), r.get(&i.to_be_bytes()).unwrap());
    }
}

#[test]
fn durable_scenario_with_crash_before_second_batch() {
    let key = [0x01u8; 32];
    let mut e = Engine::new(1024).unwrap();
    e.put(&key, &[0u8; 300]).unwrap();
    let c = e.batch();
    assert_eq!(e.get(&key).unwrap(), Some(vec![0u8; 300]));
    let mut disk = c.data.clone();
    let header = c.header.clone();
    e.put(&key, &[0xffu8; 300]).unwrap();
    assert_eq!(e.get(&key).unwrap(), Some(vec![0xffu8; 300]));
    let r = Engine::recover(&header, &disk, 1024).unwrap();
    assert_eq!(r.get(&key).unwrap(), Some(vec![0u8; 300]));
    // pages of an unfinished batch past the recorded end are ignored
    disk.extend_from_slice(&[0xffu8; 100]);
    let r2 = Engine::recover(&header, &disk, 1024).unwrap();
    assert_eq!(r2.get(&key).unwrap(), Some(vec![0u8; 300]));
}

#[test]
fn batch_hands_out_from_the_page_of_the_old_end() {
    let mut e = Engine::new(4).unwrap();
    e.put(&[1], &[0u8; 5000]).unwrap();
    let c1 = e.batch();
    assert_eq!(c1.start, 0);
    assert_eq!(c1.data.len(), 5007);
    assert_eq!(c1.header, vec![0, 0, 0, 0, 0x13, 0x8f]);
    e.put(&[2], &[1u8; 10]).unwrap();
    let c2 = e.batch();
    assert_eq!(c2.start, 4096);
    assert_eq!(c2.data.len(), 5007 + 17 - 4096);
    assert_eq!(c2.header, encode_offset(5024));
}

#[test]
fn record_bytes_on_disk() {
    let mut e = Engine::new(2).unwrap();
    e.put(&[0xaa], &[0xbb, 0xcc]).unwrap();
    e.batch();
    assert_eq!(e.durable_log(), vec![0, 0, 1, 0xaa, 0, 0, 2, 0xbb, 0xcc]);
}

#[test]
fn durable_log_stops_at_last_batch() {
    let mut e = Engine::new(2).unwrap();
    e.put(&[1], &[2]).unwrap();
    e.batch();
    e.put(&[3], &[4]).unwrap();
    assert_eq!(e.durable_log(), vec![0, 0, 1, 1, 0, 0, 1, 2]);
}

#[test]
fn zero_buckets_is_refused() {
    assert!(matches!(Engine::new(0), Err(DbError::Capacity)));
    assert!(matches!(Engine::recover(&[0; 6], &[], 0), Err(DbError::Capacity)));
}

#[test]
fn oversized_value_is_refused() {
    let mut e = Engine::new(2).unwrap();
    let big = vec![0u8; 0x100_0000];
    assert_eq!(e.put(b"k", &big), Err(DbError::Capacity));
    assert_eq!(e.get(b"k").unwrap(), None);
    assert_eq!(e.put(&big, b"v"), Err(DbError::Capacity));
}

#[test]
fn recover_errors() {
    assert!(matches!(Engine::recover(&[0, 0, 0], &[], 4), Err(DbError::Format)));
    assert!(matches!(Engine::recover(&encode_offset(10), &[0; 5], 4), Err(DbError::CorruptRecord)));
    // a key length that runs past the recorded end
    assert!(matches!(Engine::recover(&encode_offset(5), &[0, 0, 9, 1, 2], 4), Err(DbError::CorruptRecord)));
    let empty = Engine::recover(&encode_offset(0), &[1, 2, 3], 4).unwrap();
    assert_eq!(empty.get(&[1]).unwrap(), None);
}
