use skv::config::PAGE_SIZE;
use skv::meta::Metadata;
use skv::pagedata::PageData;
use skv::wal::{replay_wal, wal_page_record, wal_trailer};

fn page_with(fill: u8) -> PageData {
    let mut p = PageData::new();
    for i in 0..PAGE_SIZE {
        p.data[i] = fill.wrapping_add((i % 251) as u8);
    }
    p
}

#[test]
fn wal_page_record_layout() {
    let p = page_with(7);
    let r = wal_page_record(3, &p);
    assert_eq!(r.len(), 4 + PAGE_SIZE);
    assert_eq!(&r[0..4], &[0u8, 0, 0, 3]);
    assert_eq!(&r[4..], &p.data[..]);
}

#[test]
fn wal_trailer_layout_and_crc() {
    let meta = Metadata { free: 9, size: 5, root: 2, height: 1 };
    let t = wal_trailer(&meta, 0xDEAD_BEEF);
    assert_eq!(t.len(), 24);
    assert_eq!(&t[0..4], &[0u8, 0, 0, 0]);
    assert_eq!(&t[4..8], &9u32.to_be_bytes());
    assert_eq!(&t[8..12], &5u32.to_be_bytes());
    assert_eq!(&t[12..16], &2u32.to_be_bytes());
    assert_eq!(&t[16..20], &1u32.to_be_bytes());
    let crc = crc32c::crc32c_append(0xDEAD_BEEF, &t[0..20]);
    assert_eq!(&t[20..24], &crc.to_be_bytes());
}

#[test]
fn replay_of_empty_log_applies_nothing() {
    let (writes, meta) = replay_wal(&[]);
    assert!(writes.is_empty());
    assert!(meta.is_none());
}

#[test]
fn replay_applies_a_sealed_batch() {
    let p1 = page_with(1);
    let p2 = page_with(2);
    let meta = Metadata { free: 0, size: 3, root: 1, height: 1 };
    let r1 = wal_page_record(1, &p1);
    let r2 = wal_page_record(2, &p2);
    let mut tx_crc = 0u32;
    tx_crc = crc32c::crc32c_append(tx_crc, &r1);
    tx_crc = crc32c::crc32c_append(tx_crc, &r2);
    let trailer = wal_trailer(&meta, tx_crc);
    let mut log = Vec::new();
    log.extend_from_slice(&r1);
    log.extend_from_slice(&r2);
    log.extend_from_slice(&trailer);
    let (writes, m) = replay_wal(&log);
    assert_eq!(writes.len(), 2);
    assert_eq!(writes[0].0, 1);
    assert_eq!(writes[0].1, p1.data);
    assert_eq!(writes[1].0, 2);
    assert_eq!(writes[1].1, p2.data);
    let m = m.expect("a sealed batch carries its metadata");
    assert_eq!(m.free, 0);
    assert_eq!(m.size, 3);
    assert_eq!(m.root, 1);
    assert_eq!(m.height, 1);
}

#[test]
fn replay_discards_an_unsealed_tail() {
    let p1 = page_with(1);
    let meta = Metadata { free: 0, size: 2, root: 1, height: 1 };
    let r1 = wal_page_record(1, &p1);
    let trailer = wal_trailer(&meta, crc32c::crc32c_append(0, &r1));
    let mut log = Vec::new();
    log.extend_from_slice(&r1);
    log.extend_from_slice(&trailer);
    // A page record whose batch never reaches a trailer.
    let p9 = page_with(9);
    log.extend_from_slice(&wal_page_record(9, &p9));
    let (writes, m) = replay_wal(&log);
    assert_eq!(writes.len(), 1);
    assert_eq!(writes[0].0, 1);
    assert!(m.is_some());
}

#[test]
fn replay_stops_at_a_torn_trailer() {
    let p1 = page_with(1);
    let meta = Metadata { free: 0, size: 2, root: 1, height: 1 };
    let r1 = wal_page_record(1, &p1);
    let trailer = wal_trailer(&meta, crc32c::crc32c_append(0, &r1));
    let mut log = Vec::new();
    log.extend_from_slice(&r1);
    log.extend_from_slice(&trailer);
    let last = log.len() - 1;
    log[last] ^= 0xFF;
    let (writes, m) = replay_wal(&log);
    assert!(writes.is_empty());
    assert!(m.is_none());
}

#[test]
fn replay_keeps_batches_before_a_torn_one() {
    let pa = page_with(3);
    let meta_a = Metadata { free: 0, size: 2, root: 1, height: 1 };
    let ra = wal_page_record(1, &pa);
    let ta = wal_trailer(&meta_a, crc32c::crc32c_append(0, &ra));
    let pb = page_with(4);
    let meta_b = Metadata { free: 0, size: 3, root: 2, height: 1 };
    let rb = wal_page_record(2, &pb);
    let tb = wal_trailer(&meta_b, crc32c::crc32c_append(0, &rb));
    let mut log = Vec::new();
    log.extend_from_slice(&ra);
    log.extend_from_slice(&ta);
    log.extend_from_slice(&rb);
    log.extend_from_slice(&tb);
    let cut = log.len() - 2;
    log[cut] ^= 0x55;
    let (writes, m) = replay_wal(&log);
    assert_eq!(writes.len(), 1);
    assert_eq!(writes[0].0, 1);
    assert_eq!(writes[0].1, pa.data);
    let m = m.expect("the first batch was sealed");
    assert_eq!(m.root, 1);
}
