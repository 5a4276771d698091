use skv::config::PAGE_SIZE;
use skv::pagedata::PageData;
use std::cmp::Ordering;

fn kv(k: &[u8]) -> Vec<u8> {
    k.to_vec()
}

#[test]
fn page_starts_empty_and_valid() {
    let p = PageData::new();
    assert_eq!(p.get_n_items(), 0);
    assert!(p.validate());
    assert_eq!(p.data.len(), PAGE_SIZE);
}

#[test]
fn page_u16_u32_round_trip() {
    let mut p = PageData::new();
    p.set_u16(10, 0xBEEF);
    p.set_u32(100, 0xDEAD_BEEF);
    assert_eq!(p.get_u16(10), 0xBEEF);
    assert_eq!(p.get_u32(100), 0xDEAD_BEEF);
    p.set_n_items(3);
    assert_eq!(p.get_n_items(), 3);
    p.set_n_items(0);
}

#[test]
fn page_insert_and_get_items() {
    let mut p = PageData::new();
    assert!(p.insert_item(0, &kv(b"bb"), b"two"));
    assert!(p.insert_item(0, &kv(b"aa"), b"one"));
    assert!(p.insert_item(2, &kv(b"cc"), b"three"));
    assert_eq!(p.get_n_items(), 3);
    assert!(p.validate());
    let (k0, v0) = p.get_item(0);
    let (k1, v1) = p.get_item(1);
    let (k2, v2) = p.get_item(2);
    assert_eq!((k0, v0), (kv(b"aa"), kv(b"one")));
    assert_eq!((k1, v1), (kv(b"bb"), kv(b"two")));
    assert_eq!((k2, v2), (kv(b"cc"), kv(b"three")));
    assert_eq!(p.get_key(1), kv(b"bb"));
    assert_eq!(p.get_last_key(), kv(b"cc"));
}

#[test]
fn page_compare_key_orders_and_sentinel() {
    let mut p = PageData::new();
    assert!(p.insert_item(0, &kv(b"mm"), b"v"));
    assert_eq!(p.compare_key(0, &kv(b"aa")), Ordering::Less);
    assert_eq!(p.compare_key(0, &kv(b"mm")), Ordering::Equal);
    assert_eq!(p.compare_key(0, &kv(b"zz")), Ordering::Greater);
    assert_eq!(p.compare_key(0, &kv(b"m")), Ordering::Less);
    assert_eq!(p.compare_key(0, &kv(b"mma")), Ordering::Greater);
    // A zero-length stored key is the sentinel: greater than any search key.
    assert!(p.insert_item(1, &kv(b""), &5u32.to_be_bytes()));
    assert_eq!(p.compare_key(1, &kv(b"zzzz")), Ordering::Less);
}

#[test]
fn page_internal_child_pointers() {
    let mut p = PageData::new();
    assert!(p.insert_item(0, &kv(b"k"), &7u32.to_be_bytes()));
    assert!(p.insert_item(1, &kv(b""), &9u32.to_be_bytes()));
    assert_eq!(p.get_child(0), 7);
    assert_eq!(p.get_child(1), 9);
}

#[test]
fn page_insert_reports_full() {
    let mut p = PageData::new();
    let big = vec![0xABu8; 2048];
    assert!(p.insert_item(0, &kv(b"a"), &big));
    assert!(p.insert_item(1, &kv(b"b"), &big));
    assert!(p.insert_item(2, &kv(b"c"), &big));
    // A fourth 2 KiB item can no longer fit beside the offsets array.
    assert!(!p.insert_item(3, &kv(b"d"), &big));
    assert_eq!(p.get_n_items(), 3);
    let (k, v) = p.get_item(2);
    assert_eq!(k, kv(b"c"));
    assert_eq!(v, big);
}

#[test]
fn page_remove_leaf_compacts() {
    let mut p = PageData::new();
    assert!(p.insert_item(0, &kv(b"aa"), b"1"));
    assert!(p.insert_item(1, &kv(b"bb"), b"2"));
    assert!(p.insert_item(2, &kv(b"cc"), b"3"));
    p.remove_key(1, true);
    assert_eq!(p.get_n_items(), 2);
    assert!(p.validate());
    assert_eq!(p.get_item(0), (kv(b"aa"), kv(b"1")));
    assert_eq!(p.get_item(1), (kv(b"cc"), kv(b"3")));
    p.remove_key(1, true);
    p.remove_key(0, true);
    assert_eq!(p.get_n_items(), 0);
}

#[test]
fn page_remove_last_internal_promotes_key() {
    let mut p = PageData::new();
    assert!(p.insert_item(0, &kv(b"k1"), &1u32.to_be_bytes()));
    assert!(p.insert_item(1, &kv(b"k2"), &2u32.to_be_bytes()));
    assert!(p.insert_item(2, &kv(b""), &3u32.to_be_bytes()));
    // Remove the sentinel slot: its (empty) key moves onto slot 1, which
    // keeps its own child.
    p.remove_key(2, false);
    assert_eq!(p.get_n_items(), 2);
    assert!(p.validate());
    assert_eq!(p.get_key(1), kv(b""));
    assert_eq!(p.get_child(1), 2);
    assert_eq!(p.get_key(0), kv(b"k1"));
    assert_eq!(p.get_child(0), 1);
}

#[test]
fn page_split_partitions_items() {
    let mut p = PageData::new();
    let val = vec![7u8; 100];
    let mut keys: Vec<Vec<u8>> = Vec::new();
    for i in 0..20u8 {
        let key = vec![b'a' + (i % 26), i];
        assert!(p.insert_item(i as usize, &key, &val));
        keys.push(key);
    }
    let mut right = PageData::new();
    let split = p.split(&mut right, 5);
    assert!(split < 20);
    assert_eq!(right.get_n_items(), split + 1);
    assert_eq!(p.get_n_items(), 20 - split - 1);
    assert!(p.validate());
    assert!(right.validate());
    // Together the two pages carry the original items, in order.
    let mut seen: Vec<Vec<u8>> = Vec::new();
    for i in 0..right.get_n_items() {
        seen.push(right.get_key(i));
    }
    for i in 0..p.get_n_items() {
        seen.push(p.get_key(i));
    }
    assert_eq!(seen, keys);
}

#[test]
fn page_split_at_append_moves_everything() {
    let mut p = PageData::new();
    for i in 0..4u8 {
        assert!(p.insert_item(i as usize, &vec![b'a' + i], b"v"));
    }
    let mut right = PageData::new();
    let split = p.split(&mut right, 4);
    assert_eq!(split, 3);
    assert_eq!(right.get_n_items(), 4);
    assert_eq!(p.get_n_items(), 0);
}

#[test]
fn page_validate_rejects_garbage() {
    let mut p = PageData::new();
    p.set_n_items(2);
    // Offsets point outside the page / overlap the header: invalid.
    p.set_u16(2, 0x3FFF);
    p.set_u16(4, 0x0001);
    assert!(!p.validate());
}
