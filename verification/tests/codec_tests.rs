use skv::config::PAGE_SIZE;
use skv::freelist::FreeList;
use skv::meta::{Meta, Metadata};
use skv::pagedata::PageData;

#[test]
fn metadata_pack_unpack_round_trip() {
    let m = Metadata { free: 7, size: 42, root: 3, height: 2 };
    let packed = m.pack();
    assert_eq!(packed.len(), 16);
    let back = Metadata::unpack(&packed);
    assert_eq!(back.free, 7);
    assert_eq!(back.size, 42);
    assert_eq!(back.root, 3);
    assert_eq!(back.height, 2);
}

#[test]
fn metadata_pack_is_big_endian() {
    let m = Metadata { free: 0x01020304, size: 1, root: 0, height: 0 };
    let packed = m.pack();
    assert_eq!(&packed[0..4], &[1u8, 2, 3, 4]);
    assert_eq!(&packed[4..8], &[0u8, 0, 0, 1]);
}

#[test]
fn meta_serialize_round_trip() {
    let m = Meta { freelist_pid: 12345 };
    let page = m.serialize();
    assert_eq!(page.data.len(), PAGE_SIZE);
    let back = Meta::deserialize(&page);
    assert_eq!(back.freelist_pid, 12345);
}

#[test]
fn freelist_hand_out_and_reuse() {
    let zero = PageData::new();
    let mut fl = FreeList::deserialize(&zero);
    assert_eq!(fl.max_pid, 0);
    assert_eq!(fl.get_next_pid(), 1);
    assert_eq!(fl.get_next_pid(), 2);
    fl.release_pid(1);
    assert_eq!(fl.get_next_pid(), 1);
    assert_eq!(fl.get_next_pid(), 3);
}

#[test]
fn freelist_serialize_round_trip() {
    let zero = PageData::new();
    let mut fl = FreeList::deserialize(&zero);
    let _ = fl.get_next_pid();
    let _ = fl.get_next_pid();
    let _ = fl.get_next_pid();
    fl.release_pid(2);
    fl.release_pid(3);
    let page = fl.serialize();
    let back = FreeList::deserialize(&page);
    assert_eq!(back.max_pid, 3);
    assert_eq!(back.released_pids, vec![2, 3]);
}
