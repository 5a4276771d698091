use skv::config::{MAX_KEY_LEN, MAX_VALUE_LEN};
use skv::error::DbError;
use skv::meta::Metadata;
use skv::pagedata::PageData;
use skv::transaction::{op_permitted, TransactionStatus};
use skv::tree::{check_leaf_order, check_separator, insert_in_page, search_page, validate_kv,
    SearchStep};

fn leaf_page(items: &[(&[u8], &[u8])]) -> PageData {
    let mut p = PageData::new();
    p.set_n_items(0);
    for (i, (k, v)) in items.iter().enumerate() {
        assert!(p.insert_item(i, &k.to_vec(), v));
    }
    p
}

#[test]
fn validate_kv_rejects_the_empty_key() {
    assert_eq!(validate_kv(&Vec::new(), &b"v".to_vec()), Err(DbError::EmptyKey));
}

#[test]
fn validate_kv_key_bounds() {
    let key255 = vec![7u8; MAX_KEY_LEN];
    assert!(validate_kv(&key255, &b"v".to_vec()).is_ok());
    let key256 = vec![7u8; MAX_KEY_LEN + 1];
    assert_eq!(validate_kv(&key256, &b"v".to_vec()), Err(DbError::KeyTooLarge));
}

#[test]
fn validate_kv_value_bounds() {
    let val = vec![1u8; MAX_VALUE_LEN];
    assert!(validate_kv(&b"k".to_vec(), &val).is_ok());
    let too_long = vec![1u8; MAX_VALUE_LEN + 1];
    assert_eq!(validate_kv(&b"k".to_vec(), &too_long), Err(DbError::ValueTooLarge));
}

#[test]
fn lower_bound_on_a_sorted_leaf() {
    let p = leaf_page(&[(b"b", b"1"), (b"d", b"2")]);
    assert_eq!(p.lower_bound(&b"a".to_vec()), 0);
    assert_eq!(p.lower_bound(&b"b".to_vec()), 0);
    assert_eq!(p.lower_bound(&b"c".to_vec()), 1);
    assert_eq!(p.lower_bound(&b"d".to_vec()), 1);
    assert_eq!(p.lower_bound(&b"e".to_vec()), 2);
}

#[test]
fn search_finds_a_leaf_key() {
    let p = leaf_page(&[(b"1", b"one"), (b"2", b"two"), (b"3", b"three")]);
    match search_page(&p, &b"2".to_vec(), 1) {
        SearchStep::Found(v) => assert_eq!(v, b"two".to_vec()),
        _ => panic!("the key is on the page"),
    }
    assert!(matches!(search_page(&p, &b"4".to_vec(), 1), SearchStep::NotFound));
    assert!(matches!(search_page(&p, &b"0".to_vec(), 1), SearchStep::NotFound));
}

#[test]
fn search_descends_through_an_internal_page() {
    let mut p = PageData::new();
    p.set_n_items(0);
    assert!(p.insert_item(0, &b"b".to_vec(), &2u32.to_be_bytes()));
    assert!(p.insert_item(1, &Vec::new(), &3u32.to_be_bytes()));
    match search_page(&p, &b"a".to_vec(), 2) {
        SearchStep::Descend(c) => assert_eq!(c, 2),
        _ => panic!("keys at or below the separator descend left"),
    }
    match search_page(&p, &b"z".to_vec(), 2) {
        SearchStep::Descend(c) => assert_eq!(c, 3),
        _ => panic!("keys above the separator descend into the sentinel child"),
    }
}

fn page_keys(p: &PageData) -> Vec<Vec<u8>> {
    (0..p.get_n_items()).map(|i| p.get_item(i).0).collect()
}

#[test]
fn appending_into_a_full_leaf_moves_every_item_left() {
    let mut p = PageData::new();
    p.set_n_items(0);
    let big = vec![0u8; 2000];
    for i in 0..4usize {
        assert!(p.insert_item(i, &vec![(i + 1) as u8], &big));
    }
    assert!(!p.insert_item(4, &vec![5u8], &big));
    let mut new_page = PageData::new();
    let r = insert_in_page(&mut p, &mut new_page, 4, &vec![5u8], &big);
    let up = r.expect("the item fits the page it lands in");
    assert_eq!(up, Some(vec![4u8]));
    assert_eq!(page_keys(&new_page), vec![vec![1u8], vec![2], vec![3], vec![4]]);
    assert_eq!(page_keys(&p), vec![vec![5u8]]);
}

#[test]
fn splitting_a_full_leaf_keeps_order_and_contents() {
    let mut p = PageData::new();
    p.set_n_items(0);
    let big = vec![9u8; 2000];
    for i in 0..4usize {
        assert!(p.insert_item(i, &vec![(2 * i + 2) as u8], &big));
    }
    let mut new_page = PageData::new();
    let r = insert_in_page(&mut p, &mut new_page, 0, &vec![1u8], &big);
    let up = r.expect("the item fits the half it lands in").expect("the page had to split");
    let left = page_keys(&new_page);
    let right = page_keys(&p);
    assert_eq!(*left.last().unwrap(), up);
    let mut all = left.clone();
    all.extend(right.clone());
    let mut sorted = all.clone();
    sorted.sort();
    assert_eq!(all, sorted, "both halves keep the key order");
    sorted.dedup();
    assert_eq!(sorted.len(), 5, "the halves hold the old keys and the new one");
    assert!(all.contains(&vec![1u8]));
    for i in 0..4usize {
        assert!(all.contains(&vec![(2 * i + 2) as u8]));
    }
}

#[test]
fn leaf_order_check_accepts_ascending_keys() {
    let p = leaf_page(&[(b"a", b"1"), (b"b", b"2"), (b"c", b"3")]);
    let mut prev = Vec::new();
    let r = check_leaf_order(&p, &mut prev);
    assert_eq!(r, Ok(3));
    assert_eq!(prev, b"c".to_vec());
}

#[test]
fn leaf_order_check_rejects_a_repeated_key() {
    let p = leaf_page(&[(b"a", b"1"), (b"b", b"2")]);
    let mut prev = b"b".to_vec();
    assert_eq!(check_leaf_order(&p, &mut prev), Err(DbError::InvariantViolated));
}

#[test]
fn separator_check_compares_against_the_subtree() {
    let mut p = PageData::new();
    p.set_n_items(0);
    assert!(p.insert_item(0, &b"m".to_vec(), &1u32.to_be_bytes()));
    assert!(check_separator(&p, 0, &b"k".to_vec()).is_ok());
    assert!(check_separator(&p, 0, &b"m".to_vec()).is_ok());
    assert_eq!(check_separator(&p, 0, &b"z".to_vec()), Err(DbError::InvariantViolated));
}

#[test]
fn fresh_metadata_is_an_empty_store_of_one_page() {
    let m = Metadata::fresh();
    assert_eq!(m.free, 0);
    assert_eq!(m.size, 1);
    assert_eq!(m.root, 0);
    assert_eq!(m.height, 0);
}

#[test]
fn opening_rejects_a_zero_page_count() {
    let mut bytes = vec![0u8; 16];
    match Metadata::checked_unpack(&bytes) {
        Err(e) => assert_eq!(e, DbError::CorruptedMeta),
        Ok(_) => panic!("a store of zero pages is impossible"),
    }
    bytes[7] = 1;
    let m = Metadata::checked_unpack(&bytes).expect("one page is the smallest store");
    assert_eq!(m.size, 1);
}

#[test]
fn root_transitions_keep_the_emptiness_law() {
    let mut m = Metadata::fresh();
    m.set_first_root(4);
    assert_eq!((m.root, m.height), (4, 1));
    m.grow_root(9);
    assert_eq!((m.root, m.height), (9, 2));
    m.collapse_root();
    assert_eq!((m.root, m.height), (0, 0));
}

#[test]
fn only_an_in_progress_transaction_may_work() {
    assert!(op_permitted(&TransactionStatus::InProgress).is_ok());
    assert_eq!(op_permitted(&TransactionStatus::Committed), Err(DbError::WrongState));
    assert_eq!(op_permitted(&TransactionStatus::Aborted), Err(DbError::WrongState));
}
