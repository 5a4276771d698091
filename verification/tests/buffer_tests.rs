use skv::buffer_manager::{BufferManager, PAGE_DIRTY, PAGE_RAW, PAGE_SYNCED};
use skv::error::DbError;

#[test]
fn buffer_miss_claims_raw_slot_and_hit_repins() {
    let mut bm = BufferManager::new(8);
    let b1 = bm.get_buffer(5).unwrap();
    assert!(b1 >= 1);
    assert_eq!(bm.pages[b1 as usize].pid, 5);
    assert_eq!(bm.pages[b1 as usize].state, PAGE_RAW);
    assert_eq!(bm.pages[b1 as usize].access_count, 1);
    let b2 = bm.get_buffer(5).unwrap();
    assert_eq!(b1, b2);
    assert_eq!(bm.pages[b1 as usize].access_count, 2);
    bm.release_buffer(b1);
    bm.release_buffer(b1);
    assert_eq!(bm.pages[b1 as usize].access_count, 0);
}

#[test]
fn buffer_release_makes_slot_evictable() {
    let mut bm = BufferManager::new(4);
    // Slot 0 is reserved, so three slots are usable.
    let b1 = bm.get_buffer(1).unwrap();
    let b2 = bm.get_buffer(2).unwrap();
    let b3 = bm.get_buffer(3).unwrap();
    bm.release_buffer(b1);
    bm.release_buffer(b2);
    bm.release_buffer(b3);
    // A fourth page evicts the least recently released one.
    let b4 = bm.get_buffer(4).unwrap();
    assert_eq!(b4, b1);
    assert_eq!(bm.pages[b4 as usize].pid, 4);
    // Page 1 is no longer cached: looking it up claims a new slot.
    let b5 = bm.get_buffer(1).unwrap();
    assert_eq!(bm.pages[b5 as usize].state, PAGE_RAW);
}

#[test]
fn buffer_cache_exhausted_when_everything_pinned() {
    let mut bm = BufferManager::new(3);
    let _b1 = bm.get_buffer(1).unwrap();
    let _b2 = bm.get_buffer(2).unwrap();
    let r = bm.get_buffer(3);
    assert_eq!(r, Err(DbError::CacheExhausted));
}

#[test]
fn buffer_modify_builds_dirty_list() {
    let mut bm = BufferManager::new(8);
    let b1 = bm.get_buffer(1).unwrap();
    let b2 = bm.get_buffer(2).unwrap();
    let r1 = bm.modify_buffer(b1, u32::MAX).unwrap();
    assert!(r1.is_none());
    let r2 = bm.modify_buffer(b2, u32::MAX).unwrap();
    assert!(r2.is_none());
    assert_eq!(bm.dirtied, 2);
    assert_eq!(bm.dirty_pages, b2);
    assert_eq!(bm.pages[b1 as usize].state & PAGE_DIRTY, PAGE_DIRTY);
    // The dirty pin: one reference from us, one held for the transaction.
    assert_eq!(bm.pages[b1 as usize].access_count, 2);
    bm.release_buffer(b1);
    bm.release_buffer(b2);
    assert_eq!(bm.pages[b1 as usize].access_count, 1);
}

#[test]
fn buffer_trickle_reports_oldest_unpinned_dirty_slot() {
    let mut bm = BufferManager::new(8);
    let mut slots = Vec::new();
    for pid in 1..=3u32 {
        let b = bm.get_buffer(pid).unwrap();
        let r = bm.modify_buffer(b, 2).unwrap();
        bm.release_buffer(b);
        if pid <= 2 {
            assert!(r.is_none());
        } else {
            // The third dirty page crosses the threshold: the oldest dirty
            // slot is scheduled for the log.
            let (sb, sp) = r.unwrap();
            assert_eq!(sb, slots[0]);
            assert_eq!(sp, 1);
            assert_eq!(bm.pages[sb as usize].state, PAGE_DIRTY | PAGE_SYNCED);
        }
        slots.push(b);
    }
    // The flush cursor never points at a slot pinned by an operation.
    if bm.next_sync != 0 {
        assert!(bm.pages[bm.next_sync as usize].access_count <= 1);
    }
}

#[test]
fn buffer_requeue_clears_synced_bit() {
    let mut bm = BufferManager::new(8);
    let mut slots = Vec::new();
    for pid in 1..=3u32 {
        let b = bm.get_buffer(pid).unwrap();
        let _ = bm.modify_buffer(b, 2).unwrap();
        bm.release_buffer(b);
        slots.push(b);
    }
    let synced = slots[0];
    assert_eq!(bm.pages[synced as usize].state, PAGE_DIRTY | PAGE_SYNCED);
    // Writing the page again clears the synced bit and moves it to the
    // head of the dirty list.
    let b = bm.get_buffer(1).unwrap();
    let _ = bm.modify_buffer(b, u32::MAX).unwrap();
    bm.release_buffer(b);
    assert_eq!(bm.pages[synced as usize].state, PAGE_DIRTY);
    assert_eq!(bm.dirty_pages, synced);
}

#[test]
fn buffer_throw_discards_dirty_head() {
    let mut bm = BufferManager::new(8);
    let b1 = bm.get_buffer(9).unwrap();
    let _ = bm.modify_buffer(b1, u32::MAX).unwrap();
    bm.release_buffer(b1);
    let cached_before = bm.cached;
    let head = bm.dirty_pages;
    assert_eq!(head, b1);
    bm.throw_buffer(head);
    assert_eq!(bm.dirty_pages, 0);
    assert_eq!(bm.cached, cached_before - 1);
    assert_eq!(bm.free_pages, b1);
    // The thrown page is gone from the cache; a lookup claims it afresh.
    let b2 = bm.get_buffer(9).unwrap();
    assert_eq!(bm.pages[b2 as usize].state, PAGE_RAW);
}

#[test]
fn buffer_counters_stay_within_bounds() {
    let mut bm = BufferManager::new(6);
    let mut pinned = Vec::new();
    for pid in 1..=5u32 {
        pinned.push(bm.get_buffer(pid).unwrap());
    }
    assert!(bm.cached <= bm.hash_table.len() as u32);
    for b in pinned {
        bm.release_buffer(b);
    }
    assert!(bm.cached <= bm.hash_table.len() as u32);
    assert_eq!(bm.pinned, 1);
}

#[test]
fn buffer_throw_discards_a_mid_list_dirty_slot() {
    let mut bm = BufferManager::new(8);
    let mut slots = Vec::new();
    for pid in 1..=3u32 {
        let b = bm.get_buffer(pid).unwrap();
        let _ = bm.modify_buffer(b, u32::MAX).unwrap();
        bm.release_buffer(b);
        slots.push(b);
    }
    let cached_before = bm.cached;
    // Throw the middle of the dirty list, not its head.
    bm.throw_buffer(slots[1]);
    assert_eq!(bm.cached, cached_before - 1);
    assert_eq!(bm.free_pages, slots[1]);
    assert_eq!(bm.dirtied, 2);
    // Page 2 is no longer cached; pages 1 and 3 still are.
    let again = bm.get_buffer(2).unwrap();
    assert_eq!(bm.pages[again as usize].state, PAGE_RAW);
    assert_eq!(bm.get_buffer(1).unwrap(), slots[0]);
    assert_eq!(bm.get_buffer(3).unwrap(), slots[2]);
}

#[test]
fn buffer_release_last_pin_takes_the_lru_head() {
    let mut bm = BufferManager::new(8);
    let b1 = bm.get_buffer(1).unwrap();
    let b2 = bm.get_buffer(2).unwrap();
    bm.release_buffer(b1);
    assert_eq!(bm.head, b1);
    bm.release_buffer(b2);
    assert_eq!(bm.head, b2);
    assert_eq!(bm.tail, b1);
}
