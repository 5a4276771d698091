use vstd::prelude::*;

verus! {

use vstd::set_lib::{set_int_range, lemma_int_range, lemma_len_subset};
use crate::config::{BufferId, PageId};
use crate::error::DbError;

/// Buffer content has not been initialized yet.
pub const PAGE_RAW: u16 = 1;

/// Buffer is being loaded from disk.
pub const PAGE_BUSY: u16 = 2;

/// Buffer was updated and differs from the on-disk image.
pub const PAGE_DIRTY: u16 = 4;

/// Some thread is waiting until the buffer is loaded.
pub const PAGE_WAIT: u16 = 8;

/// The dirty buffer was already written to the log.
pub const PAGE_SYNCED: u16 = 16;

/// Whether `state` carries the dirty bit.
pub open spec fn is_dirty(state: u16) -> bool {
    state & PAGE_DIRTY != 0
}

/// Whether `state` carries the raw bit.
pub open spec fn is_raw(state: u16) -> bool {
    state & PAGE_RAW != 0
}

/// Whether `state` carries the synced bit.
pub open spec fn is_synced(state: u16) -> bool {
    state & PAGE_SYNCED != 0
}

/// The algebra of the state bits used by the manager.
proof fn lemma_state_bits()
    by (bit_vector)
    ensures
        forall|s: u16| #![trigger s | PAGE_SYNCED] (s | PAGE_SYNCED) & PAGE_DIRTY == s
            & PAGE_DIRTY && (s | PAGE_SYNCED) & PAGE_SYNCED != 0 && (s | PAGE_SYNCED) & PAGE_RAW
            == s & PAGE_RAW,
        forall|s: u16| #![trigger s & (!PAGE_SYNCED)] (s & (!PAGE_SYNCED)) & PAGE_DIRTY == s
            & PAGE_DIRTY && (s & (!PAGE_SYNCED)) & PAGE_SYNCED == 0 && (s & (!PAGE_SYNCED))
            & PAGE_RAW == s & PAGE_RAW,
        0u16 & PAGE_DIRTY == 0 && 0u16 & PAGE_RAW == 0 && 0u16 & PAGE_SYNCED == 0,
        PAGE_RAW & PAGE_DIRTY == 0 && PAGE_RAW & PAGE_RAW != 0 && PAGE_RAW & PAGE_SYNCED == 0,
        PAGE_DIRTY & PAGE_DIRTY != 0 && PAGE_DIRTY & PAGE_RAW == 0 && PAGE_DIRTY & PAGE_SYNCED
            == 0,
{
}

/// One slot of the buffer pool.
#[derive(Clone, Copy)]
pub struct Buffer {
    /// Page held by this slot, meaningful while the slot is cached.
    pub pid: PageId,
    /// Next slot in the same hash bucket.
    pub collision: BufferId,
    /// Next slot in the list this slot is on.
    pub next: BufferId,
    /// Preceding slot in the list this slot is on.
    pub prev: BufferId,
    /// Number of pins; a positive count protects the slot from eviction.
    pub access_count: u16,
    /// Bitmask over the `PAGE_*` bits.
    pub state: u16,
}

impl Buffer {
    /// A cleared slot.
    pub fn new() -> (b: Buffer)
        ensures
            b.pid == 0,
            b.collision == 0,
            b.next == 0,
            b.prev == 0,
            b.access_count == 0,
            b.state == 0,
    {
        Buffer { pid: 0, collision: 0, next: 0, prev: 0, access_count: 0, state: 0 }
    }
}

/// A sequence of distinct values drawn from `[lo, hi)` has at most
/// `hi - lo` elements.
proof fn lemma_distinct_in_range_len(s: Seq<BufferId>, lo: int, hi: int)
    requires
        s.no_duplicates(),
        0 <= lo <= hi,
        forall|k: int| 0 <= k < s.len() ==> lo <= #[trigger] s[k] < hi,
    ensures
        s.len() <= hi - lo,
{
    broadcast use vstd::set::group_set_axioms;
    broadcast use vstd::seq_lib::group_seq_properties;

    let t = s.map_values(|x: BufferId| x as int);
    assert(t.no_duplicates()) by {
        assert forall|i: int, j: int|
            0 <= i < t.len() && 0 <= j < t.len() && i != j implies t[i] != t[j] by {
            assert(s[i] != s[j]);
        }
    }
    t.unique_seq_to_set();
    lemma_int_range(lo, hi);
    assert(t.to_set().subset_of(set_int_range(lo, hi))) by {
        assert forall|x: int| t.to_set().contains(x) implies set_int_range(lo, hi).contains(
            x,
        ) by {
            let k = choose|k: int| 0 <= k < t.len() && t[k] == x;
            assert(s[k] as int == x);
        }
    }
    lemma_len_subset(t.to_set(), set_int_range(lo, hi));
}

/// The page pool and its bookkeeping: a hash table from page id to slot,
/// an LRU list of clean unpinned slots, a free list of unused slots, and a
/// dirty list of modified slots ordered by modification recency.
pub struct BufferManager {
    /// Head of the LRU list: the most recently released slot.
    pub head: BufferId,
    /// Tail of the LRU list: the eviction victim.
    pub tail: BufferId,
    /// Head of the free list of unused slots.
    pub free_pages: BufferId,
    /// Head of the dirty list: the most recently modified slot.
    pub dirty_pages: BufferId,
    /// Next dirty slot to be written to the log under memory pressure.
    pub next_sync: BufferId,
    /// Slots ever claimed; slot 0 is permanently the meta slot.
    pub used: BufferId,
    /// Slots protected from eviction, dirty slots and slot 0 counted.
    pub pinned: BufferId,
    /// Number of dirty slots.
    pub dirtied: BufferId,
    /// Slots holding a page: `used` minus the free slots.
    pub cached: BufferId,
    /// Bucket heads of the page-id hash table.
    pub hash_table: Vec<BufferId>,
    /// The slots.
    pub pages: Vec<Buffer>,
    /// The LRU list, head first.
    pub lru_list: Ghost<Seq<BufferId>>,
    /// The free list, head first.
    pub free_list: Ghost<Seq<BufferId>>,
    /// The dirty list, head first.
    pub dirty_list: Ghost<Seq<BufferId>>,
    /// Pinned clean slots other than slot 0.
    pub held_list: Ghost<Seq<BufferId>>,
    /// The hash bucket chains, one per bucket, head first.
    pub chains: Ghost<Seq<Seq<BufferId>>>,
}

impl BufferManager {
    /// Number of slots in the pool.
    pub open spec fn cap(self) -> int {
        self.pages.len() as int
    }

    /// The claimed-slot count as a mathematical integer.
    pub open spec fn spec_used_int(self) -> int {
        self.used as int
    }

    /// The slot record of `id`.
    pub open spec fn buf(self, id: BufferId) -> Buffer {
        self.pages@[id as int]
    }

    /// `s` is threaded by `next` and `prev`, starts at `head`.
    pub open spec fn l2_ok(self, s: Seq<BufferId>, head: BufferId) -> bool {
        &&& (s.len() == 0 ==> head == 0)
        &&& (s.len() > 0 ==> head == s[0])
        &&& forall|k: int|
            #![trigger self.buf(s[k])]
            0 <= k < s.len() ==> self.buf(s[k]).next == (if k + 1 < s.len() {
                s[k + 1]
            } else {
                0
            }) && self.buf(s[k]).prev == (if k > 0 {
                s[k - 1]
            } else {
                0
            })
    }

    /// `s` is threaded by `next` only, starts at `head`.
    pub open spec fn l1_ok(self, s: Seq<BufferId>, head: BufferId) -> bool {
        &&& (s.len() == 0 ==> head == 0)
        &&& (s.len() > 0 ==> head == s[0])
        &&& forall|k: int|
            #![trigger self.buf(s[k])]
            0 <= k < s.len() ==> self.buf(s[k]).next == (if k + 1 < s.len() {
                s[k + 1]
            } else {
                0
            })
    }

    /// All members of `s` are real slot indexes, never slot 0.
    pub open spec fn ids_ok(self, s: Seq<BufferId>) -> bool {
        forall|k: int| #![trigger s[k]] 0 <= k < s.len() ==> 1 <= s[k] < self.used
    }

    /// The chain of bucket `b` is threaded by `collision` and holds only
    /// slots whose page hashes to `b`.
    pub open spec fn chain_ok(self, b: int) -> bool {
        let s = self.chains@[b];
        &&& (s.len() == 0 ==> self.hash_table@[b] == 0)
        &&& (s.len() > 0 ==> self.hash_table@[b] == s[0])
        &&& forall|k: int|
            #![trigger self.buf(s[k])]
            0 <= k < s.len() ==> self.buf(s[k]).collision == (if k + 1 < s.len() {
                s[k + 1]
            } else {
                0
            })
        &&& forall|k: int|
            #![trigger s[k]]
            0 <= k < s.len() ==> (self.buf(s[k]).pid as int) % self.cap() == b
        &&& self.ids_ok(s)
        &&& s.no_duplicates()
    }

    /// `id` sits in some hash chain, so it holds a cached page.
    pub open spec fn chained(self, id: BufferId) -> bool {
        exists|b: int| 0 <= b < self.cap() && #[trigger] self.chains@[b].contains(id)
    }

    /// Some chained slot holds page `pid`.
    pub open spec fn caches(self, pid: PageId) -> bool {
        exists|b: int, k: int|
            0 <= b < self.cap() && 0 <= k < self.chains@[b].len() && self.buf(
                #[trigger] self.chains@[b][k],
            ).pid == pid
    }

    /// The slot caching `pid`.
    pub open spec fn slot_of(self, pid: PageId) -> BufferId {
        choose|id: BufferId| #[trigger] self.chained(id) && self.buf(id).pid == pid
    }

    /// The four disjoint places a claimed slot other than 0 can be.
    pub open spec fn on_any_list(self, id: BufferId) -> bool {
        self.lru_list@.contains(id) || self.free_list@.contains(id) || self.dirty_list@.contains(
            id,
        ) || self.held_list@.contains(id)
    }

    /// Every claimed slot except 0 is in exactly one place.
    pub open spec fn partition_ok(self) -> bool {
        &&& forall|id: BufferId| 1 <= id < self.used ==> #[trigger] self.on_any_list(id)
        &&& self.lru_list@.no_duplicates()
        &&& self.free_list@.no_duplicates()
        &&& self.dirty_list@.no_duplicates()
        &&& self.held_list@.no_duplicates()
        &&& forall|id: BufferId|
            #![trigger self.lru_list@.contains(id)]
            self.lru_list@.contains(id) ==> !self.free_list@.contains(id)
                && !self.dirty_list@.contains(id) && !self.held_list@.contains(id)
        &&& forall|id: BufferId|
            #![trigger self.free_list@.contains(id)]
            self.free_list@.contains(id) ==> !self.dirty_list@.contains(id)
                && !self.held_list@.contains(id)
        &&& forall|id: BufferId|
            #![trigger self.dirty_list@.contains(id)]
            self.dirty_list@.contains(id) ==> !self.held_list@.contains(id)
    }

    /// Cached slots are exactly the chained ones.
    pub open spec fn chains_cover_ok(self) -> bool {
        &&& forall|id: BufferId|
            1 <= id < self.used ==> (#[trigger] self.chained(id) <==> !self.free_list@.contains(
                id,
            ))
        &&& forall|b: int, k: int|
            0 <= b < self.cap() && 0 <= k < self.chains@[b].len() ==> 1 <= #[trigger] self.chains@[
                b
            ][k] < self.used
    }

    /// Two distinct chained slots never cache the same page.
    pub open spec fn pids_unique_ok(self) -> bool {
        forall|b1: int, k1: int, b2: int, k2: int|
            0 <= b1 < self.cap() && 0 <= k1 < self.chains@[b1].len() && 0 <= b2 < self.cap() && 0
                <= k2 < self.chains@[b2].len() && (b1 != b2 || k1 != k2) ==> self.buf(
                #[trigger] self.chains@[b1][k1],
            ).pid != self.buf(#[trigger] self.chains@[b2][k2]).pid
    }

    /// Per-slot state constraints tied to the slot's place.
    pub open spec fn states_ok(self) -> bool {
        &&& forall|id: BufferId|
            #![trigger self.lru_list@.contains(id)]
            self.lru_list@.contains(id) ==> self.buf(id).access_count == 0 && !is_dirty(
                self.buf(id).state,
            )
        &&& forall|id: BufferId|
            #![trigger self.free_list@.contains(id)]
            self.free_list@.contains(id) ==> self.buf(id).access_count == 0
        &&& forall|id: BufferId|
            #![trigger self.dirty_list@.contains(id)]
            self.dirty_list@.contains(id) ==> is_dirty(self.buf(id).state) && self.buf(
                id,
            ).access_count >= 1
        &&& forall|id: BufferId|
            #![trigger self.held_list@.contains(id)]
            self.held_list@.contains(id) ==> self.buf(id).access_count >= 1 && !is_dirty(
                self.buf(id).state,
            )
    }

    /// Well-formedness of the whole manager.
    pub open spec fn wf(self) -> bool {
        &&& self.pages.len() == self.hash_table.len()
        &&& 1 <= self.used as int <= self.cap()
        &&& self.cap() <= 0xffff_ffff
        &&& self.chains@.len() == self.cap()
        &&& self.l2_ok(self.lru_list@, self.head)
        &&& (self.lru_list@.len() > 0 ==> self.tail == self.lru_list@.last())
        &&& (self.lru_list@.len() == 0 ==> self.tail == 0)
        &&& self.l1_ok(self.free_list@, self.free_pages)
        &&& self.l2_ok(self.dirty_list@, self.dirty_pages)
        &&& self.ids_ok(self.lru_list@)
        &&& self.ids_ok(self.free_list@)
        &&& self.ids_ok(self.dirty_list@)
        &&& self.ids_ok(self.held_list@)
        &&& self.partition_ok()
        &&& forall|b: int| 0 <= b < self.cap() ==> #[trigger] self.chain_ok(b)
        &&& self.chains_cover_ok()
        &&& self.pids_unique_ok()
        &&& self.states_ok()
        &&& self.pinned as int == self.held_list@.len() + self.dirty_list@.len() + 1
        &&& self.dirtied as int == self.dirty_list@.len()
        &&& self.cached as int == self.used as int - self.free_list@.len()
        &&& (self.next_sync == 0 || self.dirty_list@.contains(self.next_sync))
    }

    /// The combined occupancy of the four lists is bounded by the claimed
    /// slots.
    proof fn lemma_lists_bounded(self)
        requires
            self.wf(),
        ensures
            self.lru_list@.len() + self.free_list@.len() + self.dirty_list@.len()
                + self.held_list@.len() <= self.used - 1,
    {
        broadcast use vstd::seq_lib::group_seq_properties;

        let lr = self.lru_list@;
        let fr = self.free_list@;
        let di = self.dirty_list@;
        let he = self.held_list@;
        assert forall|i: int, j: int| 0 <= i < lr.len() && 0 <= j < fr.len() implies lr[i] != fr[
            j
        ] by {
            assert(lr.contains(lr[i]));
            assert(fr.contains(fr[j]));
        }
        vstd::seq_lib::lemma_no_dup_in_concat(lr, fr);
        assert forall|i: int, j: int|
            0 <= i < (lr + fr).len() && 0 <= j < di.len() implies (lr + fr)[i] != di[j] by {
            if i < lr.len() {
                assert(lr.contains(lr[i]));
            } else {
                assert(fr.contains(fr[i - lr.len()]));
            }
            assert(di.contains(di[j]));
        }
        vstd::seq_lib::lemma_no_dup_in_concat(lr + fr, di);
        assert forall|i: int, j: int|
            0 <= i < (lr + fr + di).len() && 0 <= j < he.len() implies (lr + fr + di)[i] != he[
            j
        ] by {
            if i < lr.len() {
                assert(lr.contains(lr[i]));
            } else if i < lr.len() + fr.len() {
                assert(fr.contains(fr[i - lr.len()]));
            } else {
                assert(di.contains(di[i - lr.len() - fr.len()]));
            }
            assert(he.contains(he[j]));
        }
        vstd::seq_lib::lemma_no_dup_in_concat(lr + fr + di, he);
        let all = lr + fr + di + he;
        assert forall|k: int| 0 <= k < all.len() implies 1 <= #[trigger] all[k]
            < self.used by {
            if k < lr.len() {
                assert(all[k] == lr[k]);
            } else if k < lr.len() + fr.len() {
                assert(all[k] == fr[k - lr.len()]);
            } else if k < lr.len() + fr.len() + di.len() {
                assert(all[k] == di[k - lr.len() - fr.len()]);
            } else {
                assert(all[k] == he[k - lr.len() - fr.len() - di.len()]);
            }
        }
        lemma_distinct_in_range_len(all, 1, self.used as int);
    }

    /// Hash-table invariants survive any step that keeps the chains, the
    /// bucket heads, and every slot's `collision` and `pid` unchanged.
    proof fn lemma_chains_preserved(o: Self, n: Self)
        requires
            forall|b: int| 0 <= b < o.cap() ==> #[trigger] o.chain_ok(b),
            o.chains_cover_ok(),
            o.pids_unique_ok(),
            n.chains@ == o.chains@,
            n.hash_table@ == o.hash_table@,
            n.pages@.len() == o.pages@.len(),
            n.used == o.used,
            o.used as int <= o.pages@.len() as int,
            forall|x: BufferId| n.free_list@.contains(x) <==> o.free_list@.contains(x),
            forall|j: int|
                #![trigger n.pages@[j]]
                0 <= j < n.pages@.len() ==> n.pages@[j].collision == o.pages@[j].collision
                    && n.pages@[j].pid == o.pages@[j].pid,
        ensures
            forall|b: int| 0 <= b < n.cap() ==> #[trigger] n.chain_ok(b),
            n.chains_cover_ok(),
            n.pids_unique_ok(),
    {
        assert forall|b2: int| 0 <= b2 < n.cap() implies #[trigger] n.chain_ok(b2) by {
            assert(o.chain_ok(b2));
            assert forall|k6: int|
                #![trigger n.chains@[b2][k6]]
                0 <= k6 < n.chains@[b2].len() implies n.buf(n.chains@[b2][k6]).collision == (if k6
                + 1 < n.chains@[b2].len() {
                n.chains@[b2][k6 + 1]
            } else {
                0
            }) && (n.buf(n.chains@[b2][k6]).pid as int) % n.cap() == b2 by {
                let x = n.chains@[b2][k6];
                assert(1 <= x < o.used);
                assert(n.pages@[x as int].collision == o.pages@[x as int].collision);
                assert(n.pages@[x as int].pid == o.pages@[x as int].pid);
            }
        }
        assert forall|id3: BufferId| 1 <= id3 < n.used implies (#[trigger] n.chained(id3)
            <==> !n.free_list@.contains(id3)) by {
            assert(o.chained(id3) <==> !o.free_list@.contains(id3));
            if o.chained(id3) {
                let b3 = choose|b3: int|
                    0 <= b3 < o.cap() && #[trigger] o.chains@[b3].contains(id3);
                assert(n.chains@[b3].contains(id3));
            }
            if n.chained(id3) {
                let b3 = choose|b3: int|
                    0 <= b3 < n.cap() && #[trigger] n.chains@[b3].contains(id3);
                assert(o.chains@[b3].contains(id3));
            }
        }
        assert forall|b1: int, k1: int, b2: int, k2: int|
            0 <= b1 < n.cap() && 0 <= k1 < n.chains@[b1].len() && 0 <= b2 < n.cap() && 0 <= k2
                < n.chains@[b2].len() && (b1 != b2 || k1 != k2) implies n.buf(
            #[trigger] n.chains@[b1][k1],
        ).pid != n.buf(#[trigger] n.chains@[b2][k2]).pid by {
            assert(o.buf(o.chains@[b1][k1]).pid != o.buf(o.chains@[b2][k2]).pid);
            let x1 = o.chains@[b1][k1];
            let x2 = o.chains@[b2][k2];
            assert(1 <= x1 < o.used);
            assert(1 <= x2 < o.used);
            assert(n.pages@[x1 as int].pid == o.pages@[x1 as int].pid);
            assert(n.pages@[x2 as int].pid == o.pages@[x2 as int].pid);
        }
    }

    /// The manager after unlinking `id` (at position `k` of the LRU list)
    /// and pinning it is well formed.
    #[verifier::rlimit(100)]
    #[verifier::spinoff_prover]
    proof fn lemma_pin_post(o: Self, n: Self, id: BufferId, k: int)
        requires
            o.wf(),
            0 <= k < o.lru_list@.len(),
            o.lru_list@[k] == id,
            n.lru_list@ == o.lru_list@.remove(k),
            n.free_list@ == o.free_list@,
            n.dirty_list@ == o.dirty_list@,
            n.held_list@ == seq![id] + o.held_list@,
            n.chains@ == o.chains@,
            n.hash_table@ == o.hash_table@,
            n.used == o.used,
            n.cached == o.cached,
            n.dirtied == o.dirtied,
            n.pinned as int == o.pinned as int + 1,
            n.next_sync == o.next_sync,
            n.dirty_pages == o.dirty_pages,
            n.free_pages == o.free_pages,
            n.head == (if o.buf(id).prev == 0 {
                o.buf(id).next
            } else {
                o.head
            }),
            n.tail == (if o.buf(id).next == 0 {
                o.buf(id).prev
            } else {
                o.tail
            }),
            n.pages@.len() == o.pages@.len(),
            forall|j: int|
                #![trigger n.pages@[j]]
                0 <= j < n.pages@.len() && j != id && (o.buf(id).prev == 0 || j != o.buf(id).prev)
                    && (o.buf(id).next == 0 || j != o.buf(id).next) ==> n.pages@[j] == o.pages@[j],
            n.buf(id).pid == o.buf(id).pid,
            n.buf(id).state == o.buf(id).state,
            n.buf(id).collision == o.buf(id).collision,
            n.buf(id).access_count == 1,
            o.buf(id).prev != 0 && o.buf(id).prev != id ==> n.buf(o.buf(id).prev) == (Buffer {
                next: o.buf(id).next,
                ..o.buf(o.buf(id).prev)
            }),
            o.buf(id).next != 0 && o.buf(id).next != id ==> n.buf(o.buf(id).next) == (Buffer {
                prev: o.buf(id).prev,
                ..o.buf(o.buf(id).next)
            }),
        ensures
            n.wf(),
    {
        let g = o.lru_list@;
        let nl = n.lru_list@;
        let prev = o.buf(id).prev;
        let next = o.buf(id).next;
        assert(1 <= id < o.used);
        assert(g.contains(id));
        if k > 0 {
            assert(prev == g[k - 1]);
            assert(g.contains(g[k - 1]));
        }
        if k + 1 < g.len() {
            assert(next == g[k + 1]);
            assert(g.contains(g[k + 1]));
        }
        // Membership of the shrunk LRU list.
        assert forall|x: BufferId| nl.contains(x) implies g.contains(x) && x != id by {
            let k2 = choose|k2: int| 0 <= k2 < nl.len() && nl[k2] == x;
            if k2 < k {
                assert(g[k2] == x);
            } else {
                assert(g[k2 + 1] == x);
            }
        }
        assert forall|x: BufferId| g.contains(x) && x != id implies nl.contains(x) by {
            let k2 = choose|k2: int| 0 <= k2 < g.len() && g[k2] == x;
            if k2 < k {
                assert(nl[k2] == x);
            } else {
                assert(nl[k2 - 1] == x);
            }
        }
        assert(nl.no_duplicates()) by {
            assert forall|i: int, j: int|
                0 <= i < nl.len() && 0 <= j < nl.len() && i != j implies nl[i] != nl[j] by {
                let a1 = if i < k {
                    i
                } else {
                    i + 1
                };
                let a2 = if j < k {
                    j
                } else {
                    j + 1
                };
                assert(nl[i] == g[a1]);
                assert(nl[j] == g[a2]);
            }
        }
        // The shrunk LRU list is linked.
        assert forall|k2: int|
            #![trigger n.buf(nl[k2])]
            0 <= k2 < nl.len() implies n.buf(nl[k2]).next == (if k2 + 1 < nl.len() {
            nl[k2 + 1]
        } else {
            0
        }) && n.buf(nl[k2]).prev == (if k2 > 0 {
            nl[k2 - 1]
        } else {
            0
        }) by {
            let a = if k2 < k {
                k2
            } else {
                k2 + 1
            };
            assert(nl[k2] == g[a]);
            assert(g.contains(g[a]));
            assert(g[a] != id);
            if a == k - 1 {
                assert(n.buf(g[a]).next == next);
                if k + 1 < g.len() {
                    assert(nl[k2 + 1] == g[k + 1]);
                }
            } else if a == k + 1 {
                assert(n.buf(g[a]).prev == prev);
                if k > 0 {
                    assert(nl[k2 - 1] == g[k - 1]);
                }
            } else {
                assert(g[a] != prev || k == 0);
                assert(g[a] != next || k + 1 >= g.len());
                assert(n.buf(g[a]).next == o.buf(g[a]).next);
                assert(n.buf(g[a]).prev == o.buf(g[a]).prev);
                if k2 + 1 < nl.len() {
                    let a3 = if k2 + 1 < k {
                        k2 + 1
                    } else {
                        k2 + 2
                    };
                    assert(nl[k2 + 1] == g[a3]);
                }
                if k2 > 0 {
                    let a4 = if k2 - 1 < k {
                        k2 - 1
                    } else {
                        k2
                    };
                    assert(nl[k2 - 1] == g[a4]);
                }
            }
        }
        // Head and tail of the shrunk list.
        if nl.len() > 0 {
            if k == 0 {
                assert(nl[0] == g[1]);
            } else {
                assert(nl[0] == g[0]);
            }
            if k == g.len() - 1 {
                assert(nl.last() == g[g.len() - 2]);
            } else {
                assert(nl.last() == g.last());
            }
        }
        // The grown held list.
        let hl = n.held_list@;
        assert(hl[0] == id);
        assert(hl.contains(id));
        assert forall|x: BufferId| hl.contains(x) implies x == id || o.held_list@.contains(x) by {
            let k3 = choose|k3: int| 0 <= k3 < hl.len() && hl[k3] == x;
            if k3 > 0 {
                assert(o.held_list@[k3 - 1] == x);
            }
        }
        assert forall|x: BufferId| o.held_list@.contains(x) implies hl.contains(x) by {
            let k3 = choose|k3: int| 0 <= k3 < o.held_list@.len() && o.held_list@[k3] == x;
            assert(hl[k3 + 1] == x);
        }
        assert(hl.no_duplicates()) by {
            assert forall|i: int, j: int|
                0 <= i < hl.len() && 0 <= j < hl.len() && i != j implies hl[i] != hl[j] by {
                if i > 0 && j > 0 {
                    assert(hl[i] == o.held_list@[i - 1]);
                    assert(hl[j] == o.held_list@[j - 1]);
                } else if i == 0 {
                    assert(o.held_list@.contains(o.held_list@[j - 1]));
                } else {
                    assert(o.held_list@.contains(o.held_list@[i - 1]));
                }
            }
        }
        // Partition.
        assert forall|id2: BufferId| 1 <= id2 < n.used implies #[trigger] n.on_any_list(id2) by {
            assert(o.on_any_list(id2));
            if o.lru_list@.contains(id2) && id2 != id {
                assert(nl.contains(id2));
            }
        }
        assert(n.partition_ok());
        // States.
        assert(n.states_ok()) by {
            assert forall|id2: BufferId|
                #![trigger hl.contains(id2)]
                hl.contains(id2) implies n.buf(id2).access_count >= 1 && !is_dirty(
                n.buf(id2).state,
            ) by {
                if id2 != id {
                    assert(o.held_list@.contains(id2));
                    assert(id2 != prev || k == 0);
                    assert(id2 != next || k + 1 >= g.len());
                } else {
                    assert(!is_dirty(o.buf(id).state));
                }
            }
            assert forall|id2: BufferId|
                #![trigger n.dirty_list@.contains(id2)]
                n.dirty_list@.contains(id2) implies is_dirty(n.buf(id2).state) && n.buf(
                id2,
            ).access_count >= 1 by {
                assert(o.dirty_list@.contains(id2));
                assert(id2 != id);
                assert(id2 != prev || k == 0);
                assert(id2 != next || k + 1 >= g.len());
            }
            assert forall|id2: BufferId|
                #![trigger n.free_list@.contains(id2)]
                n.free_list@.contains(id2) implies n.buf(id2).access_count == 0 by {
                assert(o.free_list@.contains(id2));
                assert(id2 != id);
                assert(id2 != prev || k == 0);
                assert(id2 != next || k + 1 >= g.len());
            }
            assert forall|id2: BufferId|
                #![trigger nl.contains(id2)]
                nl.contains(id2) implies n.buf(id2).access_count == 0 && !is_dirty(
                n.buf(id2).state,
            ) by {
                assert(g.contains(id2));
                assert(id2 != id);
            }
        }
        // Other lists keep their links.
        assert(n.l2_ok(n.dirty_list@, n.dirty_pages)) by {
            assert forall|k7: int|
                #![trigger n.dirty_list@[k7]]
                0 <= k7 < n.dirty_list@.len() implies n.buf(n.dirty_list@[k7]) == o.buf(
                n.dirty_list@[k7],
            ) by {
                assert(n.dirty_list@.contains(n.dirty_list@[k7]));
                assert(n.dirty_list@[k7] != id);
                assert(n.dirty_list@[k7] != prev || k == 0);
                assert(n.dirty_list@[k7] != next || k + 1 >= g.len());
            }
        }
        assert(n.l1_ok(n.free_list@, n.free_pages)) by {
            assert forall|k8: int|
                #![trigger n.free_list@[k8]]
                0 <= k8 < n.free_list@.len() implies n.buf(n.free_list@[k8]) == o.buf(
                n.free_list@[k8],
            ) by {
                assert(n.free_list@.contains(n.free_list@[k8]));
                assert(n.free_list@[k8] != id);
                assert(n.free_list@[k8] != prev || k == 0);
                assert(n.free_list@[k8] != next || k + 1 >= g.len());
            }
        }
        // Slot ranges.
        assert(n.ids_ok(nl)) by {
            assert forall|k9: int| #![trigger nl[k9]] 0 <= k9 < nl.len() implies 1 <= nl[k9]
                < n.used by {
                assert(nl.contains(nl[k9]));
            }
        }
        assert(n.ids_ok(hl)) by {
            assert forall|k9: int| #![trigger hl[k9]] 0 <= k9 < hl.len() implies 1 <= hl[k9]
                < n.used by {
                assert(hl.contains(hl[k9]));
            }
        }
        assert forall|j: int|
            #![trigger n.pages@[j]]
            0 <= j < n.pages@.len() implies n.pages@[j].collision == o.pages@[j].collision
            && n.pages@[j].pid == o.pages@[j].pid by {
            if j == id {
            } else if j == prev && prev != 0 {
            } else if j == next && next != 0 {
            } else {
                assert(n.pages@[j] == o.pages@[j]);
            }
        }
        Self::lemma_chains_preserved(o, n);
        assert(n.wf());
    }

    /// Unlink the slot from the LRU list and pin it in memory, taking its
    /// first reference.
    fn pin(&mut self, id: BufferId)
        requires
            old(self).wf(),
            old(self).lru_list@.contains(id),
        ensures
            final(self).wf(),
            final(self).lru_list@ == old(self).lru_list@.remove_value(id),
            final(self).free_list@ == old(self).free_list@,
            final(self).dirty_list@ == old(self).dirty_list@,
            final(self).held_list@ == seq![id] + old(self).held_list@,
            final(self).chains@ == old(self).chains@,
            final(self).hash_table@ == old(self).hash_table@,
            final(self).used == old(self).used,
            final(self).cached == old(self).cached,
            final(self).dirtied == old(self).dirtied,
            final(self).pinned == old(self).pinned + 1,
            final(self).next_sync == old(self).next_sync,
            final(self).dirty_pages == old(self).dirty_pages,
            final(self).free_pages == old(self).free_pages,
            final(self).pages@.len() == old(self).pages@.len(),
            final(self).buf(id).pid == old(self).buf(id).pid,
            final(self).buf(id).state == old(self).buf(id).state,
            final(self).buf(id).collision == old(self).buf(id).collision,
            final(self).buf(id).access_count == 1,
            forall|j: int|
                #![trigger final(self).pages@[j]]
                0 <= j < final(self).pages@.len()
                    ==> final(self).pages@[j].pid == old(self).pages@[j].pid
                    && final(self).pages@[j].state == old(self).pages@[j].state
                    && final(self).pages@[j].collision == old(self).pages@[j].collision
                    && (j != id ==> final(self).pages@[j].access_count == old(self).pages@[j].access_count),
    {
        let ghost g = old(self).lru_list@;
        let ghost k = g.index_of_first(id)->Some_0;
        proof {
            old(self).lemma_lists_bounded();
            g.index_of_first_ensures(id);
            assert(g[k] == id);
            assert(1 <= id < self.used);
            assert(g.remove_value(id) == g.remove(k));
        }
        let idu = id as usize;
        let next = self.pages[idu].next;
        let prev = self.pages[idu].prev;
        proof {
            if k > 0 {
                assert(prev == g[k - 1]);
                assert(g.contains(g[k - 1]));
                assert(1 <= prev < self.used);
                assert(prev != id);
            }
            if k + 1 < g.len() {
                assert(next == g[k + 1]);
                assert(g.contains(g[k + 1]));
                assert(1 <= next < self.used);
                assert(next != id);
            }
        }
        if prev == 0 {
            self.head = next;
        } else {
            let pu = prev as usize;
            let mut p = self.pages[pu];
            p.next = next;
            self.pages[pu] = p;
        }
        if next == 0 {
            self.tail = prev;
        } else {
            let nu = next as usize;
            let mut nb = self.pages[nu];
            nb.prev = prev;
            self.pages[nu] = nb;
        }
        let mut b = self.pages[idu];
        b.access_count = 1;
        self.pages[idu] = b;
        self.pinned = self.pinned + 1;
        proof {
            self.lru_list@ = g.remove(k);
            self.held_list@ = seq![id] + old(self).held_list@;
            Self::lemma_pin_post(*old(self), *self, id, k);
        }
    }

    /// The manager after linking `id` at the head of the LRU list is well
    /// formed.
    #[verifier::rlimit(100)]
    #[verifier::spinoff_prover]
    proof fn lemma_unpin_post(o: Self, n: Self, id: BufferId)
        requires
            o.wf(),
            1 <= id < o.used,
            o.held_list@.contains(id),
            o.buf(id).access_count == 1,
            n.lru_list@ == seq![id] + o.lru_list@,
            n.free_list@ == o.free_list@,
            n.dirty_list@ == o.dirty_list@,
            n.held_list@ == o.held_list@.remove_value(id),
            n.chains@ == o.chains@,
            n.hash_table@ == o.hash_table@,
            n.used == o.used,
            n.cached == o.cached,
            n.dirtied == o.dirtied,
            n.pinned as int == o.pinned as int - 1,
            n.next_sync == o.next_sync,
            n.dirty_pages == o.dirty_pages,
            n.free_pages == o.free_pages,
            n.head == id,
            n.tail == (if o.head == 0 {
                id
            } else {
                o.tail
            }),
            n.pages@.len() == o.pages@.len(),
            forall|j: int|
                #![trigger n.pages@[j]]
                0 <= j < n.pages@.len() && j != id && (o.head == 0 || j != o.head) ==> n.pages@[j]
                    == o.pages@[j],
            n.buf(id).pid == o.buf(id).pid,
            n.buf(id).state == o.buf(id).state,
            n.buf(id).collision == o.buf(id).collision,
            n.buf(id).access_count == 0,
            n.buf(id).next == o.head,
            n.buf(id).prev == 0,
            o.head != 0 && o.head != id ==> n.buf(o.head) == (Buffer {
                prev: id,
                ..o.buf(o.head)
            }),
        ensures
            n.wf(),
    {
        let g = o.lru_list@;
        let nl = n.lru_list@;
        let hl = o.held_list@;
        hl.index_of_first_ensures(id);
        let k = hl.index_of_first(id)->Some_0;
        let nh = n.held_list@;
        if g.len() > 0 {
            assert(g[0] == o.head);
            assert(g.contains(o.head));
            assert(o.head != id);
            assert(1 <= o.head < o.used);
        }
        // The grown LRU list is linked.
        assert(nl[0] == id);
        assert(nl.contains(id));
        assert forall|k2: int|
            #![trigger n.buf(nl[k2])]
            0 <= k2 < nl.len() implies n.buf(nl[k2]).next == (if k2 + 1 < nl.len() {
            nl[k2 + 1]
        } else {
            0
        }) && n.buf(nl[k2]).prev == (if k2 > 0 {
            nl[k2 - 1]
        } else {
            0
        }) by {
            if k2 == 0 {
                if g.len() > 0 {
                    assert(nl[1] == g[0]);
                }
            } else {
                assert(nl[k2] == g[k2 - 1]);
                assert(g.contains(g[k2 - 1]));
                assert(g[k2 - 1] != id);
                if k2 - 1 == 0 {
                    assert(n.buf(g[0]).prev == id);
                } else {
                    assert(g[k2 - 1] != o.head);
                    assert(n.buf(g[k2 - 1]) == o.buf(g[k2 - 1]));
                    assert(nl[k2 - 1] == g[k2 - 2]);
                }
                if k2 + 1 < nl.len() {
                    assert(nl[k2 + 1] == g[k2]);
                }
            }
        }
        if nl.len() > 1 {
            assert(nl.last() == g.last());
        }
        // Membership transfers.
        assert forall|x: BufferId| nl.contains(x) implies x == id || g.contains(x) by {
            let k3 = choose|k3: int| 0 <= k3 < nl.len() && nl[k3] == x;
            if k3 > 0 {
                assert(g[k3 - 1] == x);
            }
        }
        assert forall|x: BufferId| g.contains(x) implies nl.contains(x) by {
            let k3 = choose|k3: int| 0 <= k3 < g.len() && g[k3] == x;
            assert(nl[k3 + 1] == x);
        }
        assert forall|x: BufferId| hl.contains(x) && x != id implies nh.contains(x) by {
            let k4 = choose|k4: int| 0 <= k4 < hl.len() && hl[k4] == x;
            if k4 < k {
                assert(nh[k4] == x);
            } else {
                assert(nh[k4 - 1] == x);
            }
        }
        assert forall|x: BufferId| nh.contains(x) implies hl.contains(x) && x != id by {
            let k5 = choose|k5: int| 0 <= k5 < nh.len() && nh[k5] == x;
            if k5 < k {
                assert(hl[k5] == x);
            } else {
                assert(hl[k5 + 1] == x);
            }
        }
        assert(nh.no_duplicates()) by {
            assert forall|i: int, j: int|
                0 <= i < nh.len() && 0 <= j < nh.len() && i != j implies nh[i] != nh[j] by {
                let a1 = if i < k {
                    i
                } else {
                    i + 1
                };
                let a2 = if j < k {
                    j
                } else {
                    j + 1
                };
                assert(nh[i] == hl[a1]);
                assert(nh[j] == hl[a2]);
            }
        }
        assert(nl.no_duplicates()) by {
            assert forall|i: int, j: int|
                0 <= i < nl.len() && 0 <= j < nl.len() && i != j implies nl[i] != nl[j] by {
                if i > 0 && j > 0 {
                    assert(nl[i] == g[i - 1]);
                    assert(nl[j] == g[j - 1]);
                } else if i == 0 {
                    assert(g.contains(g[j - 1]));
                } else {
                    assert(g.contains(g[i - 1]));
                }
            }
        }
        // Partition.
        assert forall|id2: BufferId| 1 <= id2 < n.used implies #[trigger] n.on_any_list(id2) by {
            assert(o.on_any_list(id2));
            if hl.contains(id2) && id2 != id {
                assert(nh.contains(id2));
            }
            if g.contains(id2) {
                assert(nl.contains(id2));
            }
        }
        assert(n.partition_ok());
        // States.
        assert(n.states_ok()) by {
            assert forall|id2: BufferId|
                #![trigger nl.contains(id2)]
                nl.contains(id2) implies n.buf(id2).access_count == 0 && !is_dirty(
                n.buf(id2).state,
            ) by {
                if id2 != id {
                    assert(g.contains(id2));
                }
            }
            assert forall|id2: BufferId|
                #![trigger nh.contains(id2)]
                nh.contains(id2) implies n.buf(id2).access_count >= 1 && !is_dirty(
                n.buf(id2).state,
            ) by {
                assert(hl.contains(id2));
                assert(id2 != id);
                assert(id2 != o.head);
            }
            assert forall|id2: BufferId|
                #![trigger n.dirty_list@.contains(id2)]
                n.dirty_list@.contains(id2) implies is_dirty(n.buf(id2).state) && n.buf(
                id2,
            ).access_count >= 1 by {
                assert(o.dirty_list@.contains(id2));
                assert(id2 != id && id2 != o.head);
            }
            assert forall|id2: BufferId|
                #![trigger n.free_list@.contains(id2)]
                n.free_list@.contains(id2) implies n.buf(id2).access_count == 0 by {
                assert(o.free_list@.contains(id2));
                assert(id2 != id && id2 != o.head);
            }
        }
        // Other lists keep their links.
        assert(n.l2_ok(n.dirty_list@, n.dirty_pages)) by {
            assert forall|k7: int|
                #![trigger n.dirty_list@[k7]]
                0 <= k7 < n.dirty_list@.len() implies n.buf(n.dirty_list@[k7]) == o.buf(
                n.dirty_list@[k7],
            ) by {
                assert(n.dirty_list@.contains(n.dirty_list@[k7]));
                assert(n.dirty_list@[k7] != id && n.dirty_list@[k7] != o.head);
            }
        }
        assert(n.l1_ok(n.free_list@, n.free_pages)) by {
            assert forall|k8: int|
                #![trigger n.free_list@[k8]]
                0 <= k8 < n.free_list@.len() implies n.buf(n.free_list@[k8]) == o.buf(
                n.free_list@[k8],
            ) by {
                assert(n.free_list@.contains(n.free_list@[k8]));
                assert(n.free_list@[k8] != id && n.free_list@[k8] != o.head);
            }
        }
        // Slot ranges.
        assert(n.ids_ok(nl)) by {
            assert forall|k9: int| #![trigger nl[k9]] 0 <= k9 < nl.len() implies 1 <= nl[k9]
                < n.used by {
                assert(nl.contains(nl[k9]));
            }
        }
        assert(n.ids_ok(nh)) by {
            assert forall|k9: int| #![trigger nh[k9]] 0 <= k9 < nh.len() implies 1 <= nh[k9]
                < n.used by {
                assert(nh.contains(nh[k9]));
            }
        }
        assert forall|j: int|
            #![trigger n.pages@[j]]
            0 <= j < n.pages@.len() implies n.pages@[j].collision == o.pages@[j].collision
            && n.pages@[j].pid == o.pages@[j].pid by {
            if j == id {
            } else if j == o.head && o.head != 0 {
            } else {
                assert(n.pages@[j] == o.pages@[j]);
            }
        }
        Self::lemma_chains_preserved(o, n);
        assert(n.wf());
    }

    /// Link the slot at the head of the LRU list, giving up its last
    /// reference and making it evictable.
    pub fn unpin(&mut self, id: BufferId)
        requires
            old(self).wf(),
            1 <= id < old(self).used,
            old(self).held_list@.contains(id),
            old(self).buf(id).access_count == 1,
        ensures
            final(self).wf(),
            final(self).lru_list@ == seq![id] + old(self).lru_list@,
            final(self).free_list@ == old(self).free_list@,
            final(self).dirty_list@ == old(self).dirty_list@,
            final(self).held_list@ == old(self).held_list@.remove_value(id),
            final(self).chains@ == old(self).chains@,
            final(self).hash_table@ == old(self).hash_table@,
            final(self).used == old(self).used,
            final(self).cached == old(self).cached,
            final(self).dirtied == old(self).dirtied,
            final(self).pinned == old(self).pinned - 1,
            final(self).next_sync == old(self).next_sync,
            final(self).dirty_pages == old(self).dirty_pages,
            final(self).free_pages == old(self).free_pages,
            final(self).pages@.len() == old(self).pages@.len(),
            final(self).buf(id).pid == old(self).buf(id).pid,
            final(self).buf(id).state == old(self).buf(id).state,
            final(self).buf(id).collision == old(self).buf(id).collision,
            final(self).buf(id).access_count == 0,
            forall|j: int|
                #![trigger final(self).pages@[j]]
                0 <= j < final(self).pages@.len()
                    ==> final(self).pages@[j].pid == old(self).pages@[j].pid
                    && final(self).pages@[j].state == old(self).pages@[j].state
                    && final(self).pages@[j].collision == old(self).pages@[j].collision
                    && (j != id ==> final(self).pages@[j].access_count == old(self).pages@[j].access_count),
    {
        proof {
            old(self).lemma_lists_bounded();
        }
        let idu = id as usize;
        let mut b = self.pages[idu];
        b.access_count = 0;
        b.next = self.head;
        b.prev = 0;
        self.pages[idu] = b;
        self.pinned = self.pinned - 1;
        if self.head != 0 {
            proof {
                assert(old(self).lru_list@.len() > 0);
                assert(old(self).lru_list@[0] == old(self).head);
                assert(1 <= old(self).head < old(self).used);
                assert(old(self).lru_list@.contains(old(self).head));
                assert(old(self).head != id);
            }
            let hu = self.head as usize;
            let mut h = self.pages[hu];
            h.prev = id;
            self.pages[hu] = h;
        } else {
            self.tail = id;
        }
        self.head = id;
        proof {
            self.lru_list@ = seq![id] + old(self).lru_list@;
            self.held_list@ = old(self).held_list@.remove_value(id);
            old(self).held_list@.index_of_first_ensures(id);
            Self::lemma_unpin_post(*old(self), *self, id);
        }
    }

    /// Chain-related invariants alone: every bucket is well threaded and
    /// pages are cached at most once.
    pub open spec fn chains_wf(self) -> bool {
        &&& self.pages.len() == self.hash_table.len()
        &&& 1 <= self.used as int <= self.cap()
        &&& self.cap() <= 0xffff_ffff
        &&& self.chains@.len() == self.cap()
        &&& forall|b: int| 0 <= b < self.cap() ==> #[trigger] self.chain_ok(b)
        &&& self.pids_unique_ok()
    }

    /// Insert the slot into its hash bucket.  Only the bucket head and the
    /// slot's `collision` link change; the caller re-establishes the
    /// invariants that mention list membership.
    #[verifier::rlimit(100)]
    #[verifier::spinoff_prover]
    fn insert(&mut self, id: BufferId)
        requires
            old(self).chains_wf(),
            1 <= id < old(self).used,
            !old(self).chained(id),
            forall|x: BufferId| #[trigger] old(self).chained(x)
                ==> old(self).buf(x).pid != old(self).buf(id).pid,
        ensures
            final(self).chains_wf(),
            final(self).chains@ == old(self).chains@.update(
                old(self).buf(id).pid as int % old(self).cap(),
                seq![id] + old(self).chains@[old(self).buf(id).pid as int % old(self).cap()],
            ),
            forall|x: BufferId| #[trigger] final(self).chained(x) <==> (old(self).chained(x) || x
                == id),
            final(self).hash_table@ == old(self).hash_table@.update(
                old(self).buf(id).pid as int % old(self).cap(),
                id,
            ),
            final(self).pages@.len() == old(self).pages@.len(),
            forall|j: int|
                #![trigger final(self).pages@[j]]
                0 <= j < final(self).pages@.len() && j != id
                    ==> final(self).pages@[j] == old(self).pages@[j],
            final(self).buf(id) == (Buffer {
                collision: old(self).hash_table@[old(self).buf(id).pid as int % old(self).cap()],
                ..old(self).buf(id)
            }),
            final(self).head == old(self).head,
            final(self).tail == old(self).tail,
            final(self).free_pages == old(self).free_pages,
            final(self).dirty_pages == old(self).dirty_pages,
            final(self).next_sync == old(self).next_sync,
            final(self).used == old(self).used,
            final(self).pinned == old(self).pinned,
            final(self).dirtied == old(self).dirtied,
            final(self).cached == old(self).cached,
            final(self).lru_list@ == old(self).lru_list@,
            final(self).free_list@ == old(self).free_list@,
            final(self).dirty_list@ == old(self).dirty_list@,
            final(self).held_list@ == old(self).held_list@,
    {
        let idu = id as usize;
        let h = (self.pages[idu].pid as usize) % self.hash_table.len();
        let old_head = self.hash_table[h];
        let mut b = self.pages[idu];
        b.collision = old_head;
        self.pages[idu] = b;
        self.hash_table[h] = id;
        proof {
            let o = *old(self);
            let bi = o.buf(id).pid as int % o.cap();
            let g = o.chains@[bi];
            self.chains@ = o.chains@.update(bi, seq![id] + g);
            let n = *self;
            let ns = n.chains@[bi];
            assert(ns[0] == id);
            assert(ns.contains(id));
            assert forall|x: BufferId| ns.contains(x) implies x == id || g.contains(x) by {
                let k3 = choose|k3: int| 0 <= k3 < ns.len() && ns[k3] == x;
                if k3 > 0 {
                    assert(g[k3 - 1] == x);
                }
            }
            assert forall|x: BufferId| g.contains(x) implies ns.contains(x) by {
                let k3 = choose|k3: int| 0 <= k3 < g.len() && g[k3] == x;
                assert(ns[k3 + 1] == x);
            }
            assert(o.chain_ok(bi));
            assert forall|b2: int| 0 <= b2 < n.cap() implies #[trigger] n.chain_ok(b2) by {
                assert(o.chain_ok(b2));
                if b2 == bi {
                    assert forall|k2: int|
                        #![trigger n.buf(ns[k2])]
                        0 <= k2 < ns.len() implies n.buf(ns[k2]).collision == (if k2 + 1
                        < ns.len() {
                        ns[k2 + 1]
                    } else {
                        0
                    }) && (n.buf(ns[k2]).pid as int) % n.cap() == b2 by {
                        if k2 == 0 {
                            if g.len() > 0 {
                                assert(ns[1] == g[0]);
                                assert(o.hash_table@[bi] == g[0]);
                            }
                        } else {
                            assert(ns[k2] == g[k2 - 1]);
                            assert(g.contains(g[k2 - 1]));
                            assert(g[k2 - 1] != id);
                            assert(n.buf(g[k2 - 1]) == o.buf(g[k2 - 1]));
                            assert(o.buf(g[k2 - 1]).collision == (if k2 < g.len() {
                                g[k2]
                            } else {
                                0
                            }));
                            if k2 + 1 < ns.len() {
                                assert(ns[k2 + 1] == g[k2]);
                            }
                        }
                    }
                    assert(ns.no_duplicates()) by {
                        assert forall|i: int, j: int|
                            0 <= i < ns.len() && 0 <= j < ns.len() && i != j implies ns[i] != ns[
                            j
                        ] by {
                            if i > 0 && j > 0 {
                                assert(ns[i] == g[i - 1]);
                                assert(ns[j] == g[j - 1]);
                            } else if i == 0 {
                                assert(g.contains(g[j - 1]));
                            } else {
                                assert(g.contains(g[i - 1]));
                            }
                        }
                    }
                    assert(n.ids_ok(ns)) by {
                        assert forall|k9: int| #![trigger ns[k9]] 0 <= k9 < ns.len() implies 1
                            <= ns[k9] < n.used by {
                            assert(ns.contains(ns[k9]));
                            if ns[k9] != id {
                                assert(g.contains(ns[k9]));
                                let kx = choose|kx: int| 0 <= kx < g.len() && g[kx] == ns[k9];
                                assert(1 <= g[kx] < o.used);
                            }
                        }
                    }
                } else {
                    assert(n.chains@[b2] == o.chains@[b2]);
                    assert forall|k2: int|
                        #![trigger n.buf(n.chains@[b2][k2])]
                        0 <= k2 < n.chains@[b2].len() implies n.buf(n.chains@[b2][k2]).collision
                        == (if k2 + 1 < n.chains@[b2].len() {
                        n.chains@[b2][k2 + 1]
                    } else {
                        0
                    }) && (n.buf(n.chains@[b2][k2]).pid as int) % n.cap() == b2 by {
                        let x = o.chains@[b2][k2];
                        assert(1 <= x < o.used);
                        assert(o.chains@[b2].contains(x));
                        assert(o.chained(x));
                        assert(x != id);
                        assert(n.buf(x) == o.buf(x));
                    }
                }
            }
            assert forall|x: BufferId| #[trigger] n.chained(x) implies (o.chained(x) || x
                == id) by {
                let b3 = choose|b3: int| 0 <= b3 < n.cap() && #[trigger] n.chains@[b3].contains(x);
                if b3 == bi {
                    if x != id {
                        assert(g.contains(x));
                    }
                } else {
                    assert(o.chains@[b3].contains(x));
                }
            }
            assert forall|x: BufferId| o.chained(x) || x == id implies #[trigger] n.chained(x) by {
                if x == id {
                    assert(n.chains@[bi].contains(id));
                } else {
                    let b3 = choose|b3: int|
                        0 <= b3 < o.cap() && #[trigger] o.chains@[b3].contains(x);
                    if b3 == bi {
                        assert(ns.contains(x));
                    } else {
                        assert(n.chains@[b3].contains(x));
                    }
                }
            }
            assert forall|b1: int, k1: int, b2: int, k2: int|
                0 <= b1 < n.cap() && 0 <= k1 < n.chains@[b1].len() && 0 <= b2 < n.cap() && 0 <= k2
                    < n.chains@[b2].len() && (b1 != b2 || k1 != k2) implies n.buf(
                #[trigger] n.chains@[b1][k1],
            ).pid != n.buf(#[trigger] n.chains@[b2][k2]).pid by {
                let x1 = n.chains@[b1][k1];
                let x2 = n.chains@[b2][k2];
                assert(n.chain_ok(b1));
                assert(n.chain_ok(b2));
                assert(1 <= x1 < n.used);
                assert(1 <= x2 < n.used);
                assert(n.chains@[b1].contains(x1));
                assert(n.chains@[b2].contains(x2));
                assert(n.chained(x1));
                assert(n.chained(x2));
                if x1 != id && x2 != id {
                    assert(n.pages@[x1 as int] == o.pages@[x1 as int]);
                    assert(n.pages@[x2 as int] == o.pages@[x2 as int]);
                    let ka = if b1 == bi {
                        k1 - 1
                    } else {
                        k1
                    };
                    let kb = if b2 == bi {
                        k2 - 1
                    } else {
                        k2
                    };
                    if b1 == bi {
                        assert(ns[0] == id);
                        assert(k1 != 0);
                        assert(ns[k1] == g[k1 - 1]);
                    }
                    if b2 == bi {
                        assert(k2 != 0);
                        assert(ns[k2] == g[k2 - 1]);
                    }
                    assert(o.chains@[b1][ka] == x1);
                    assert(o.chains@[b2][kb] == x2);
                    if b1 == b2 && ka == kb {
                        assert(k1 == k2);
                        assert(false);
                    }
                    assert(o.buf(x1).pid != o.buf(x2).pid);
                } else if x1 == id && x2 != id {
                    assert(n.pages@[x2 as int] == o.pages@[x2 as int]);
                    assert(o.chained(x2));
                    assert(o.buf(x2).pid != o.buf(id).pid);
                } else if x2 == id && x1 != id {
                    assert(n.pages@[x1 as int] == o.pages@[x1 as int]);
                    assert(o.chained(x1));
                    assert(o.buf(x1).pid != o.buf(id).pid);
                } else {
                    assert(x1 == id && x2 == id);
                    assert(b1 == bi) by {
                        if b1 != bi {
                            assert(o.chains@[b1].contains(id));
                            assert(o.chained(id));
                            assert(false);
                        }
                    }
                    assert(b2 == bi) by {
                        if b2 != bi {
                            assert(o.chains@[b2].contains(id));
                            assert(o.chained(id));
                            assert(false);
                        }
                    }
                    assert(ns.no_duplicates());
                    assert(k1 == k2);
                    assert(false);
                }
            }
        }
    }



    /// Distinct chained slots still cache distinct pages after the splice.
    #[verifier::rlimit(100)]
    #[verifier::spinoff_prover]
    proof fn lemma_remove_unique(o: Self, n: Self, id: BufferId, bi: int, kg: int)
        requires
            o.chains_wf(),
            1 <= id < o.used,
            bi == o.buf(id).pid as int % o.cap(),
            0 <= kg < o.chains@[bi].len(),
            o.chains@[bi][kg] == id,
            o.chains@[bi].no_duplicates(),
            n.chains@ == o.chains@.update(bi, o.chains@[bi].remove(kg)),
            n.used == o.used,
            n.hash_table@.len() == o.hash_table@.len(),
            n.pages@.len() == o.pages@.len(),
            kg == 0 ==> n.hash_table@ == o.hash_table@.update(bi, o.buf(id).collision)
                && n.pages@ == o.pages@,
            kg > 0 ==> n.hash_table@ == o.hash_table@ && n.pages@ == o.pages@.update(
                o.chains@[bi][kg - 1] as int,
                (Buffer { collision: o.buf(id).collision, ..o.buf(o.chains@[bi][kg - 1]) }),
            ),
            forall|b: int| 0 <= b < n.cap() ==> #[trigger] n.chain_ok(b),
        ensures
            n.pids_unique_ok(),
    {
        let g = o.chains@[bi];
        assert(o.chain_ok(bi));
        assert forall|b1: int, k1: int, b2: int, k2: int|
            0 <= b1 < n.cap() && 0 <= k1 < n.chains@[b1].len() && 0 <= b2 < n.cap() && 0 <= k2
                < n.chains@[b2].len() && (b1 != b2 || k1 != k2) implies n.buf(
            #[trigger] n.chains@[b1][k1],
        ).pid != n.buf(#[trigger] n.chains@[b2][k2]).pid by {
            let x1 = n.chains@[b1][k1];
            let x2 = n.chains@[b2][k2];
            assert(n.chain_ok(b1));
            assert(n.chain_ok(b2));
            assert(1 <= x1 < n.used);
            assert(1 <= x2 < n.used);
            assert(n.chains@[b1].contains(x1));
            assert(n.chains@[b2].contains(x2));
            let ka = if b1 == bi && k1 >= kg {
                k1 + 1
            } else {
                k1
            };
            let kb = if b2 == bi && k2 >= kg {
                k2 + 1
            } else {
                k2
            };
            assert(o.chains@[b1][ka] == x1);
            assert(o.chains@[b2][kb] == x2);
            if b1 == b2 && ka == kb {
                assert(k1 == k2);
                assert(false);
            }
            assert(o.buf(x1).pid != o.buf(x2).pid);
            assert(n.pages@[x1 as int].pid == o.pages@[x1 as int].pid);
            assert(n.pages@[x2 as int].pid == o.pages@[x2 as int].pid);
        }
    }

    /// After `id` is spliced out of its bucket, the chain invariants hold
    /// and exactly `id` stopped being chained.
    #[verifier::rlimit(100)]
    #[verifier::spinoff_prover]
    proof fn lemma_remove_post(o: Self, n: Self, id: BufferId, bi: int, kg: int)
        requires
            o.chains_wf(),
            1 <= id < o.used,
            bi == o.buf(id).pid as int % o.cap(),
            0 <= kg < o.chains@[bi].len(),
            o.chains@[bi][kg] == id,
            o.chains@[bi].no_duplicates(),
            n.chains@ == o.chains@.update(bi, o.chains@[bi].remove(kg)),
            n.used == o.used,
            n.hash_table@.len() == o.hash_table@.len(),
            n.pages@.len() == o.pages@.len(),
            kg == 0 ==> n.hash_table@ == o.hash_table@.update(bi, o.buf(id).collision)
                && n.pages@ == o.pages@,
            kg > 0 ==> n.hash_table@ == o.hash_table@ && n.pages@ == o.pages@.update(
                o.chains@[bi][kg - 1] as int,
                (Buffer { collision: o.buf(id).collision, ..o.buf(o.chains@[bi][kg - 1]) }),
            ),
        ensures
            n.chains_wf(),
            forall|x: BufferId| #[trigger] n.chained(x) <==> (o.chained(x) && x != id),
    {
        let g = o.chains@[bi];
        assert(g.contains(id));
        assert(o.chain_ok(bi));
        if kg > 0 {
            assert(g.contains(g[kg - 1]));
            assert(1 <= g[kg - 1] < o.used);
        }
        let ns = n.chains@[bi];
        assert forall|x: BufferId| ns.contains(x) implies g.contains(x) && x != id by {
            let k2 = choose|k2: int| 0 <= k2 < ns.len() && ns[k2] == x;
            if k2 < kg {
                assert(g[k2] == x);
            } else {
                assert(g[k2 + 1] == x);
            }
        }
        assert forall|x: BufferId| g.contains(x) && x != id implies ns.contains(x) by {
            let k2 = choose|k2: int| 0 <= k2 < g.len() && g[k2] == x;
            if k2 < kg {
                assert(ns[k2] == x);
            } else {
                assert(ns[k2 - 1] == x);
            }
        }
        assert(ns.no_duplicates()) by {
            assert forall|i: int, j2: int|
                0 <= i < ns.len() && 0 <= j2 < ns.len() && i != j2 implies ns[i] != ns[j2] by {
                let a1 = if i < kg {
                    i
                } else {
                    i + 1
                };
                let a2 = if j2 < kg {
                    j2
                } else {
                    j2 + 1
                };
                assert(ns[i] == g[a1]);
                assert(ns[j2] == g[a2]);
            }
        }
        assert forall|b2: int| 0 <= b2 < n.cap() implies #[trigger] n.chain_ok(b2) by {
            assert(o.chain_ok(b2));
            if b2 == bi {
                assert forall|k2: int|
                    #![trigger n.buf(ns[k2])]
                    0 <= k2 < ns.len() implies n.buf(ns[k2]).collision == (if k2 + 1
                    < ns.len() {
                    ns[k2 + 1]
                } else {
                    0
                }) && (n.buf(ns[k2]).pid as int) % n.cap() == b2 by {
                    let a = if k2 < kg {
                        k2
                    } else {
                        k2 + 1
                    };
                    assert(ns[k2] == g[a]);
                    assert(g.contains(g[a]));
                    assert(g[a] != id);
                    if a == kg - 1 {
                        assert(n.buf(g[a]).collision == o.buf(id).collision);
                        if kg + 1 < g.len() {
                            assert(ns[k2 + 1] == g[kg + 1]);
                            assert(o.buf(id).collision == g[kg + 1]);
                        } else {
                            assert(o.buf(id).collision == 0);
                        }
                    } else {
                        assert(g[a] != g[kg - 1] || kg == 0);
                        assert(n.buf(g[a]).collision == o.buf(g[a]).collision);
                        if k2 + 1 < ns.len() {
                            let a3 = if k2 + 1 < kg {
                                k2 + 1
                            } else {
                                k2 + 2
                            };
                            assert(ns[k2 + 1] == g[a3]);
                        }
                    }
                }
                if ns.len() > 0 {
                    if kg == 0 {
                        assert(ns[0] == g[1]);
                        assert(n.hash_table@[bi] == o.buf(id).collision);
                    } else {
                        assert(ns[0] == g[0]);
                    }
                }
                assert(n.ids_ok(ns)) by {
                    assert forall|k9: int| #![trigger ns[k9]] 0 <= k9 < ns.len() implies 1
                        <= ns[k9] < n.used by {
                        assert(ns.contains(ns[k9]));
                        let kx2 = choose|kx2: int| 0 <= kx2 < g.len() && g[kx2] == ns[k9];
                        assert(1 <= g[kx2] < o.used);
                    }
                }
            } else {
                assert(n.chains@[b2] == o.chains@[b2]);
                assert forall|k2: int|
                    #![trigger n.buf(n.chains@[b2][k2])]
                    0 <= k2 < n.chains@[b2].len() implies n.buf(n.chains@[b2][k2]).collision
                    == (if k2 + 1 < n.chains@[b2].len() {
                    n.chains@[b2][k2 + 1]
                } else {
                    0
                }) && (n.buf(n.chains@[b2][k2]).pid as int) % n.cap() == b2 by {
                    let x = o.chains@[b2][k2];
                    assert(1 <= x < o.used);
                    assert(o.chains@[b2].contains(x));
                    assert((o.buf(x).pid as int) % o.cap() == b2);
                    assert(x != id);
                    assert(x != g[kg - 1] || kg == 0) by {
                        if kg > 0 && x == g[kg - 1] {
                            assert(g.contains(g[kg - 1]));
                            assert((o.buf(g[kg - 1]).pid as int) % o.cap() == bi);
                        }
                    }
                    assert(n.buf(x) == o.buf(x));
                }
            }
        }
        assert forall|x: BufferId| #[trigger] n.chained(x) implies (o.chained(x) && x
            != id) by {
            let b3 = choose|b3: int| 0 <= b3 < n.cap() && #[trigger] n.chains@[b3].contains(x);
            if b3 == bi {
                assert(g.contains(x) && x != id);
            } else {
                assert(o.chains@[b3].contains(x));
                assert(o.chain_ok(b3));
                let kx3 = choose|kx3: int|
                    0 <= kx3 < o.chains@[b3].len() && o.chains@[b3][kx3] == x;
                assert((o.buf(o.chains@[b3][kx3]).pid as int) % o.cap() == b3);
                assert((o.buf(x).pid as int) % o.cap() == b3);
                assert(x != id) by {
                    if x == id {
                        assert((o.buf(id).pid as int) % o.cap() == bi);
                    }
                }
            }
        }
        assert forall|x: BufferId| o.chained(x) && x != id implies #[trigger] n.chained(x) by {
            let b3 = choose|b3: int| 0 <= b3 < o.cap() && #[trigger] o.chains@[b3].contains(x);
            if b3 == bi {
                assert(ns.contains(x));
            } else {
                assert(n.chains@[b3].contains(x));
            }
        }
        Self::lemma_remove_unique(o, n, id, bi, kg);
    }

    /// Remove the slot from its hash bucket.  Only `collision` links and
    /// the bucket head change.
    #[verifier::rlimit(100)]
    #[verifier::spinoff_prover]
    fn remove(&mut self, id: BufferId)
        requires
            old(self).chains_wf(),
            1 <= id < old(self).used,
            old(self).chained(id),
        ensures
            final(self).chains_wf(),
            final(self).chains@ == old(self).chains@.update(
                old(self).buf(id).pid as int % old(self).cap(),
                old(self).chains@[old(self).buf(id).pid as int % old(self).cap()].remove_value(
                    id,
                ),
            ),
            forall|x: BufferId| #[trigger] final(self).chained(x) <==> (old(self).chained(x) && x
                != id),
            final(self).pages@.len() == old(self).pages@.len(),
            forall|j: int|
                #![trigger final(self).pages@[j]]
                0 <= j < final(self).pages@.len()
                    ==> final(self).pages@[j].pid == old(self).pages@[j].pid
                    && final(self).pages@[j].state == old(self).pages@[j].state
                    && final(self).pages@[j].access_count == old(self).pages@[j].access_count
                    && final(self).pages@[j].next == old(self).pages@[j].next
                    && final(self).pages@[j].prev == old(self).pages@[j].prev,
            final(self).head == old(self).head,
            final(self).tail == old(self).tail,
            final(self).free_pages == old(self).free_pages,
            final(self).dirty_pages == old(self).dirty_pages,
            final(self).next_sync == old(self).next_sync,
            final(self).used == old(self).used,
            final(self).pinned == old(self).pinned,
            final(self).dirtied == old(self).dirtied,
            final(self).cached == old(self).cached,
            final(self).lru_list@ == old(self).lru_list@,
            final(self).free_list@ == old(self).free_list@,
            final(self).dirty_list@ == old(self).dirty_list@,
            final(self).held_list@ == old(self).held_list@,
    {
        let ghost o = *old(self);
        let ghost bi = o.buf(id).pid as int % o.cap();
        let ghost g = o.chains@[bi];
        let ghost kg = g.index_of_first(id)->Some_0;
        proof {
            let b3 = choose|b3: int| 0 <= b3 < o.cap() && #[trigger] o.chains@[b3].contains(id);
            assert(o.chain_ok(b3));
            let kx = choose|kx: int| 0 <= kx < o.chains@[b3].len() && o.chains@[b3][kx] == id;
            assert((o.buf(id).pid as int) % o.cap() == b3);
            assert(b3 == bi);
            assert(g.contains(id));
            g.index_of_first_ensures(id);
            assert(g[kg] == id);
            assert(o.chain_ok(bi));
        }
        let idu = id as usize;
        let h = (self.pages[idu].pid as usize) % self.hash_table.len();
        let mut p = self.hash_table[h];
        if p == id {
            proof {
                assert(g[0] == o.hash_table@[bi]);
                assert(kg == 0 || g[kg] == g[0]);
                assert(kg == 0);
            }
            self.hash_table[h] = self.pages[idu].collision;
        } else {
            proof {
                assert(g.len() > 0 && g[0] == o.hash_table@[bi]);
                assert(kg > 0);
            }
            let ghost j: int = 0;
            proof {
                assert(p == g[0]);
                assert(g.contains(g[0]));
                assert(1 <= p < self.used);
            }
            while self.pages[p as usize].collision != id
                invariant
                    self.chains_wf(),
                    *self == o,
                    0 <= j < kg,
                    kg < g.len(),
                    g == o.chains@[bi],
                    g[kg] == id,
                    o.chain_ok(bi),
                    p == g[j],
                    1 <= p < self.used,
                    self.buf(g[j]).collision == (if j + 1 < g.len() {
                        g[j + 1]
                    } else {
                        0
                    }),
                decreases kg - j,
            {
                proof {
                    assert(g.no_duplicates());
                    assert(self.buf(g[j]).collision == g[j + 1]) by {
                        if j + 1 >= g.len() {
                            assert(self.buf(g[j]).collision == 0);
                            assert(g.contains(g[kg]));
                            assert(false);
                        }
                    }
                    assert(j + 1 < g.len());
                    assert(g[j + 1] != id || j + 1 == kg);
                }
                p = self.pages[p as usize].collision;
                proof {
                    j = j + 1;
                    assert(p == g[j]);
                    assert(g.contains(g[j]));
                    assert(1 <= p < self.used);
                    assert(self.buf(g[j]).collision == (if j + 1 < g.len() {
                        g[j + 1]
                    } else {
                        0
                    }));
                    assert(j < kg) by {
                        if g[j] == id {
                            assert(j == kg);
                        }
                        assert(g[j] != id);
                    }
                }
            }
            proof {
                assert(self.buf(g[j]).collision == id);
                assert(j + 1 == kg) by {
                    if j + 1 < g.len() {
                        assert(self.buf(g[j]).collision == g[j + 1]);
                        assert(g[j + 1] == id);
                        assert(j + 1 == kg);
                    } else {
                        assert(self.buf(g[j]).collision == 0);
                        assert(false);
                    }
                }
            }
            let pu = p as usize;
            let coll = self.pages[idu].collision;
            let mut pb = self.pages[pu];
            pb.collision = coll;
            self.pages[pu] = pb;
        }
        proof {
            self.chains@ = o.chains@.update(bi, g.remove(kg));
            assert(g.remove_value(id) == g.remove(kg));
            Self::lemma_remove_post(o, *self, id, bi, kg);
        }
    }

    /// Drop one reference; releasing the last reference of a clean slot
    /// sends it to the LRU list.
    pub fn release_buffer(&mut self, id: BufferId)
        requires
            old(self).wf(),
            1 <= id < old(self).used,
            old(self).buf(id).access_count >= 1,
            old(self).buf(id).access_count == 1 ==> !is_dirty(old(self).buf(id).state),
        ensures
            final(self).wf(),
            final(self).used == old(self).used,
            final(self).cached == old(self).cached,
            final(self).dirtied == old(self).dirtied,
            final(self).chains@ == old(self).chains@,
            final(self).free_list@ == old(self).free_list@,
            final(self).dirty_list@ == old(self).dirty_list@,
            final(self).dirty_pages == old(self).dirty_pages,
            final(self).next_sync == old(self).next_sync,
            final(self).pages@.len() == old(self).pages@.len(),
            final(self).buf(id).access_count == old(self).buf(id).access_count - 1,
            old(self).buf(id).access_count > 1 ==> final(self).pinned == old(self).pinned
                && final(self).lru_list@ == old(self).lru_list@ && final(self).held_list@ == old(self).held_list@,
            old(self).buf(id).access_count == 1 ==> final(self).pinned == old(self).pinned - 1
                && final(self).lru_list@ == seq![id] + old(self).lru_list@
                && final(self).held_list@ == old(self).held_list@.remove_value(id),
            forall|j: int|
                #![trigger final(self).pages@[j]]
                0 <= j < final(self).pages@.len()
                    ==> final(self).pages@[j].pid == old(self).pages@[j].pid
                    && final(self).pages@[j].state == old(self).pages@[j].state
                    && (j != id ==> final(self).pages@[j].access_count == old(self).pages@[j].access_count),
    {
        let idu = id as usize;
        let count = self.pages[idu].access_count;
        if count == 1 {
            proof {
                assert(old(self).on_any_list(id));
                if old(self).lru_list@.contains(id) {
                    assert(old(self).buf(id).access_count == 0);
                }
                if old(self).free_list@.contains(id) {
                    assert(old(self).buf(id).access_count == 0);
                }
                if old(self).dirty_list@.contains(id) {
                    assert(is_dirty(old(self).buf(id).state));
                }
                assert(old(self).held_list@.contains(id));
            }
            self.unpin(id);
        } else {
            let mut b = self.pages[idu];
            b.access_count = count - 1;
            self.pages[idu] = b;
            proof {
                let o = *old(self);
                let n = *self;
                assert(n.states_ok()) by {
                    assert forall|id2: BufferId|
                        #![trigger n.lru_list@.contains(id2)]
                        n.lru_list@.contains(id2) implies n.buf(id2).access_count == 0
                        && !is_dirty(n.buf(id2).state) by {
                        if id2 == id {
                            assert(o.buf(id).access_count == 0);
                        }
                    }
                    assert forall|id2: BufferId|
                        #![trigger n.free_list@.contains(id2)]
                        n.free_list@.contains(id2) implies n.buf(id2).access_count == 0 by {
                        if id2 == id {
                            assert(o.buf(id).access_count == 0);
                        }
                    }
                    assert forall|id2: BufferId|
                        #![trigger n.dirty_list@.contains(id2)]
                        n.dirty_list@.contains(id2) implies is_dirty(n.buf(id2).state) && n.buf(
                        id2,
                    ).access_count >= 1 by {
                        if id2 == id {
                            assert(o.buf(id).access_count >= 2);
                        }
                    }
                    assert forall|id2: BufferId|
                        #![trigger n.held_list@.contains(id2)]
                        n.held_list@.contains(id2) implies n.buf(id2).access_count >= 1
                        && !is_dirty(n.buf(id2).state) by {
                        if id2 == id {
                            assert(o.buf(id).access_count >= 2);
                        }
                    }
                }
                assert(n.l2_ok(n.lru_list@, n.head)) by {
                    assert forall|k7: int|
                        #![trigger n.buf(n.lru_list@[k7])]
                        0 <= k7 < n.lru_list@.len() implies n.buf(n.lru_list@[k7]).next == o.buf(
                        n.lru_list@[k7],
                    ).next && n.buf(n.lru_list@[k7]).prev == o.buf(n.lru_list@[k7]).prev by {
                        assert(o.buf(n.lru_list@[k7]) == n.buf(n.lru_list@[k7]) || n.lru_list@[k7]
                            == id);
                    }
                }
                assert(n.l2_ok(n.dirty_list@, n.dirty_pages)) by {
                    assert forall|k7: int|
                        #![trigger n.buf(n.dirty_list@[k7])]
                        0 <= k7 < n.dirty_list@.len() implies n.buf(n.dirty_list@[k7]).next
                        == o.buf(n.dirty_list@[k7]).next && n.buf(n.dirty_list@[k7]).prev == o.buf(
                        n.dirty_list@[k7],
                    ).prev by {
                        assert(o.buf(n.dirty_list@[k7]) == n.buf(n.dirty_list@[k7])
                            || n.dirty_list@[k7] == id);
                    }
                }
                assert(n.l1_ok(n.free_list@, n.free_pages)) by {
                    assert forall|k7: int|
                        #![trigger n.buf(n.free_list@[k7])]
                        0 <= k7 < n.free_list@.len() implies n.buf(n.free_list@[k7]).next == o.buf(
                        n.free_list@[k7],
                    ).next by {
                        assert(o.buf(n.free_list@[k7]) == n.buf(n.free_list@[k7])
                            || n.free_list@[k7] == id);
                    }
                }
                assert forall|j: int|
                    #![trigger n.pages@[j]]
                    0 <= j < n.pages@.len() implies n.pages@[j].collision == o.pages@[j].collision
                    && n.pages@[j].pid == o.pages@[j].pid by {}
                Self::lemma_chains_preserved(o, n);
                assert(n.pages.len() == n.hash_table.len());
                assert(1 <= n.used as int <= n.cap());
                assert(n.cap() <= 0xffff_ffff);
                assert(n.chains@.len() == n.cap());
                assert(n.ids_ok(n.lru_list@));
                assert(n.ids_ok(n.free_list@));
                assert(n.ids_ok(n.dirty_list@));
                assert(n.ids_ok(n.held_list@));
                assert forall|id2: BufferId| 1 <= id2 < n.used implies #[trigger] n.on_any_list(
                    id2,
                ) by {
                    assert(o.on_any_list(id2));
                }
                assert(n.partition_ok());
                assert(n.pinned as int == n.held_list@.len() + n.dirty_list@.len() + 1);
                assert(n.dirtied as int == n.dirty_list@.len());
                assert(n.cached as int == n.used as int - n.free_list@.len());
                assert(n.next_sync == 0 || n.dirty_list@.contains(n.next_sync));
                assert(n.lru_list@.len() > 0 ==> n.tail == n.lru_list@.last());
                assert(n.lru_list@.len() == 0 ==> n.tail == 0);
                assert(n.wf());
            }
        }
    }

    /// The manager after throwing the head of the dirty list onto the free
    /// list is well formed.
    #[verifier::rlimit(100)]
    #[verifier::spinoff_prover]
    proof fn lemma_throw_post(o: Self, m: Self, n: Self, id: BufferId)
        requires
            o.wf(),
            o.dirty_list@.len() > 0,
            o.dirty_list@[0] == id,
            o.dirty_pages == id,
            // `m` is `o` with `id` spliced out of its hash chain.
            m.chains_wf(),
            forall|x: BufferId| #[trigger] m.chained(x) <==> (o.chained(x) && x != id),
            m.pages@.len() == o.pages@.len(),
            forall|j: int|
                #![trigger m.pages@[j]]
                0 <= j < m.pages@.len()
                    ==> m.pages@[j].pid == o.pages@[j].pid
                    && m.pages@[j].state == o.pages@[j].state
                    && m.pages@[j].access_count == o.pages@[j].access_count
                    && m.pages@[j].next == o.pages@[j].next
                    && m.pages@[j].prev == o.pages@[j].prev,
            m.hash_table@.len() == o.hash_table@.len(),
            m.used == o.used,
            // `n` is `m` with the dirty head moved to the free list.
            n.chains@ == m.chains@,
            n.hash_table@ == m.hash_table@,
            n.used == m.used,
            n.pages@.len() == m.pages@.len(),
            n.lru_list@ == o.lru_list@,
            n.free_list@ == seq![id] + o.free_list@,
            n.dirty_list@ == o.dirty_list@.drop_first(),
            n.held_list@ == o.held_list@,
            n.head == o.head,
            n.tail == o.tail,
            n.free_pages == id,
            n.dirty_pages == o.buf(id).next,
            n.next_sync == (if o.next_sync == id {
                0
            } else {
                o.next_sync
            }),
            n.pinned as int == o.pinned as int - 1,
            n.dirtied as int == o.dirtied as int - 1,
            n.cached as int == o.cached as int - 1,
            forall|j: int|
                #![trigger n.pages@[j]]
                0 <= j < n.pages@.len() && j != id && (o.buf(id).next == 0 || j != o.buf(id).next)
                    ==> n.pages@[j].pid == m.pages@[j].pid && n.pages@[j].state
                    == m.pages@[j].state && n.pages@[j].access_count == m.pages@[j].access_count
                    && n.pages@[j].next == m.pages@[j].next && n.pages@[j].prev
                    == m.pages@[j].prev && n.pages@[j].collision == m.pages@[j].collision,
            n.buf(id).next == o.free_pages,
            n.buf(id).prev == 0,
            n.buf(id).state == 0,
            n.buf(id).access_count == 0,
            n.buf(id).pid == m.buf(id).pid,
            n.buf(id).collision == m.buf(id).collision,
            o.buf(id).next != 0 ==> n.buf(o.buf(id).next) == (Buffer {
                prev: 0,
                ..m.buf(o.buf(id).next)
            }),
        ensures
            n.wf(),
    {
        let d = o.dirty_list@;
        let nd = n.dirty_list@;
        let f = o.free_list@;
        let nf = n.free_list@;
        let nxt = o.buf(id).next;
        assert(1 <= id < o.used);
        assert(d.contains(id));
        if d.len() > 1 {
            assert(nxt == d[1]);
            assert(d.contains(d[1]));
            assert(1 <= nxt < o.used);
            assert(d[1] != id);
        } else {
            assert(nxt == 0);
        }
        // dirty list after dropping the head
        assert forall|x: BufferId| nd.contains(x) implies d.contains(x) && x != id by {
            let k2 = choose|k2: int| 0 <= k2 < nd.len() && nd[k2] == x;
            assert(d[k2 + 1] == x);
        }
        assert forall|x: BufferId| d.contains(x) && x != id implies nd.contains(x) by {
            let k2 = choose|k2: int| 0 <= k2 < d.len() && d[k2] == x;
            assert(k2 > 0);
            assert(nd[k2 - 1] == x);
        }
        assert(nd.no_duplicates()) by {
            assert forall|i: int, j: int|
                0 <= i < nd.len() && 0 <= j < nd.len() && i != j implies nd[i] != nd[j] by {
                assert(nd[i] == d[i + 1]);
                assert(nd[j] == d[j + 1]);
            }
        }
        assert(n.l2_ok(nd, n.dirty_pages)) by {
            if nd.len() > 0 {
                assert(nd[0] == d[1]);
            }
            assert forall|k2: int|
                #![trigger n.buf(nd[k2])]
                0 <= k2 < nd.len() implies n.buf(nd[k2]).next == (if k2 + 1 < nd.len() {
                nd[k2 + 1]
            } else {
                0
            }) && n.buf(nd[k2]).prev == (if k2 > 0 {
                nd[k2 - 1]
            } else {
                0
            }) by {
                assert(nd[k2] == d[k2 + 1]);
                assert(d.contains(d[k2 + 1]));
                assert(d[k2 + 1] != id);
                if k2 == 0 {
                    assert(n.buf(nd[0]).prev == 0);
                    assert(n.buf(nd[0]).next == m.buf(nd[0]).next);
                    assert(m.buf(nd[0]).next == o.buf(d[1]).next);
                    if k2 + 1 < nd.len() {
                        assert(nd[k2 + 1] == d[k2 + 2]);
                    }
                } else {
                    assert(d[k2 + 1] != nxt) by {
                        if d.len() > 1 && d[k2 + 1] == d[1] {
                            assert(k2 + 1 == 1);
                        }
                    }
                    assert(n.buf(d[k2 + 1]).next == o.buf(d[k2 + 1]).next);
                    assert(n.buf(d[k2 + 1]).prev == o.buf(d[k2 + 1]).prev);
                    assert(nd[k2 - 1] == d[k2]);
                    if k2 + 1 < nd.len() {
                        assert(nd[k2 + 1] == d[k2 + 2]);
                    }
                }
            }
        }
        // free list with the new head
        assert(nf[0] == id);
        assert(nf.contains(id));
        assert forall|x: BufferId| nf.contains(x) implies x == id || f.contains(x) by {
            let k3 = choose|k3: int| 0 <= k3 < nf.len() && nf[k3] == x;
            if k3 > 0 {
                assert(f[k3 - 1] == x);
            }
        }
        assert forall|x: BufferId| f.contains(x) implies nf.contains(x) by {
            let k3 = choose|k3: int| 0 <= k3 < f.len() && f[k3] == x;
            assert(nf[k3 + 1] == x);
        }
        assert(nf.no_duplicates()) by {
            assert forall|i: int, j: int|
                0 <= i < nf.len() && 0 <= j < nf.len() && i != j implies nf[i] != nf[j] by {
                if i > 0 && j > 0 {
                    assert(nf[i] == f[i - 1]);
                    assert(nf[j] == f[j - 1]);
                } else if i == 0 {
                    assert(f.contains(f[j - 1]));
                } else {
                    assert(f.contains(f[i - 1]));
                }
            }
        }
        assert(n.l1_ok(nf, n.free_pages)) by {
            assert forall|k2: int|
                #![trigger n.buf(nf[k2])]
                0 <= k2 < nf.len() implies n.buf(nf[k2]).next == (if k2 + 1 < nf.len() {
                nf[k2 + 1]
            } else {
                0
            }) by {
                if k2 == 0 {
                    assert(n.buf(id).next == o.free_pages);
                    if f.len() > 0 {
                        assert(nf[1] == f[0]);
                        assert(o.free_pages == f[0]);
                    }
                } else {
                    assert(nf[k2] == f[k2 - 1]);
                    assert(f.contains(f[k2 - 1]));
                    assert(f[k2 - 1] != id);
                    assert(f[k2 - 1] != nxt || nxt == 0) by {
                        if nxt != 0 && f[k2 - 1] == nxt {
                            assert(d.contains(nxt));
                        }
                    }
                    assert(n.buf(f[k2 - 1]).next == o.buf(f[k2 - 1]).next);
                    if k2 + 1 < nf.len() {
                        assert(nf[k2 + 1] == f[k2]);
                    }
                }
            }
        }
        // LRU list untouched
        assert(n.l2_ok(n.lru_list@, n.head)) by {
            assert forall|k7: int|
                #![trigger n.buf(n.lru_list@[k7])]
                0 <= k7 < n.lru_list@.len() implies n.buf(n.lru_list@[k7]).next == o.buf(
                n.lru_list@[k7],
            ).next && n.buf(n.lru_list@[k7]).prev == o.buf(n.lru_list@[k7]).prev by {
                let x = n.lru_list@[k7];
                assert(n.lru_list@.contains(x));
                assert(x != id);
                assert(x != nxt || nxt == 0) by {
                    if nxt != 0 && x == nxt {
                        assert(d.contains(nxt));
                    }
                }
            }
        }
        // partition
        assert forall|id2: BufferId| 1 <= id2 < n.used implies #[trigger] n.on_any_list(id2) by {
            assert(o.on_any_list(id2));
            if d.contains(id2) && id2 != id {
                assert(nd.contains(id2));
            }
            if f.contains(id2) {
                assert(nf.contains(id2));
            }
        }
        assert(n.partition_ok());
        // states
        assert(n.states_ok()) by {
            assert forall|id2: BufferId|
                #![trigger nd.contains(id2)]
                nd.contains(id2) implies is_dirty(n.buf(id2).state) && n.buf(
                id2,
            ).access_count >= 1 by {
                assert(d.contains(id2) && id2 != id);
                if nxt != 0 && id2 == nxt {
                    assert(n.buf(id2).state == m.buf(id2).state);
                } else {
                    assert(n.buf(id2).state == o.buf(id2).state);
                }
            }
            assert forall|id2: BufferId|
                #![trigger nf.contains(id2)]
                nf.contains(id2) implies n.buf(id2).access_count == 0 by {
                if id2 != id {
                    assert(f.contains(id2));
                    assert(id2 != nxt || nxt == 0) by {
                        if nxt != 0 && id2 == nxt {
                            assert(d.contains(nxt));
                        }
                    }
                }
            }
            assert forall|id2: BufferId|
                #![trigger n.lru_list@.contains(id2)]
                n.lru_list@.contains(id2) implies n.buf(id2).access_count == 0 && !is_dirty(
                n.buf(id2).state,
            ) by {
                assert(o.lru_list@.contains(id2));
                assert(id2 != id);
                if nxt != 0 && id2 == nxt {
                    assert(d.contains(nxt));
                }
            }
            assert forall|id2: BufferId|
                #![trigger n.held_list@.contains(id2)]
                n.held_list@.contains(id2) implies n.buf(id2).access_count >= 1 && !is_dirty(
                n.buf(id2).state,
            ) by {
                assert(o.held_list@.contains(id2));
                assert(id2 != id);
                if nxt != 0 && id2 == nxt {
                    assert(d.contains(nxt));
                }
            }
        }
        // slot ranges
        assert(n.ids_ok(nd)) by {
            assert forall|k9: int| #![trigger nd[k9]] 0 <= k9 < nd.len() implies 1 <= nd[k9]
                < n.used by {
                assert(nd.contains(nd[k9]));
            }
        }
        assert(n.ids_ok(nf)) by {
            assert forall|k9: int| #![trigger nf[k9]] 0 <= k9 < nf.len() implies 1 <= nf[k9]
                < n.used by {
                assert(nf.contains(nf[k9]));
            }
        }
        // chains: no member is `id`, `collision` and `pid` survive
        assert forall|b2: int| 0 <= b2 < n.cap() implies #[trigger] n.chain_ok(b2) by {
            assert(m.chain_ok(b2));
            assert forall|k6: int|
                #![trigger n.buf(n.chains@[b2][k6])]
                0 <= k6 < n.chains@[b2].len() implies n.buf(n.chains@[b2][k6]).collision == (if k6
                + 1 < n.chains@[b2].len() {
                n.chains@[b2][k6 + 1]
            } else {
                0
            }) && (n.buf(n.chains@[b2][k6]).pid as int) % n.cap() == b2 by {
                let x = n.chains@[b2][k6];
                assert(1 <= x < m.used);
                assert(m.chains@[b2].contains(x));
                assert(m.chained(x));
                assert(x != id);
                assert(m.buf(x).collision == (if k6 + 1 < n.chains@[b2].len() {
                    n.chains@[b2][k6 + 1]
                } else {
                    0
                }));
                if nxt != 0 && x == nxt {
                    assert(n.buf(x).collision == m.buf(x).collision);
                    assert(n.buf(x).pid == m.buf(x).pid);
                } else {
                    assert(n.pages@[x as int].collision == m.pages@[x as int].collision);
                    assert(n.pages@[x as int].pid == m.pages@[x as int].pid);
                }
            }
        }
        assert forall|id3: BufferId| 1 <= id3 < n.used implies (#[trigger] n.chained(id3)
            <==> !nf.contains(id3)) by {
            assert(o.chained(id3) <==> !f.contains(id3));
            assert(n.chained(id3) <==> (o.chained(id3) && id3 != id)) by {
                assert(m.chained(id3) <==> (o.chained(id3) && id3 != id));
                if m.chained(id3) {
                    let b3 = choose|b3: int|
                        0 <= b3 < m.cap() && #[trigger] m.chains@[b3].contains(id3);
                    assert(n.chains@[b3].contains(id3));
                }
                if n.chained(id3) {
                    let b3 = choose|b3: int|
                        0 <= b3 < n.cap() && #[trigger] n.chains@[b3].contains(id3);
                    assert(m.chains@[b3].contains(id3));
                }
            }
            assert(o.chained(id) <==> !f.contains(id));
        }
        // pid uniqueness carried from `m`
        assert forall|b1: int, k1: int, b2: int, k2: int|
            0 <= b1 < n.cap() && 0 <= k1 < n.chains@[b1].len() && 0 <= b2 < n.cap() && 0 <= k2
                < n.chains@[b2].len() && (b1 != b2 || k1 != k2) implies n.buf(
            #[trigger] n.chains@[b1][k1],
        ).pid != n.buf(#[trigger] n.chains@[b2][k2]).pid by {
            let x1 = n.chains@[b1][k1];
            let x2 = n.chains@[b2][k2];
            assert(m.buf(x1).pid != m.buf(x2).pid);
            assert(m.chain_ok(b1));
            assert(m.chain_ok(b2));
            assert(1 <= x1 < m.used);
            assert(1 <= x2 < m.used);
            assert(m.chains@[b1].contains(x1));
            assert(m.chained(x1));
            assert(x1 != id);
            assert(m.chains@[b2].contains(x2));
            assert(m.chained(x2));
            assert(x2 != id);
            if nxt != 0 && x1 == nxt {
                assert(n.buf(x1).pid == m.buf(x1).pid);
            } else {
                assert(n.pages@[x1 as int].pid == m.pages@[x1 as int].pid);
            }
            if nxt != 0 && x2 == nxt {
                assert(n.buf(x2).pid == m.buf(x2).pid);
            } else {
                assert(n.pages@[x2 as int].pid == m.pages@[x2 as int].pid);
            }
        }
        assert(n.next_sync == 0 || nd.contains(n.next_sync)) by {
            if o.next_sync != 0 && o.next_sync != id {
                assert(d.contains(o.next_sync));
                assert(nd.contains(o.next_sync));
            }
        }
        assert(n.pages.len() == n.hash_table.len());
        assert(1 <= n.used as int <= n.cap());
        assert(n.cap() <= 0xffff_ffff);
        assert(n.chains@.len() == n.cap());
        assert forall|b4: int, k4: int|
            0 <= b4 < n.cap() && 0 <= k4 < n.chains@[b4].len() implies 1 <= #[trigger] n.chains@[
            b4
        ][k4] < n.used by {
            assert(n.chain_ok(b4));
        }
        assert(n.ids_ok(n.lru_list@));
        assert(n.ids_ok(n.held_list@));
        assert(n.pinned as int == n.held_list@.len() + n.dirty_list@.len() + 1);
        assert(n.dirtied as int == n.dirty_list@.len());
        assert(n.cached as int == n.used as int - n.free_list@.len());
        assert(n.lru_list@.len() > 0 ==> n.tail == n.lru_list@.last());
        assert(n.lru_list@.len() == 0 ==> n.tail == 0);
        assert(n.wf());
    }

    /// Throw a dirty slot out of the cache and onto the free list,
    /// discarding its content.  Rollback walks the dirty list with it.
    pub fn throw_buffer(&mut self, id: BufferId)
        requires
            old(self).wf(),
            old(self).dirty_list@.contains(id),
            old(self).buf(id).access_count == 1,
        ensures
            final(self).wf(),
            final(self).dirty_list@ == old(self).dirty_list@.remove_value(id),
            final(self).free_list@ == seq![id] + old(self).free_list@,
            final(self).lru_list@ == old(self).lru_list@,
            final(self).held_list@ == old(self).held_list@,
            final(self).used == old(self).used,
            final(self).cached == old(self).cached - 1,
            final(self).dirtied == old(self).dirtied - 1,
            final(self).pinned == old(self).pinned - 1,
            final(self).pages@.len() == old(self).pages@.len(),
            forall|j: int|
                #![trigger final(self).pages@[j]]
                0 <= j < final(self).pages@.len() && j != id
                    ==> final(self).pages@[j].pid == old(self).pages@[j].pid
                    && final(self).pages@[j].state == old(self).pages@[j].state
                    && final(self).pages@[j].access_count == old(self).pages@[j].access_count,
    {
        proof {
            assert(1 <= id < self.used);
            assert(is_dirty(self.buf(id).state));
        }
        self.requeue_dirty(id);
        proof {
            assert(self.dirty_list@.len() > 0 && self.dirty_list@[0] == id);
            assert(self.dirty_pages == id);
        }
        self.throw_head(id);
        proof {
            assert(self.dirty_list@ =~= old(self).dirty_list@.remove_value(id));
            assert(self.free_list@ == seq![id] + old(self).free_list@);
        }
    }

    /// Throw the head of the dirty list out of the cache and onto the free
    /// list, discarding its content.
    fn throw_head(&mut self, id: BufferId)
        requires
            old(self).wf(),
            old(self).dirty_pages == id,
            id != 0,
            old(self).buf(id).access_count == 1,
        ensures
            final(self).wf(),
            final(self).dirty_list@ == old(self).dirty_list@.drop_first(),
            final(self).free_list@ == seq![id] + old(self).free_list@,
            final(self).lru_list@ == old(self).lru_list@,
            final(self).held_list@ == old(self).held_list@,
            final(self).used == old(self).used,
            final(self).cached == old(self).cached - 1,
            final(self).dirtied == old(self).dirtied - 1,
            final(self).pinned == old(self).pinned - 1,
            final(self).pages@.len() == old(self).pages@.len(),
            forall|j: int|
                #![trigger final(self).pages@[j]]
                0 <= j < final(self).pages@.len() && j != id
                    ==> final(self).pages@[j].pid == old(self).pages@[j].pid
                    && final(self).pages@[j].state == old(self).pages@[j].state
                    && final(self).pages@[j].access_count == old(self).pages@[j].access_count,
    {
        proof {
            assert(old(self).dirty_list@.len() > 0 && old(self).dirty_list@[0] == id) by {
                if old(self).dirty_list@.len() == 0 {
                    assert(old(self).dirty_pages == 0);
                }
            }
            assert(old(self).dirty_list@.contains(id));
            assert(1 <= id < old(self).used);
            assert(!old(self).free_list@.contains(id));
            assert(old(self).chained(id));
            old(self).lemma_lists_bounded();
        }
        self.remove(id);
        let ghost m = *self;
        let idu = id as usize;
        let next = self.pages[idu].next;
        proof {
            if old(self).dirty_list@.len() > 1 {
                assert(next == old(self).dirty_list@[1]);
                assert(old(self).dirty_list@.contains(old(self).dirty_list@[1]));
                assert(1 <= next < self.used);
                assert(next != id);
            } else {
                assert(next == 0);
            }
        }
        self.dirty_pages = next;
        if next != 0 {
            let nu = next as usize;
            let mut nb = self.pages[nu];
            nb.prev = 0;
            self.pages[nu] = nb;
        }
        let mut b = self.pages[idu];
        b.next = self.free_pages;
        b.prev = 0;
        b.state = 0;
        b.access_count = 0;
        self.pages[idu] = b;
        self.free_pages = id;
        if self.next_sync == id {
            self.next_sync = 0;
        }
        self.cached = self.cached - 1;
        self.dirtied = self.dirtied - 1;
        self.pinned = self.pinned - 1;
        proof {
            self.dirty_list@ = old(self).dirty_list@.drop_first();
            self.free_list@ = seq![id] + old(self).free_list@;
            Self::lemma_throw_post(*old(self), m, *self, id);
        }
    }

    /// Changing only `state` and `access_count` of one slot, in a way that
    /// respects the slot's place, preserves well-formedness.
    #[verifier::rlimit(100)]
    #[verifier::spinoff_prover]
    proof fn lemma_field_update_wf(o: Self, n: Self, id: BufferId)
        requires
            o.wf(),
            1 <= id < o.used,
            n.pages@.len() == o.pages@.len(),
            forall|j: int|
                #![trigger n.pages@[j]]
                0 <= j < n.pages@.len() && j != id ==> n.pages@[j] == o.pages@[j],
            n.buf(id).pid == o.buf(id).pid,
            n.buf(id).collision == o.buf(id).collision,
            n.buf(id).next == o.buf(id).next,
            n.buf(id).prev == o.buf(id).prev,
            o.lru_list@.contains(id) ==> n.buf(id).access_count == 0 && !is_dirty(
                n.buf(id).state,
            ),
            o.free_list@.contains(id) ==> n.buf(id).access_count == 0,
            o.dirty_list@.contains(id) ==> is_dirty(n.buf(id).state) && n.buf(id).access_count
                >= 1,
            o.held_list@.contains(id) ==> !is_dirty(n.buf(id).state) && n.buf(id).access_count
                >= 1,
            n.hash_table@ == o.hash_table@,
            n.chains@ == o.chains@,
            n.lru_list@ == o.lru_list@,
            n.free_list@ == o.free_list@,
            n.dirty_list@ == o.dirty_list@,
            n.held_list@ == o.held_list@,
            n.head == o.head,
            n.tail == o.tail,
            n.free_pages == o.free_pages,
            n.dirty_pages == o.dirty_pages,
            (n.next_sync == 0 || n.dirty_list@.contains(n.next_sync)),
            n.used == o.used,
            n.pinned == o.pinned,
            n.dirtied == o.dirtied,
            n.cached == o.cached,
        ensures
            n.wf(),
    {
        assert(n.states_ok()) by {
            assert forall|id2: BufferId|
                #![trigger n.lru_list@.contains(id2)]
                n.lru_list@.contains(id2) implies n.buf(id2).access_count == 0 && !is_dirty(
                n.buf(id2).state,
            ) by {}
            assert forall|id2: BufferId|
                #![trigger n.free_list@.contains(id2)]
                n.free_list@.contains(id2) implies n.buf(id2).access_count == 0 by {}
            assert forall|id2: BufferId|
                #![trigger n.dirty_list@.contains(id2)]
                n.dirty_list@.contains(id2) implies is_dirty(n.buf(id2).state) && n.buf(
                id2,
            ).access_count >= 1 by {}
            assert forall|id2: BufferId|
                #![trigger n.held_list@.contains(id2)]
                n.held_list@.contains(id2) implies n.buf(id2).access_count >= 1 && !is_dirty(
                n.buf(id2).state,
            ) by {}
        }
        assert(n.l2_ok(n.lru_list@, n.head)) by {
            assert forall|k7: int|
                #![trigger n.buf(n.lru_list@[k7])]
                0 <= k7 < n.lru_list@.len() implies n.buf(n.lru_list@[k7]).next == o.buf(
                n.lru_list@[k7],
            ).next && n.buf(n.lru_list@[k7]).prev == o.buf(n.lru_list@[k7]).prev by {
                assert(n.lru_list@.contains(n.lru_list@[k7]));
            }
        }
        assert(n.l2_ok(n.dirty_list@, n.dirty_pages)) by {
            assert forall|k7: int|
                #![trigger n.buf(n.dirty_list@[k7])]
                0 <= k7 < n.dirty_list@.len() implies n.buf(n.dirty_list@[k7]).next == o.buf(
                n.dirty_list@[k7],
            ).next && n.buf(n.dirty_list@[k7]).prev == o.buf(n.dirty_list@[k7]).prev by {
                assert(n.dirty_list@.contains(n.dirty_list@[k7]));
            }
        }
        assert(n.l1_ok(n.free_list@, n.free_pages)) by {
            assert forall|k7: int|
                #![trigger n.buf(n.free_list@[k7])]
                0 <= k7 < n.free_list@.len() implies n.buf(n.free_list@[k7]).next == o.buf(
                n.free_list@[k7],
            ).next by {
                assert(n.free_list@.contains(n.free_list@[k7]));
            }
        }
        assert forall|j: int|
            #![trigger n.pages@[j]]
            0 <= j < n.pages@.len() implies n.pages@[j].collision == o.pages@[j].collision
            && n.pages@[j].pid == o.pages@[j].pid by {}
        Self::lemma_chains_preserved(o, n);
        assert forall|id2: BufferId| 1 <= id2 < n.used implies #[trigger] n.on_any_list(id2) by {
            assert(o.on_any_list(id2));
        }
        assert(n.wf());
    }

    /// The manager after moving slot `id` to the head of the dirty list is
    /// well formed.  `o` is the state just before the relink: `id` is
    /// already marked dirty and accounted for, but sits on no list.
    #[verifier::rlimit(100)]
    #[verifier::spinoff_prover]
    proof fn lemma_dirty_prepend_post(o: Self, n: Self, id: BufferId)
        requires
            1 <= o.used as int <= o.cap(),
            o.cap() <= 0xffff_ffff,
            o.pages.len() == o.hash_table.len(),
            o.chains@.len() == o.cap(),
            1 <= id < o.used,
            o.l2_ok(o.lru_list@, o.head),
            (o.lru_list@.len() > 0 ==> o.tail == o.lru_list@.last()),
            (o.lru_list@.len() == 0 ==> o.tail == 0),
            o.l1_ok(o.free_list@, o.free_pages),
            o.l2_ok(o.dirty_list@, o.dirty_pages),
            o.ids_ok(o.lru_list@),
            o.ids_ok(o.free_list@),
            o.ids_ok(o.dirty_list@),
            o.ids_ok(o.held_list@),
            o.lru_list@.no_duplicates(),
            o.free_list@.no_duplicates(),
            o.dirty_list@.no_duplicates(),
            o.held_list@.no_duplicates(),
            forall|id2: BufferId|
                #![trigger o.lru_list@.contains(id2)]
                o.lru_list@.contains(id2) ==> !o.free_list@.contains(id2)
                    && !o.dirty_list@.contains(id2) && !o.held_list@.contains(id2),
            forall|id2: BufferId|
                #![trigger o.free_list@.contains(id2)]
                o.free_list@.contains(id2) ==> !o.dirty_list@.contains(id2)
                    && !o.held_list@.contains(id2),
            forall|id2: BufferId|
                #![trigger o.dirty_list@.contains(id2)]
                o.dirty_list@.contains(id2) ==> !o.held_list@.contains(id2),
            forall|id2: BufferId|
                1 <= id2 < o.used && id2 != id ==> #[trigger] o.on_any_list(id2),
            !o.on_any_list(id),
            forall|b: int| 0 <= b < o.cap() ==> #[trigger] o.chain_ok(b),
            forall|id2: BufferId|
                1 <= id2 < o.used ==> (#[trigger] o.chained(id2) <==> (id2 == id
                    || !o.free_list@.contains(id2))),
            o.chained(id),
            forall|b: int, k: int|
                0 <= b < o.cap() && 0 <= k < o.chains@[b].len() ==> 1 <= #[trigger] o.chains@[b][k]
                    < o.used,
            o.pids_unique_ok(),
            o.states_ok(),
            is_dirty(o.buf(id).state) && o.buf(id).access_count >= 1,
            o.pinned as int == o.held_list@.len() + o.dirty_list@.len() + 2,
            o.dirtied as int == o.dirty_list@.len() + 1,
            o.cached as int == o.used as int - o.free_list@.len(),
            (o.next_sync == 0 || o.dirty_list@.contains(o.next_sync)),
            // `n` relinks `id` at the head of the dirty list.
            n.lru_list@ == o.lru_list@,
            n.free_list@ == o.free_list@,
            n.dirty_list@ == seq![id] + o.dirty_list@,
            n.held_list@ == o.held_list@,
            n.chains@ == o.chains@,
            n.hash_table@ == o.hash_table@,
            n.used == o.used,
            n.cached == o.cached,
            n.dirtied == o.dirtied,
            n.pinned == o.pinned,
            n.head == o.head,
            n.tail == o.tail,
            n.free_pages == o.free_pages,
            n.dirty_pages == id,
            n.next_sync == (if o.next_sync == 0 {
                id
            } else {
                o.next_sync
            }),
            n.pages@.len() == o.pages@.len(),
            forall|j: int|
                #![trigger n.pages@[j]]
                0 <= j < n.pages@.len() && j != id && (o.dirty_pages == 0 || j != o.dirty_pages)
                    ==> n.pages@[j] == o.pages@[j],
            n.buf(id).pid == o.buf(id).pid,
            n.buf(id).state == o.buf(id).state,
            n.buf(id).collision == o.buf(id).collision,
            n.buf(id).access_count == o.buf(id).access_count,
            n.buf(id).next == o.dirty_pages,
            n.buf(id).prev == 0,
            o.dirty_pages != 0 && o.dirty_pages != id ==> n.buf(o.dirty_pages) == (Buffer {
                prev: id,
                ..o.buf(o.dirty_pages)
            }),
        ensures
            n.wf(),
    {
        let d = o.dirty_list@;
        let nd = n.dirty_list@;
        if d.len() > 0 {
            assert(d[0] == o.dirty_pages);
            assert(d.contains(o.dirty_pages));
            assert(o.dirty_pages != id);
            assert(1 <= o.dirty_pages < o.used);
        }
        assert(nd[0] == id);
        assert(nd.contains(id));
        assert forall|k2: int|
            #![trigger n.buf(nd[k2])]
            0 <= k2 < nd.len() implies n.buf(nd[k2]).next == (if k2 + 1 < nd.len() {
            nd[k2 + 1]
        } else {
            0
        }) && n.buf(nd[k2]).prev == (if k2 > 0 {
            nd[k2 - 1]
        } else {
            0
        }) by {
            if k2 == 0 {
                if d.len() > 0 {
                    assert(nd[1] == d[0]);
                }
            } else {
                assert(nd[k2] == d[k2 - 1]);
                assert(d.contains(d[k2 - 1]));
                assert(d[k2 - 1] != id);
                if k2 - 1 == 0 {
                    assert(n.buf(d[0]).prev == id);
                } else {
                    assert(d[k2 - 1] != o.dirty_pages);
                    assert(n.buf(d[k2 - 1]) == o.buf(d[k2 - 1]));
                    assert(nd[k2 - 1] == d[k2 - 2]);
                }
                if k2 + 1 < nd.len() {
                    assert(nd[k2 + 1] == d[k2]);
                }
            }
        }
        assert forall|x: BufferId| nd.contains(x) implies x == id || d.contains(x) by {
            let k3 = choose|k3: int| 0 <= k3 < nd.len() && nd[k3] == x;
            if k3 > 0 {
                assert(d[k3 - 1] == x);
            }
        }
        assert forall|x: BufferId| d.contains(x) implies nd.contains(x) by {
            let k3 = choose|k3: int| 0 <= k3 < d.len() && d[k3] == x;
            assert(nd[k3 + 1] == x);
        }
        assert(nd.no_duplicates()) by {
            assert forall|i: int, j: int|
                0 <= i < nd.len() && 0 <= j < nd.len() && i != j implies nd[i] != nd[j] by {
                if i > 0 && j > 0 {
                    assert(nd[i] == d[i - 1]);
                    assert(nd[j] == d[j - 1]);
                } else if i == 0 {
                    assert(d.contains(d[j - 1]));
                } else {
                    assert(d.contains(d[i - 1]));
                }
            }
        }
        assert(n.l2_ok(n.lru_list@, n.head)) by {
            assert forall|k7: int|
                #![trigger n.buf(n.lru_list@[k7])]
                0 <= k7 < n.lru_list@.len() implies n.buf(n.lru_list@[k7]) == o.buf(
                n.lru_list@[k7],
            ) by {
                assert(n.lru_list@.contains(n.lru_list@[k7]));
                assert(n.lru_list@[k7] != id);
                assert(n.lru_list@[k7] != o.dirty_pages || o.dirty_pages == 0);
            }
        }
        assert(n.l1_ok(n.free_list@, n.free_pages)) by {
            assert forall|k7: int|
                #![trigger n.buf(n.free_list@[k7])]
                0 <= k7 < n.free_list@.len() implies n.buf(n.free_list@[k7]) == o.buf(
                n.free_list@[k7],
            ) by {
                assert(n.free_list@.contains(n.free_list@[k7]));
                assert(n.free_list@[k7] != id);
                assert(n.free_list@[k7] != o.dirty_pages || o.dirty_pages == 0);
            }
        }
        assert forall|id2: BufferId| 1 <= id2 < n.used implies #[trigger] n.on_any_list(id2) by {
            if id2 == id {
                assert(nd.contains(id));
            } else {
                assert(o.on_any_list(id2));
                if d.contains(id2) {
                    assert(nd.contains(id2));
                }
            }
        }
        assert(n.partition_ok());
        assert(n.states_ok()) by {
            assert forall|id2: BufferId|
                #![trigger nd.contains(id2)]
                nd.contains(id2) implies is_dirty(n.buf(id2).state) && n.buf(
                id2,
            ).access_count >= 1 by {
                if id2 != id {
                    assert(d.contains(id2));
                }
            }
            assert forall|id2: BufferId|
                #![trigger n.lru_list@.contains(id2)]
                n.lru_list@.contains(id2) implies n.buf(id2).access_count == 0 && !is_dirty(
                n.buf(id2).state,
            ) by {
                assert(id2 != id);
                if o.dirty_pages != 0 && id2 == o.dirty_pages {
                    assert(d.contains(id2));
                }
            }
            assert forall|id2: BufferId|
                #![trigger n.free_list@.contains(id2)]
                n.free_list@.contains(id2) implies n.buf(id2).access_count == 0 by {
                assert(id2 != id);
                if o.dirty_pages != 0 && id2 == o.dirty_pages {
                    assert(d.contains(id2));
                }
            }
            assert forall|id2: BufferId|
                #![trigger n.held_list@.contains(id2)]
                n.held_list@.contains(id2) implies n.buf(id2).access_count >= 1 && !is_dirty(
                n.buf(id2).state,
            ) by {
                assert(id2 != id);
                if o.dirty_pages != 0 && id2 == o.dirty_pages {
                    assert(d.contains(id2));
                }
            }
        }
        assert(n.ids_ok(nd)) by {
            assert forall|k9: int| #![trigger nd[k9]] 0 <= k9 < nd.len() implies 1 <= nd[k9]
                < n.used by {
                assert(nd.contains(nd[k9]));
            }
        }
        assert forall|j: int|
            #![trigger n.pages@[j]]
            0 <= j < n.pages@.len() implies n.pages@[j].collision == o.pages@[j].collision
            && n.pages@[j].pid == o.pages@[j].pid by {
            if j == id {
            } else if o.dirty_pages != 0 && j == o.dirty_pages {
            } else {
                assert(n.pages@[j] == o.pages@[j]);
            }
        }
        assert forall|b2: int| 0 <= b2 < n.cap() implies #[trigger] n.chain_ok(b2) by {
            assert(o.chain_ok(b2));
            assert forall|k6: int|
                #![trigger n.buf(n.chains@[b2][k6])]
                0 <= k6 < n.chains@[b2].len() implies n.buf(n.chains@[b2][k6]).collision == (if k6
                + 1 < n.chains@[b2].len() {
                n.chains@[b2][k6 + 1]
            } else {
                0
            }) && (n.buf(n.chains@[b2][k6]).pid as int) % n.cap() == b2 by {
                let x = n.chains@[b2][k6];
                assert(1 <= x < o.used);
                assert(n.pages@[x as int].collision == o.pages@[x as int].collision);
                assert(n.pages@[x as int].pid == o.pages@[x as int].pid);
            }
        }
        assert forall|id3: BufferId| 1 <= id3 < n.used implies (#[trigger] n.chained(id3)
            <==> !n.free_list@.contains(id3)) by {
            assert(o.chained(id3) <==> (id3 == id || !o.free_list@.contains(id3)));
            if o.chained(id3) {
                let b3 = choose|b3: int|
                    0 <= b3 < o.cap() && #[trigger] o.chains@[b3].contains(id3);
                assert(n.chains@[b3].contains(id3));
            }
            if n.chained(id3) {
                let b3 = choose|b3: int|
                    0 <= b3 < n.cap() && #[trigger] n.chains@[b3].contains(id3);
                assert(o.chains@[b3].contains(id3));
            }
            if id3 == id {
                assert(o.chained(id));
                assert(!o.free_list@.contains(id));
            }
        }
        assert forall|b1: int, k1: int, b2: int, k2: int|
            0 <= b1 < n.cap() && 0 <= k1 < n.chains@[b1].len() && 0 <= b2 < n.cap() && 0 <= k2
                < n.chains@[b2].len() && (b1 != b2 || k1 != k2) implies n.buf(
            #[trigger] n.chains@[b1][k1],
        ).pid != n.buf(#[trigger] n.chains@[b2][k2]).pid by {
            let x1 = n.chains@[b1][k1];
            let x2 = n.chains@[b2][k2];
            assert(o.buf(x1).pid != o.buf(x2).pid);
            assert(1 <= x1 < o.used);
            assert(1 <= x2 < o.used);
            assert(n.pages@[x1 as int].pid == o.pages@[x1 as int].pid);
            assert(n.pages@[x2 as int].pid == o.pages@[x2 as int].pid);
        }
        assert(n.next_sync == 0 || nd.contains(n.next_sync)) by {
            if o.next_sync == 0 {
                assert(nd.contains(id));
            } else {
                assert(d.contains(o.next_sync));
                assert(nd.contains(o.next_sync));
            }
        }
        assert(n.wf());
    }

    /// After marking a pinned clean slot dirty, everything of
    /// well-formedness holds except that the slot is not linked anywhere
    /// yet: exactly the shape `lemma_dirty_prepend_post` starts from.
    #[verifier::rlimit(100)]
    #[verifier::spinoff_prover]
    proof fn lemma_mark_dirty_mid(o: Self, m: Self, id: BufferId)
        requires
            o.wf(),
            1 <= id < o.used,
            o.held_list@.contains(id),
            o.buf(id).access_count < u16::MAX,
            m.pages@.len() == o.pages@.len(),
            forall|j: int|
                #![trigger m.pages@[j]]
                0 <= j < m.pages@.len() && j != id ==> m.pages@[j] == o.pages@[j],
            m.buf(id).pid == o.buf(id).pid,
            m.buf(id).collision == o.buf(id).collision,
            m.buf(id).next == o.buf(id).next,
            m.buf(id).prev == o.buf(id).prev,
            m.buf(id).access_count as int == o.buf(id).access_count as int + 1,
            is_dirty(m.buf(id).state),
            m.lru_list@ == o.lru_list@,
            m.free_list@ == o.free_list@,
            m.dirty_list@ == o.dirty_list@,
            m.held_list@ == o.held_list@.remove_value(id),
            m.chains@ == o.chains@,
            m.hash_table@ == o.hash_table@,
            m.used == o.used,
            m.cached == o.cached,
            m.dirtied as int == o.dirtied as int + 1,
            m.pinned == o.pinned,
            m.head == o.head,
            m.tail == o.tail,
            m.free_pages == o.free_pages,
            m.dirty_pages == o.dirty_pages,
            m.next_sync == o.next_sync,
        ensures
            m.l2_ok(m.lru_list@, m.head),
            (m.lru_list@.len() > 0 ==> m.tail == m.lru_list@.last()),
            (m.lru_list@.len() == 0 ==> m.tail == 0),
            m.l1_ok(m.free_list@, m.free_pages),
            m.l2_ok(m.dirty_list@, m.dirty_pages),
            m.ids_ok(m.lru_list@),
            m.ids_ok(m.free_list@),
            m.ids_ok(m.dirty_list@),
            m.ids_ok(m.held_list@),
            m.lru_list@.no_duplicates(),
            m.free_list@.no_duplicates(),
            m.dirty_list@.no_duplicates(),
            m.held_list@.no_duplicates(),
            forall|id2: BufferId|
                #![trigger m.lru_list@.contains(id2)]
                m.lru_list@.contains(id2) ==> !m.free_list@.contains(id2)
                    && !m.dirty_list@.contains(id2) && !m.held_list@.contains(id2),
            forall|id2: BufferId|
                #![trigger m.free_list@.contains(id2)]
                m.free_list@.contains(id2) ==> !m.dirty_list@.contains(id2)
                    && !m.held_list@.contains(id2),
            forall|id2: BufferId|
                #![trigger m.dirty_list@.contains(id2)]
                m.dirty_list@.contains(id2) ==> !m.held_list@.contains(id2),
            forall|id2: BufferId|
                1 <= id2 < m.used && id2 != id ==> #[trigger] m.on_any_list(id2),
            !m.on_any_list(id),
            forall|b: int| 0 <= b < m.cap() ==> #[trigger] m.chain_ok(b),
            forall|id2: BufferId|
                1 <= id2 < m.used ==> (#[trigger] m.chained(id2) <==> (id2 == id
                    || !m.free_list@.contains(id2))),
            m.chained(id),
            forall|b: int, k: int|
                0 <= b < m.cap() && 0 <= k < m.chains@[b].len() ==> 1 <= #[trigger] m.chains@[b][k]
                    < m.used,
            m.pids_unique_ok(),
            m.states_ok(),
            is_dirty(m.buf(id).state) && m.buf(id).access_count >= 1,
            m.pinned as int == m.held_list@.len() + m.dirty_list@.len() + 2,
            m.dirtied as int == m.dirty_list@.len() + 1,
            m.cached as int == m.used as int - m.free_list@.len(),
            (m.next_sync == 0 || m.dirty_list@.contains(m.next_sync)),
    {
        let hl = o.held_list@;
        let nh = m.held_list@;
        hl.index_of_first_ensures(id);
        let k = hl.index_of_first(id)->Some_0;
        assert forall|x: BufferId| hl.contains(x) && x != id implies nh.contains(x) by {
            let k4 = choose|k4: int| 0 <= k4 < hl.len() && hl[k4] == x;
            if k4 < k {
                assert(nh[k4] == x);
            } else {
                assert(nh[k4 - 1] == x);
            }
        }
        assert forall|x: BufferId| nh.contains(x) implies hl.contains(x) && x != id by {
            let k5 = choose|k5: int| 0 <= k5 < nh.len() && nh[k5] == x;
            if k5 < k {
                assert(hl[k5] == x);
            } else {
                assert(hl[k5 + 1] == x);
            }
        }
        assert(nh.no_duplicates()) by {
            assert forall|i: int, j: int|
                0 <= i < nh.len() && 0 <= j < nh.len() && i != j implies nh[i] != nh[j] by {
                let a1 = if i < k {
                    i
                } else {
                    i + 1
                };
                let a2 = if j < k {
                    j
                } else {
                    j + 1
                };
                assert(nh[i] == hl[a1]);
                assert(nh[j] == hl[a2]);
            }
        }
        assert(m.l2_ok(m.lru_list@, m.head)) by {
            assert forall|k7: int|
                #![trigger m.buf(m.lru_list@[k7])]
                0 <= k7 < m.lru_list@.len() implies m.buf(m.lru_list@[k7]) == o.buf(
                m.lru_list@[k7],
            ) by {
                assert(m.lru_list@.contains(m.lru_list@[k7]));
                assert(m.lru_list@[k7] != id);
            }
        }
        assert(m.l1_ok(m.free_list@, m.free_pages)) by {
            assert forall|k7: int|
                #![trigger m.buf(m.free_list@[k7])]
                0 <= k7 < m.free_list@.len() implies m.buf(m.free_list@[k7]) == o.buf(
                m.free_list@[k7],
            ) by {
                assert(m.free_list@.contains(m.free_list@[k7]));
                assert(m.free_list@[k7] != id);
            }
        }
        assert(m.l2_ok(m.dirty_list@, m.dirty_pages)) by {
            assert forall|k7: int|
                #![trigger m.buf(m.dirty_list@[k7])]
                0 <= k7 < m.dirty_list@.len() implies m.buf(m.dirty_list@[k7]) == o.buf(
                m.dirty_list@[k7],
            ) by {
                assert(m.dirty_list@.contains(m.dirty_list@[k7]));
                assert(m.dirty_list@[k7] != id);
            }
        }
        assert forall|id2: BufferId|
            1 <= id2 < m.used && id2 != id implies #[trigger] m.on_any_list(id2) by {
            assert(o.on_any_list(id2));
            if hl.contains(id2) {
                assert(nh.contains(id2));
            }
        }
        assert(!m.on_any_list(id));
        assert(m.states_ok()) by {
            assert forall|id2: BufferId|
                #![trigger nh.contains(id2)]
                nh.contains(id2) implies m.buf(id2).access_count >= 1 && !is_dirty(
                m.buf(id2).state,
            ) by {
                assert(hl.contains(id2) && id2 != id);
            }
        }
        assert(m.ids_ok(nh)) by {
            assert forall|k9: int| #![trigger nh[k9]] 0 <= k9 < nh.len() implies 1 <= nh[k9]
                < m.used by {
                assert(nh.contains(nh[k9]));
            }
        }
        assert forall|j: int|
            #![trigger m.pages@[j]]
            0 <= j < m.pages@.len() implies m.pages@[j].collision == o.pages@[j].collision
            && m.pages@[j].pid == o.pages@[j].pid by {}
        Self::lemma_chains_preserved(o, m);
        assert forall|id2: BufferId|
            1 <= id2 < m.used implies (#[trigger] m.chained(id2) <==> (id2 == id
            || !m.free_list@.contains(id2))) by {
            assert(m.chained(id2) <==> !m.free_list@.contains(id2));
            if id2 == id {
                assert(!o.free_list@.contains(id));
            }
        }
        assert(m.chained(id)) by {
            assert(!o.free_list@.contains(id));
            assert(o.chained(id));
            let b3 = choose|b3: int| 0 <= b3 < o.cap() && #[trigger] o.chains@[b3].contains(id);
            assert(m.chains@[b3].contains(id));
        }
        assert forall|b4: int, k4: int|
            0 <= b4 < m.cap() && 0 <= k4 < m.chains@[b4].len() implies 1 <= #[trigger] m.chains@[
            b4
        ][k4] < m.used by {
            assert(m.chain_ok(b4));
        }
    }

    /// Mark the slot dirty if it is not yet, pinning it until the end of
    /// the transaction, and move it to the head of the dirty list.  When
    /// the number of dirty slots exceeds `wal_flush_threshold`, pick the
    /// oldest unpinned dirty slot, mark it synced and report it so the
    /// caller writes it to the log.
    #[verifier::rlimit(100)]
    #[verifier::spinoff_prover]
    pub fn modify_buffer(&mut self, id: BufferId, wal_flush_threshold: BufferId) -> (r: Result<
        Option<(BufferId, PageId)>,
        DbError,
    >)
        requires
            old(self).wf(),
            1 <= id < old(self).used,
            old(self).buf(id).access_count >= 1,
            old(self).buf(id).access_count < u16::MAX,
        ensures
            final(self).wf(),
            r is Ok,
            final(self).used == old(self).used,
            final(self).cached == old(self).cached,
            final(self).free_list@ == old(self).free_list@,
            final(self).lru_list@ == old(self).lru_list@,
            final(self).pages@.len() == old(self).pages@.len(),
            is_dirty(final(self).buf(id).state),
            final(self).dirty_list@.contains(id),
            forall|x: BufferId| #[trigger] final(self).dirty_list@.contains(x) <==> (old(self).dirty_list@.contains(x) || x == id),
            final(self).buf(id).access_count as int == old(self).buf(id).access_count as int + (
            if is_dirty(old(self).buf(id).state) {
                0int
            } else {
                1int
            }),
            forall|j: int|
                #![trigger final(self).pages@[j]]
                0 <= j < final(self).pages@.len()
                    ==> final(self).pages@[j].pid == old(self).pages@[j].pid
                    && (j != id ==> final(self).pages@[j].access_count == old(self).pages@[j].access_count),
            r matches Ok(Some((b, p))) ==> 1 <= b < final(self).used && final(self).dirty_list@.contains(b) && final(self).buf(b).access_count == 1 && p == final(self).buf(b).pid && is_dirty(final(self).buf(b).state) && is_synced(final(self).buf(b).state) && final(self).next_sync == final(self).buf(b).prev,
            r matches Ok(Some(bp)) ==> !is_dirty(old(self).buf(id).state) && final(self).dirtied
                > wal_flush_threshold,
            !is_dirty(old(self).buf(id).state) ==> final(self).dirty_list@ == seq![id] + old(
                self,
            ).dirty_list@ && final(self).buf(id).state == PAGE_DIRTY && final(self).dirtied == old(
                self,
            ).dirtied + 1 && (old(self).dirty_list@.len() == 0 ==> final(self).next_sync == id),
            is_dirty(old(self).buf(id).state) ==> (r matches Ok(None) && final(self).dirtied
                == old(self).dirtied && !is_synced(final(self).buf(id).state)
                && final(self).dirty_list@.len() > 0 && final(self).dirty_list@[0] == id),
            is_dirty(old(self).buf(id).state) && old(self).next_sync == id && old(self).buf(
                id,
            ).prev != 0 ==> final(self).next_sync == old(self).buf(id).prev,
            is_dirty(old(self).buf(id).state) && old(self).next_sync != id && old(self).next_sync
                != 0 ==> final(self).next_sync == old(self).next_sync,
    {
        proof {
            lemma_state_bits();
        }
        let idu = id as usize;
        let was_dirty = self.pages[idu].state & PAGE_DIRTY != 0;
        if !was_dirty {
            proof {
                assert(old(self).on_any_list(id));
                if old(self).lru_list@.contains(id) {
                    assert(old(self).buf(id).access_count == 0);
                }
                if old(self).free_list@.contains(id) {
                    assert(old(self).buf(id).access_count == 0);
                }
                if old(self).dirty_list@.contains(id) {
                    assert(is_dirty(old(self).buf(id).state));
                }
                assert(old(self).held_list@.contains(id));
                old(self).lemma_lists_bounded();
            }
            let mut b = self.pages[idu];
            b.access_count = b.access_count + 1;
            b.state = PAGE_DIRTY;
            self.pages[idu] = b;
            self.dirtied = self.dirtied + 1;
            proof {
                self.held_list@ = old(self).held_list@.remove_value(id);
                Self::lemma_mark_dirty_mid(*old(self), *self, id);
            }
            let ghost mid = *self;
            // Link at the head of the dirty list.
            let old_head = self.dirty_pages;
            proof {
                if old_head != 0 {
                    assert(mid.dirty_list@.len() > 0 && mid.dirty_list@[0] == old_head) by {
                        if mid.dirty_list@.len() == 0 {
                            assert(mid.dirty_pages == 0);
                        }
                    }
                    assert(mid.dirty_list@.contains(old_head));
                    assert(1 <= old_head < self.used);
                    assert(old_head != id);
                }
            }
            if old_head != 0 {
                let hu = old_head as usize;
                let mut hb = self.pages[hu];
                hb.prev = id;
                self.pages[hu] = hb;
            }
            if self.next_sync == 0 {
                self.next_sync = id;
            }
            let mut b2 = self.pages[idu];
            b2.next = old_head;
            b2.prev = 0;
            self.pages[idu] = b2;
            self.dirty_pages = id;
            proof {
                self.dirty_list@ = seq![id] + mid.dirty_list@;
                Self::lemma_dirty_prepend_post(mid, *self, id);
                assert forall|x: BufferId| #[trigger] self.dirty_list@.contains(x) implies (old(self).dirty_list@.contains(x) || x == id) by {
                    let k3 = choose|k3: int|
                        0 <= k3 < self.dirty_list@.len() && self.dirty_list@[k3] == x;
                    if k3 > 0 {
                        assert(old(self).dirty_list@[k3 - 1] == x);
                    }
                }
                assert forall|x: BufferId|
                    old(self).dirty_list@.contains(x) || x == id implies #[trigger] self
                    .dirty_list@.contains(x) by {
                    if x == id {
                        assert(self.dirty_list@[0] == id);
                    } else {
                        let k3 = choose|k3: int|
                            0 <= k3 < old(self).dirty_list@.len() && old(self).dirty_list@[k3]
                                == x;
                        assert(self.dirty_list@[k3 + 1] == x);
                    }
                }
            }
            let mut result: Option<(BufferId, PageId)> = None;
            if self.dirtied > wal_flush_threshold {
                let ghost w = *self;
                let ghost d = w.dirty_list@;
                let mut sync = self.next_sync;
                let ghost mut ks: int = 0;
                proof {
                    if sync != 0 {
                        assert(d.contains(sync));
                        ks = choose|ks2: int| 0 <= ks2 < d.len() && d[ks2] == sync;
                    }
                }
                while sync != 0
                    invariant_except_break
                        *self == w,
                        result is None,
                    invariant
                        self.wf(),
                        d == self.dirty_list@,
                        w.wf(),
                        d == w.dirty_list@,
                        sync != 0 ==> 0 <= ks < d.len() && d[ks] == sync,
                    ensures
                        self.wf(),
                        self.dirty_list@ == w.dirty_list@,
                        self.lru_list@ == w.lru_list@,
                        self.free_list@ == w.free_list@,
                        self.used == w.used,
                        self.cached == w.cached,
                        self.pages@.len() == w.pages@.len(),
                        forall|j: int|
                            #![trigger self.pages@[j]]
                            0 <= j < self.pages@.len() ==> self.pages@[j].pid == w.pages@[j].pid
                                && self.pages@[j].access_count == w.pages@[j].access_count
                                && (is_dirty(self.pages@[j].state) == is_dirty(w.pages@[j].state)),
                        match result {
                            None => *self == w,
                            Some((b3, p3)) => 1 <= b3 < self.used && self.dirty_list@.contains(b3)
                                && self.buf(b3).access_count == 1 && p3 == self.buf(b3).pid
                                && is_dirty(self.buf(b3).state) && is_synced(self.buf(b3).state)
                                && self.next_sync == self.buf(b3).prev && self.dirtied == w.dirtied
                                && (forall|j: int|
                                #![trigger self.pages@[j]]
                                0 <= j < self.pages@.len() && j != b3 ==> self.pages@[j]
                                    == w.pages@[j]),
                        },
                    decreases ks + 1,
                {
                    proof {
                        assert(d.contains(d[ks]));
                        assert(1 <= sync < self.used);
                    }
                    let su = sync as usize;
                    if self.pages[su].access_count == 1 {
                        let prev = self.pages[su].prev;
                        let spid = self.pages[su].pid;
                        let mut sb = self.pages[su];
                        sb.state = sb.state | PAGE_SYNCED;
                        self.pages[su] = sb;
                        proof {
                            lemma_state_bits();
                            assert(is_dirty(w.buf(sync).state));
                            assert(is_dirty(self.buf(sync).state));
                            assert(is_synced(self.buf(sync).state));
                            if ks > 0 {
                                assert(prev == d[ks - 1]);
                                assert(d.contains(d[ks - 1]));
                            } else {
                                assert(prev == 0);
                            }
                        }
                        self.next_sync = prev;
                        proof {
                            Self::lemma_field_update_wf(w, *self, sync);
                            assert(self.dirty_list@.contains(sync));
                        }
                        result = Some((sync, spid));
                        break;
                    }
                    proof {
                        if ks == 0 {
                            assert(self.buf(sync).prev == 0);
                        } else {
                            assert(self.buf(sync).prev == d[ks - 1]);
                            assert(d.contains(d[ks - 1]));
                        }
                    }
                    sync = self.pages[su].prev;
                    proof {
                        ks = ks - 1;
                    }
                }
            }
            proof {
                if old(self).dirty_list@.len() == 0 {
                    match result {
                        Some((b3, p3)) => {
                            assert(self.dirty_list@.contains(b3));
                            assert(self.dirty_list@ == seq![id] + old(self).dirty_list@);
                            assert(self.dirty_list@.len() == 1);
                            assert(b3 == id);
                            assert(self.buf(id).access_count >= 2);
                            assert(false);
                        },
                        None => {
                        },
                    }
                }
            }
            Ok(result)
        } else {
            self.requeue_dirty(id);
            Ok(None)
        }
    }

    /// Move an already-dirty slot back to the head of the dirty list and
    /// clear its synced bit, so commit writes its newest image again.
    #[verifier::rlimit(100)]
    #[verifier::spinoff_prover]
    fn requeue_dirty(&mut self, id: BufferId)
        requires
            old(self).wf(),
            1 <= id < old(self).used,
            old(self).buf(id).access_count >= 1,
            is_dirty(old(self).buf(id).state),
        ensures
            final(self).wf(),
            final(self).used == old(self).used,
            final(self).cached == old(self).cached,
            final(self).free_list@ == old(self).free_list@,
            final(self).lru_list@ == old(self).lru_list@,
            final(self).pages@.len() == old(self).pages@.len(),
            is_dirty(final(self).buf(id).state),
            final(self).dirty_list@.contains(id),
            forall|x: BufferId| #[trigger] final(self).dirty_list@.contains(x) <==> (old(self).dirty_list@.contains(x) || x == id),
            final(self).buf(id).access_count == old(self).buf(id).access_count,
            final(self).dirtied == old(self).dirtied,
            final(self).pinned == old(self).pinned,
            final(self).held_list@ == old(self).held_list@,
            !is_synced(final(self).buf(id).state),
            final(self).dirty_list@.len() > 0 && final(self).dirty_list@[0] == id,
            final(self).dirty_list@ == seq![id] + old(self).dirty_list@.remove_value(id),
            forall|j: int|
                #![trigger final(self).pages@[j]]
                0 <= j < final(self).pages@.len() && j != id ==> final(self).pages@[j].state
                    == old(self).pages@[j].state,
            old(self).next_sync == id && old(self).buf(id).prev != 0 ==> final(self).next_sync
                == old(self).buf(id).prev,
            old(self).next_sync != id && old(self).next_sync != 0 ==> final(self).next_sync == old(
                self,
            ).next_sync,
            forall|j: int|
                #![trigger final(self).pages@[j]]
                0 <= j < final(self).pages@.len()
                    ==> final(self).pages@[j].pid == old(self).pages@[j].pid
                    && final(self).pages@[j].access_count == old(self).pages@[j].access_count,
    {
        proof {
            lemma_state_bits();
            assert(old(self).on_any_list(id));
            if old(self).lru_list@.contains(id) {
                assert(!is_dirty(old(self).buf(id).state));
            }
            if old(self).free_list@.contains(id) {
                assert(old(self).buf(id).access_count == 0);
            }
            if old(self).held_list@.contains(id) {
                assert(!is_dirty(old(self).buf(id).state));
            }
            assert(old(self).dirty_list@.contains(id));
        }
        let idu = id as usize;
        let mut b = self.pages[idu];
        b.state = b.state & (!PAGE_SYNCED);
        self.pages[idu] = b;
        let ghost cl = *self;
        proof {
            Self::lemma_field_update_wf(*old(self), cl, id);
        }
        let prev = self.pages[idu].prev;
        let ghost d0 = old(self).dirty_list@;
        let ghost kd = choose|kd: int| 0 <= kd < d0.len() && d0[kd] == id;
        if prev == 0 {
            // Already at the head of the dirty list: nothing to move.
            proof {
                assert(cl.dirty_list@.contains(id));
                assert(forall|x: BufferId| #[trigger] self.dirty_list@.contains(x) <==> (old(self).dirty_list@.contains(x) || x == id));
                assert(d0.contains(id));
                assert(0 <= kd < d0.len() && d0[kd] == id);
                if kd > 0 {
                    assert(cl.buf(d0[kd]).prev == d0[kd - 1]);
                    assert(d0.contains(d0[kd - 1]));
                }
                assert(kd == 0);
                assert(self.dirty_list@[0] == id);
                d0.index_of_first_ensures(id);
                assert(d0.index_of_first(id) == Some(0int)) by {
                    let f = d0.index_of_first(id)->Some_0;
                    if f > 0 {
                        assert(d0[f] == d0[0]);
                    }
                }
                assert(d0.remove_value(id) == d0.remove(0));
                assert(self.dirty_list@ =~= seq![id] + d0.remove(0));
            }
            return ;
        }
        // Unlink the slot, then relink it at the head.
        proof {
            assert(kd > 0) by {
                if kd == 0 {
                    assert(cl.buf(id).prev == 0);
                }
            }
            assert(prev == d0[kd - 1]);
            assert(d0.contains(d0[kd - 1]));
            assert(1 <= prev < self.used);
            assert(prev != id);
        }
        if self.next_sync == id {
            self.next_sync = prev;
        }
        let next = self.pages[idu].next;
        proof {
            if kd + 1 < d0.len() {
                assert(next == d0[kd + 1]);
                assert(d0.contains(d0[kd + 1]));
                assert(1 <= next < self.used);
                assert(next != id);
            } else {
                assert(next == 0);
            }
        }
        let pu = prev as usize;
        let mut pb = self.pages[pu];
        pb.next = next;
        self.pages[pu] = pb;
        if next != 0 {
            let nu = next as usize;
            let mut nb = self.pages[nu];
            nb.prev = prev;
            self.pages[nu] = nb;
        }
        proof {
            self.dirty_list@ = d0.remove(kd);
            Self::lemma_dirty_unlink_mid(cl, *self, id, kd);
        }
        let ghost mid = *self;
        let old_head = self.dirty_pages;
        proof {
            assert(d0[0] == old_head);
            assert(mid.dirty_list@[0] == old_head);
            assert(mid.dirty_list@.contains(old_head));
            assert(1 <= old_head < self.used);
            assert(old_head != id);
        }
        if old_head != 0 {
            let hu = old_head as usize;
            let mut hb = self.pages[hu];
            hb.prev = id;
            self.pages[hu] = hb;
        }
        if self.next_sync == 0 {
            self.next_sync = id;
        }
        let mut b2 = self.pages[idu];
        b2.next = old_head;
        b2.prev = 0;
        self.pages[idu] = b2;
        self.dirty_pages = id;
        proof {
            self.dirty_list@ = seq![id] + mid.dirty_list@;
            Self::lemma_dirty_prepend_post(mid, *self, id);
            assert forall|x: BufferId| #[trigger] self.dirty_list@.contains(x) implies (old(self).dirty_list@.contains(x) || x == id) by {
                let k3 = choose|k3: int|
                    0 <= k3 < self.dirty_list@.len() && self.dirty_list@[k3] == x;
                if k3 > 0 {
                    assert(mid.dirty_list@.contains(x));
                    let k4 = choose|k4: int|
                        0 <= k4 < mid.dirty_list@.len() && mid.dirty_list@[k4] == x;
                    let a = if k4 < kd {
                        k4
                    } else {
                        k4 + 1
                    };
                    assert(d0[a] == x);
                    assert(d0.contains(x));
                }
            }
            assert forall|x: BufferId|
                old(self).dirty_list@.contains(x) || x == id implies #[trigger] self
                .dirty_list@.contains(x) by {
                if x == id {
                    assert(self.dirty_list@[0] == id);
                } else {
                    let k3 = choose|k3: int| 0 <= k3 < d0.len() && d0[k3] == x;
                    if k3 != kd {
                        let a = if k3 < kd {
                            k3
                        } else {
                            k3 - 1
                        };
                        assert(mid.dirty_list@[a] == x);
                        assert(mid.dirty_list@.contains(x));
                        assert(self.dirty_list@[a + 1] == x);
                    }
                }
            }
            d0.index_of_first_ensures(id);
            assert(d0.index_of_first(id) == Some(kd)) by {
                let f = d0.index_of_first(id)->Some_0;
                if f != kd {
                    assert(d0[f] == d0[kd]);
                }
            }
            assert(d0.remove_value(id) == d0.remove(kd));
        }
    }

    /// After unlinking an already-dirty slot from the middle of the dirty
    /// list, the manager has exactly the shape `lemma_dirty_prepend_post`
    /// starts from.
    #[verifier::rlimit(100)]
    #[verifier::spinoff_prover]
    proof fn lemma_dirty_unlink_mid(o: Self, m: Self, id: BufferId, k: int)
        requires
            o.wf(),
            1 <= id < o.used,
            1 <= k < o.dirty_list@.len(),
            o.dirty_list@[k] == id,
            m.pages@.len() == o.pages@.len(),
            forall|j: int|
                #![trigger m.pages@[j]]
                0 <= j < m.pages@.len() && j != id && j != o.buf(id).prev && (o.buf(id).next == 0
                    || j != o.buf(id).next) ==> m.pages@[j] == o.pages@[j],
            m.buf(id) == o.buf(id),
            m.buf(o.buf(id).prev) == (Buffer { next: o.buf(id).next, ..o.buf(o.buf(id).prev) }),
            o.buf(id).next != 0 && o.buf(id).next != o.buf(id).prev ==> m.buf(o.buf(id).next)
                == (Buffer { prev: o.buf(id).prev, ..o.buf(o.buf(id).next) }),
            m.lru_list@ == o.lru_list@,
            m.free_list@ == o.free_list@,
            m.dirty_list@ == o.dirty_list@.remove(k),
            m.held_list@ == o.held_list@,
            m.chains@ == o.chains@,
            m.hash_table@ == o.hash_table@,
            m.used == o.used,
            m.cached == o.cached,
            m.dirtied == o.dirtied,
            m.pinned == o.pinned,
            m.head == o.head,
            m.tail == o.tail,
            m.free_pages == o.free_pages,
            m.dirty_pages == o.dirty_pages,
            m.next_sync == (if o.next_sync == id {
                o.buf(id).prev
            } else {
                o.next_sync
            }),
        ensures
            m.l2_ok(m.lru_list@, m.head),
            (m.lru_list@.len() > 0 ==> m.tail == m.lru_list@.last()),
            (m.lru_list@.len() == 0 ==> m.tail == 0),
            m.l1_ok(m.free_list@, m.free_pages),
            m.l2_ok(m.dirty_list@, m.dirty_pages),
            m.ids_ok(m.lru_list@),
            m.ids_ok(m.free_list@),
            m.ids_ok(m.dirty_list@),
            m.ids_ok(m.held_list@),
            m.lru_list@.no_duplicates(),
            m.free_list@.no_duplicates(),
            m.dirty_list@.no_duplicates(),
            m.held_list@.no_duplicates(),
            forall|id2: BufferId|
                #![trigger m.lru_list@.contains(id2)]
                m.lru_list@.contains(id2) ==> !m.free_list@.contains(id2)
                    && !m.dirty_list@.contains(id2) && !m.held_list@.contains(id2),
            forall|id2: BufferId|
                #![trigger m.free_list@.contains(id2)]
                m.free_list@.contains(id2) ==> !m.dirty_list@.contains(id2)
                    && !m.held_list@.contains(id2),
            forall|id2: BufferId|
                #![trigger m.dirty_list@.contains(id2)]
                m.dirty_list@.contains(id2) ==> !m.held_list@.contains(id2),
            forall|id2: BufferId|
                1 <= id2 < m.used && id2 != id ==> #[trigger] m.on_any_list(id2),
            !m.on_any_list(id),
            forall|b: int| 0 <= b < m.cap() ==> #[trigger] m.chain_ok(b),
            forall|id2: BufferId|
                1 <= id2 < m.used ==> (#[trigger] m.chained(id2) <==> (id2 == id
                    || !m.free_list@.contains(id2))),
            m.chained(id),
            forall|b: int, k2: int|
                0 <= b < m.cap() && 0 <= k2 < m.chains@[b].len() ==> 1 <= #[trigger] m.chains@[b][
                    k2
                ] < m.used,
            m.pids_unique_ok(),
            m.states_ok(),
            is_dirty(m.buf(id).state) && m.buf(id).access_count >= 1,
            m.pinned as int == m.held_list@.len() + m.dirty_list@.len() + 2,
            m.dirtied as int == m.dirty_list@.len() + 1,
            m.cached as int == m.used as int - m.free_list@.len(),
            (m.next_sync == 0 || m.dirty_list@.contains(m.next_sync)),
            m.dirty_pages != 0 ==> m.dirty_list@.len() > 0 && m.dirty_list@[0] == m.dirty_pages,
    {
        let d = o.dirty_list@;
        let nd = m.dirty_list@;
        let prev = o.buf(id).prev;
        let next = o.buf(id).next;
        assert(d.contains(id));
        assert(prev == d[k - 1]);
        assert(d.contains(d[k - 1]));
        assert(1 <= prev < o.used);
        assert(prev != id);
        if k + 1 < d.len() {
            assert(next == d[k + 1]);
            assert(d.contains(d[k + 1]));
            assert(next != id);
            assert(next != prev);
        } else {
            assert(next == 0);
        }
        assert forall|x: BufferId| nd.contains(x) implies d.contains(x) && x != id by {
            let k2 = choose|k2: int| 0 <= k2 < nd.len() && nd[k2] == x;
            if k2 < k {
                assert(d[k2] == x);
            } else {
                assert(d[k2 + 1] == x);
            }
        }
        assert forall|x: BufferId| d.contains(x) && x != id implies nd.contains(x) by {
            let k2 = choose|k2: int| 0 <= k2 < d.len() && d[k2] == x;
            if k2 < k {
                assert(nd[k2] == x);
            } else {
                assert(nd[k2 - 1] == x);
            }
        }
        assert(nd.no_duplicates()) by {
            assert forall|i: int, j: int|
                0 <= i < nd.len() && 0 <= j < nd.len() && i != j implies nd[i] != nd[j] by {
                let a1 = if i < k {
                    i
                } else {
                    i + 1
                };
                let a2 = if j < k {
                    j
                } else {
                    j + 1
                };
                assert(nd[i] == d[a1]);
                assert(nd[j] == d[a2]);
            }
        }
        assert(m.l2_ok(nd, m.dirty_pages)) by {
            assert(nd[0] == d[0]);
            assert forall|k2: int|
                #![trigger m.buf(nd[k2])]
                0 <= k2 < nd.len() implies m.buf(nd[k2]).next == (if k2 + 1 < nd.len() {
                nd[k2 + 1]
            } else {
                0
            }) && m.buf(nd[k2]).prev == (if k2 > 0 {
                nd[k2 - 1]
            } else {
                0
            }) by {
                let a = if k2 < k {
                    k2
                } else {
                    k2 + 1
                };
                assert(nd[k2] == d[a]);
                assert(d.contains(d[a]));
                assert(d[a] != id);
                if a == k - 1 {
                    assert(m.buf(d[a]).next == next);
                    if k + 1 < d.len() {
                        assert(nd[k2 + 1] == d[k + 1]);
                    }
                    if k2 > 0 {
                        assert(nd[k2 - 1] == d[k2 - 1]);
                    }
                } else if a == k + 1 {
                    assert(m.buf(d[a]).prev == prev);
                    assert(nd[k2 - 1] == d[k - 1]);
                    if k2 + 1 < nd.len() {
                        assert(nd[k2 + 1] == d[k2 + 2]);
                    }
                } else {
                    assert(d[a] != prev);
                    assert(d[a] != next || next == 0);
                    assert(m.buf(d[a]) == o.buf(d[a]));
                    if k2 + 1 < nd.len() {
                        let a3 = if k2 + 1 < k {
                            k2 + 1
                        } else {
                            k2 + 2
                        };
                        assert(nd[k2 + 1] == d[a3]);
                    }
                    if k2 > 0 {
                        let a4 = if k2 - 1 < k {
                            k2 - 1
                        } else {
                            k2
                        };
                        assert(nd[k2 - 1] == d[a4]);
                    }
                }
            }
        }
        assert(m.l2_ok(m.lru_list@, m.head)) by {
            assert forall|k7: int|
                #![trigger m.buf(m.lru_list@[k7])]
                0 <= k7 < m.lru_list@.len() implies m.buf(m.lru_list@[k7]) == o.buf(
                m.lru_list@[k7],
            ) by {
                let x = m.lru_list@[k7];
                assert(m.lru_list@.contains(x));
                assert(x != id && x != prev);
                assert(x != next || next == 0);
            }
        }
        assert(m.l1_ok(m.free_list@, m.free_pages)) by {
            assert forall|k7: int|
                #![trigger m.buf(m.free_list@[k7])]
                0 <= k7 < m.free_list@.len() implies m.buf(m.free_list@[k7]) == o.buf(
                m.free_list@[k7],
            ) by {
                let x = m.free_list@[k7];
                assert(m.free_list@.contains(x));
                assert(x != id && x != prev);
                assert(x != next || next == 0);
            }
        }
        assert forall|id2: BufferId|
            1 <= id2 < m.used && id2 != id implies #[trigger] m.on_any_list(id2) by {
            assert(o.on_any_list(id2));
            if d.contains(id2) && id2 != id {
                assert(nd.contains(id2));
            }
        }
        assert(!m.on_any_list(id));
        assert(m.states_ok()) by {
            assert forall|id2: BufferId|
                #![trigger nd.contains(id2)]
                nd.contains(id2) implies is_dirty(m.buf(id2).state) && m.buf(
                id2,
            ).access_count >= 1 by {
                assert(d.contains(id2));
            }
            assert forall|id2: BufferId|
                #![trigger m.lru_list@.contains(id2)]
                m.lru_list@.contains(id2) implies m.buf(id2).access_count == 0 && !is_dirty(
                m.buf(id2).state,
            ) by {
                assert(id2 != prev && id2 != id);
                if next != 0 && id2 == next {
                    assert(d.contains(next));
                }
            }
            assert forall|id2: BufferId|
                #![trigger m.free_list@.contains(id2)]
                m.free_list@.contains(id2) implies m.buf(id2).access_count == 0 by {
                assert(id2 != prev && id2 != id);
                if next != 0 && id2 == next {
                    assert(d.contains(next));
                }
            }
            assert forall|id2: BufferId|
                #![trigger m.held_list@.contains(id2)]
                m.held_list@.contains(id2) implies m.buf(id2).access_count >= 1 && !is_dirty(
                m.buf(id2).state,
            ) by {
                assert(id2 != prev && id2 != id);
                if next != 0 && id2 == next {
                    assert(d.contains(next));
                }
            }
        }
        assert(m.ids_ok(nd)) by {
            assert forall|k9: int| #![trigger nd[k9]] 0 <= k9 < nd.len() implies 1 <= nd[k9]
                < m.used by {
                assert(nd.contains(nd[k9]));
            }
        }
        assert forall|j: int|
            #![trigger m.pages@[j]]
            0 <= j < m.pages@.len() implies m.pages@[j].collision == o.pages@[j].collision
            && m.pages@[j].pid == o.pages@[j].pid by {
            if j == id {
            } else if j == prev {
            } else if next != 0 && j == next {
            } else {
                assert(m.pages@[j] == o.pages@[j]);
            }
        }
        Self::lemma_chains_preserved(o, m);
        assert forall|id2: BufferId|
            1 <= id2 < m.used implies (#[trigger] m.chained(id2) <==> (id2 == id
            || !m.free_list@.contains(id2))) by {
            assert(m.chained(id2) <==> !m.free_list@.contains(id2));
            if id2 == id {
                assert(!o.free_list@.contains(id));
            }
        }
        assert(m.chained(id)) by {
            assert(!o.free_list@.contains(id));
            assert(o.chained(id));
            let b3 = choose|b3: int| 0 <= b3 < o.cap() && #[trigger] o.chains@[b3].contains(id);
            assert(m.chains@[b3].contains(id));
        }
        assert forall|b4: int, k4: int|
            0 <= b4 < m.cap() && 0 <= k4 < m.chains@[b4].len() implies 1 <= #[trigger] m.chains@[
            b4
        ][k4] < m.used by {
            assert(m.chain_ok(b4));
        }
        assert(m.next_sync == 0 || nd.contains(m.next_sync)) by {
            if o.next_sync == id {
                assert(nd[k - 1] == d[k - 1]);
                assert(nd.contains(prev));
            } else if o.next_sync != 0 {
                assert(d.contains(o.next_sync));
                assert(o.next_sync != id);
                assert(nd.contains(o.next_sync));
            }
        }
        assert(m.dirty_pages != 0 ==> nd.len() > 0 && nd[0] == m.dirty_pages) by {
            assert(d[0] == o.dirty_pages);
            assert(nd[0] == d[0]);
        }
    }

    /// The shape of the manager while one slot is being claimed: everything
    /// of well-formedness holds, except that the slot in hand is on no list
    /// and in no chain, and is accounted as pinned.
    pub open spec fn claiming(self, id: BufferId) -> bool {
        &&& self.pages.len() == self.hash_table.len()
        &&& 1 <= self.used as int <= self.cap()
        &&& self.cap() <= 0xffff_ffff
        &&& self.chains@.len() == self.cap()
        &&& 1 <= id < self.used
        &&& self.l2_ok(self.lru_list@, self.head)
        &&& (self.lru_list@.len() > 0 ==> self.tail == self.lru_list@.last())
        &&& (self.lru_list@.len() == 0 ==> self.tail == 0)
        &&& self.l1_ok(self.free_list@, self.free_pages)
        &&& self.l2_ok(self.dirty_list@, self.dirty_pages)
        &&& self.ids_ok(self.lru_list@)
        &&& self.ids_ok(self.free_list@)
        &&& self.ids_ok(self.dirty_list@)
        &&& self.ids_ok(self.held_list@)
        &&& self.lru_list@.no_duplicates()
        &&& self.free_list@.no_duplicates()
        &&& self.dirty_list@.no_duplicates()
        &&& self.held_list@.no_duplicates()
        &&& forall|id2: BufferId|
            #![trigger self.lru_list@.contains(id2)]
            self.lru_list@.contains(id2) ==> !self.free_list@.contains(id2)
                && !self.dirty_list@.contains(id2) && !self.held_list@.contains(id2)
        &&& forall|id2: BufferId|
            #![trigger self.free_list@.contains(id2)]
            self.free_list@.contains(id2) ==> !self.dirty_list@.contains(id2)
                && !self.held_list@.contains(id2)
        &&& forall|id2: BufferId|
            #![trigger self.dirty_list@.contains(id2)]
            self.dirty_list@.contains(id2) ==> !self.held_list@.contains(id2)
        &&& forall|id2: BufferId|
            1 <= id2 < self.used && id2 != id ==> #[trigger] self.on_any_list(id2)
        &&& !self.on_any_list(id)
        &&& forall|b: int| 0 <= b < self.cap() ==> #[trigger] self.chain_ok(b)
        &&& forall|id2: BufferId|
            1 <= id2 < self.used ==> (#[trigger] self.chained(id2) <==> (id2 != id
                && !self.free_list@.contains(id2)))
        &&& forall|b: int, k: int|
            0 <= b < self.cap() && 0 <= k < self.chains@[b].len() ==> 1 <= #[trigger] self.chains@[
                b
            ][k] < self.used
        &&& self.pids_unique_ok()
        &&& self.states_ok()
        &&& self.pinned as int == self.held_list@.len() + self.dirty_list@.len() + 2
        &&& self.dirtied as int == self.dirty_list@.len()
        &&& self.cached as int == self.used as int - self.free_list@.len()
        &&& (self.next_sync == 0 || self.dirty_list@.contains(self.next_sync))
    }

    /// Chain invariants transfer to a state with identical pages, table,
    /// chains and `used`.
    proof fn lemma_chains_frame(o: Self, n: Self)
        requires
            o.chains_wf(),
            n.pages@ == o.pages@,
            n.hash_table@ == o.hash_table@,
            n.chains@ == o.chains@,
            n.used == o.used,
        ensures
            n.chains_wf(),
    {
        assert forall|b2: int| 0 <= b2 < n.cap() implies #[trigger] n.chain_ok(b2) by {
            assert(o.chain_ok(b2));
            assert forall|k6: int|
                #![trigger n.buf(n.chains@[b2][k6])]
                0 <= k6 < n.chains@[b2].len() implies n.buf(n.chains@[b2][k6]).collision == (if k6
                + 1 < n.chains@[b2].len() {
                n.chains@[b2][k6 + 1]
            } else {
                0
            }) && (n.buf(n.chains@[b2][k6]).pid as int) % n.cap() == b2 by {
                assert(o.buf(o.chains@[b2][k6]) == n.buf(n.chains@[b2][k6]));
            }
        }
        assert forall|b1: int, k1: int, b2: int, k2: int|
            0 <= b1 < n.cap() && 0 <= k1 < n.chains@[b1].len() && 0 <= b2 < n.cap() && 0 <= k2
                < n.chains@[b2].len() && (b1 != b2 || k1 != k2) implies n.buf(
            #[trigger] n.chains@[b1][k1],
        ).pid != n.buf(#[trigger] n.chains@[b2][k2]).pid by {
            assert(o.buf(o.chains@[b1][k1]).pid != o.buf(o.chains@[b2][k2]).pid);
        }
    }

    /// List threading transfers to a state with identical pages, lists and
    /// heads.
    proof fn lemma_lists_frame(o: Self, n: Self)
        requires
            n.pages@ == o.pages@,
            n.lru_list@ == o.lru_list@,
            n.free_list@ == o.free_list@,
            n.dirty_list@ == o.dirty_list@,
            n.head == o.head,
            n.free_pages == o.free_pages,
            n.dirty_pages == o.dirty_pages,
            o.l2_ok(o.lru_list@, o.head),
            o.l1_ok(o.free_list@, o.free_pages),
            o.l2_ok(o.dirty_list@, o.dirty_pages),
        ensures
            n.l2_ok(n.lru_list@, n.head),
            n.l1_ok(n.free_list@, n.free_pages),
            n.l2_ok(n.dirty_list@, n.dirty_pages),
    {
        assert forall|k7: int|
            #![trigger n.buf(n.lru_list@[k7])]
            0 <= k7 < n.lru_list@.len() implies n.buf(n.lru_list@[k7]) == o.buf(
            o.lru_list@[k7],
        ) by {}
        assert forall|k7: int|
            #![trigger n.buf(n.free_list@[k7])]
            0 <= k7 < n.free_list@.len() implies n.buf(n.free_list@[k7]) == o.buf(
            o.free_list@[k7],
        ) by {}
        assert forall|k7: int|
            #![trigger n.buf(n.dirty_list@[k7])]
            0 <= k7 < n.dirty_list@.len() implies n.buf(n.dirty_list@[k7]) == o.buf(
            o.dirty_list@[k7],
        ) by {}
    }

    /// Popping the head of the free list puts the manager in claiming
    /// shape for that slot.
    #[verifier::rlimit(100)]
    #[verifier::spinoff_prover]
    proof fn lemma_pop_free_post(o: Self, n: Self, h: BufferId)
        requires
            o.wf(),
            o.free_list@.len() > 0,
            o.free_list@[0] == h,
            n.pages@ == o.pages@,
            n.hash_table@ == o.hash_table@,
            n.chains@ == o.chains@,
            n.lru_list@ == o.lru_list@,
            n.free_list@ == o.free_list@.drop_first(),
            n.dirty_list@ == o.dirty_list@,
            n.held_list@ == o.held_list@,
            n.head == o.head,
            n.tail == o.tail,
            n.free_pages == o.buf(h).next,
            n.dirty_pages == o.dirty_pages,
            n.next_sync == o.next_sync,
            n.used == o.used,
            n.pinned as int == o.pinned as int + 1,
            n.dirtied == o.dirtied,
            n.cached as int == o.cached as int + 1,
        ensures
            n.claiming(h),
            n.buf(h).access_count == 0,
    {
        let f = o.free_list@;
        let nf = n.free_list@;
        assert(f.contains(h));
        assert(1 <= h < o.used);
        assert forall|x: BufferId| nf.contains(x) implies f.contains(x) && x != h by {
            let k2 = choose|k2: int| 0 <= k2 < nf.len() && nf[k2] == x;
            assert(f[k2 + 1] == x);
        }
        assert forall|x: BufferId| f.contains(x) && x != h implies nf.contains(x) by {
            let k2 = choose|k2: int| 0 <= k2 < f.len() && f[k2] == x;
            assert(k2 > 0);
            assert(nf[k2 - 1] == x);
        }
        assert(nf.no_duplicates()) by {
            assert forall|i: int, j: int|
                0 <= i < nf.len() && 0 <= j < nf.len() && i != j implies nf[i] != nf[j] by {
                assert(nf[i] == f[i + 1]);
                assert(nf[j] == f[j + 1]);
            }
        }
        assert(n.l1_ok(nf, n.free_pages)) by {
            if nf.len() > 0 {
                assert(nf[0] == f[1]);
                assert(o.buf(f[0]).next == f[1]);
            } else {
                assert(o.buf(f[0]).next == 0);
            }
            assert forall|k2: int|
                #![trigger n.buf(nf[k2])]
                0 <= k2 < nf.len() implies n.buf(nf[k2]).next == (if k2 + 1 < nf.len() {
                nf[k2 + 1]
            } else {
                0
            }) by {
                assert(nf[k2] == f[k2 + 1]);
                assert(f.contains(f[k2 + 1]));
                assert(o.buf(f[k2 + 1]).next == (if k2 + 2 < f.len() {
                    f[k2 + 2]
                } else {
                    0
                }));
                if k2 + 1 < nf.len() {
                    assert(nf[k2 + 1] == f[k2 + 2]);
                }
            }
        }
        assert forall|id2: BufferId|
            1 <= id2 < n.used && id2 != h implies #[trigger] n.on_any_list(id2) by {
            assert(o.on_any_list(id2));
            if f.contains(id2) {
                assert(nf.contains(id2));
            }
        }
        assert(!n.on_any_list(h)) by {
            if o.lru_list@.contains(h) || o.dirty_list@.contains(h) || o.held_list@.contains(h) {
                assert(false);
            }
        }
        assert forall|id2: BufferId|
            1 <= id2 < n.used implies (#[trigger] n.chained(id2) <==> (id2 != h
            && !nf.contains(id2))) by {
            assert(o.chained(id2) <==> !f.contains(id2));
            if o.chained(id2) {
                let b3 = choose|b3: int|
                    0 <= b3 < o.cap() && #[trigger] o.chains@[b3].contains(id2);
                assert(n.chains@[b3].contains(id2));
            }
            if n.chained(id2) {
                let b3 = choose|b3: int|
                    0 <= b3 < n.cap() && #[trigger] n.chains@[b3].contains(id2);
                assert(o.chains@[b3].contains(id2));
            }
        }
        assert forall|b2: int| 0 <= b2 < n.cap() implies #[trigger] n.chain_ok(b2) by {
            assert(o.chain_ok(b2));
        }
        assert forall|b4: int, k4: int|
            0 <= b4 < n.cap() && 0 <= k4 < n.chains@[b4].len() implies 1 <= #[trigger] n.chains@[
            b4
        ][k4] < n.used by {
            assert(n.chain_ok(b4));
        }
        assert(n.states_ok());
        assert(n.l2_ok(n.lru_list@, n.head)) by {
            assert forall|k7: int|
                #![trigger n.buf(n.lru_list@[k7])]
                0 <= k7 < n.lru_list@.len() implies n.buf(n.lru_list@[k7]) == o.buf(
                o.lru_list@[k7],
            ) by {}
        }
        assert(n.l2_ok(n.dirty_list@, n.dirty_pages)) by {
            assert forall|k7: int|
                #![trigger n.buf(n.dirty_list@[k7])]
                0 <= k7 < n.dirty_list@.len() implies n.buf(n.dirty_list@[k7]) == o.buf(
                o.dirty_list@[k7],
            ) by {}
        }
        assert(n.ids_ok(n.lru_list@)) by {
            assert forall|k9: int|
                #![trigger n.lru_list@[k9]]
                0 <= k9 < n.lru_list@.len() implies 1 <= n.lru_list@[k9] < n.used by {
                assert(1 <= o.lru_list@[k9] < o.used);
            }
        }
        assert(n.ids_ok(n.free_list@)) by {
            assert forall|k9: int| #![trigger nf[k9]] 0 <= k9 < nf.len() implies 1 <= nf[k9]
                < n.used by {
                assert(nf.contains(nf[k9]));
                assert(f.contains(nf[k9]));
                let kx = choose|kx: int| 0 <= kx < f.len() && f[kx] == nf[k9];
                assert(1 <= f[kx] < o.used);
            }
        }
        assert(n.ids_ok(n.dirty_list@));
        assert(n.ids_ok(n.held_list@));
        assert(n.pinned as int == n.held_list@.len() + n.dirty_list@.len() + 2);
        assert(n.dirtied as int == n.dirty_list@.len());
        assert(n.cached as int == n.used as int - n.free_list@.len());
        assert(n.next_sync == 0 || n.dirty_list@.contains(n.next_sync));
        assert(n.claiming(h));
    }

    /// After the eviction victim is pinned, removed from its chain and
    /// taken off the held list, the manager is in claiming shape for it.
    #[verifier::rlimit(100)]
    #[verifier::spinoff_prover]
    proof fn lemma_evict_mid(m: Self, n: Self, v: BufferId)
        requires
            // `m` is the state right after `pin(v)`: well formed, `v` the
            // head of the held list.
            m.wf(),
            m.held_list@.len() > 0,
            m.held_list@[0] == v,
            1 <= v < m.used,
            // `n` is `m` after removing `v` from its chain and dropping it
            // from the held list.
            n.chains_wf(),
            forall|x: BufferId| #[trigger] n.chained(x) <==> (m.chained(x) && x != v),
            n.pages@.len() == m.pages@.len(),
            forall|j: int|
                #![trigger n.pages@[j]]
                0 <= j < n.pages@.len()
                    ==> n.pages@[j].pid == m.pages@[j].pid
                    && n.pages@[j].state == m.pages@[j].state
                    && n.pages@[j].access_count == m.pages@[j].access_count
                    && n.pages@[j].next == m.pages@[j].next
                    && n.pages@[j].prev == m.pages@[j].prev,
            n.hash_table@.len() == m.hash_table@.len(),
            n.lru_list@ == m.lru_list@,
            n.free_list@ == m.free_list@,
            n.dirty_list@ == m.dirty_list@,
            n.held_list@ == m.held_list@.drop_first(),
            n.head == m.head,
            n.tail == m.tail,
            n.free_pages == m.free_pages,
            n.dirty_pages == m.dirty_pages,
            n.next_sync == m.next_sync,
            n.used == m.used,
            n.pinned == m.pinned,
            n.dirtied == m.dirtied,
            n.cached == m.cached,
        ensures
            n.claiming(v),
    {
        let hl = m.held_list@;
        let nh = n.held_list@;
        assert(hl.contains(v));
        assert forall|x: BufferId| nh.contains(x) implies hl.contains(x) && x != v by {
            let k2 = choose|k2: int| 0 <= k2 < nh.len() && nh[k2] == x;
            assert(hl[k2 + 1] == x);
        }
        assert forall|x: BufferId| hl.contains(x) && x != v implies nh.contains(x) by {
            let k2 = choose|k2: int| 0 <= k2 < hl.len() && hl[k2] == x;
            assert(k2 > 0);
            assert(nh[k2 - 1] == x);
        }
        assert(nh.no_duplicates()) by {
            assert forall|i: int, j: int|
                0 <= i < nh.len() && 0 <= j < nh.len() && i != j implies nh[i] != nh[j] by {
                assert(nh[i] == hl[i + 1]);
                assert(nh[j] == hl[j + 1]);
            }
        }
        assert(n.l2_ok(n.lru_list@, n.head)) by {
            assert forall|k7: int|
                #![trigger n.buf(n.lru_list@[k7])]
                0 <= k7 < n.lru_list@.len() implies n.buf(n.lru_list@[k7]).next == m.buf(
                n.lru_list@[k7],
            ).next && n.buf(n.lru_list@[k7]).prev == m.buf(n.lru_list@[k7]).prev by {
                assert(n.lru_list@.contains(n.lru_list@[k7]));
            }
        }
        assert(n.l2_ok(n.dirty_list@, n.dirty_pages)) by {
            assert forall|k7: int|
                #![trigger n.buf(n.dirty_list@[k7])]
                0 <= k7 < n.dirty_list@.len() implies n.buf(n.dirty_list@[k7]).next == m.buf(
                n.dirty_list@[k7],
            ).next && n.buf(n.dirty_list@[k7]).prev == m.buf(n.dirty_list@[k7]).prev by {
                assert(n.dirty_list@.contains(n.dirty_list@[k7]));
            }
        }
        assert(n.l1_ok(n.free_list@, n.free_pages)) by {
            assert forall|k7: int|
                #![trigger n.buf(n.free_list@[k7])]
                0 <= k7 < n.free_list@.len() implies n.buf(n.free_list@[k7]).next == m.buf(
                n.free_list@[k7],
            ).next by {
                assert(n.free_list@.contains(n.free_list@[k7]));
            }
        }
        assert forall|id2: BufferId|
            1 <= id2 < n.used && id2 != v implies #[trigger] n.on_any_list(id2) by {
            assert(m.on_any_list(id2));
            if hl.contains(id2) {
                assert(nh.contains(id2));
            }
        }
        assert(!n.on_any_list(v));
        assert(n.states_ok()) by {
            assert forall|id2: BufferId|
                #![trigger nh.contains(id2)]
                nh.contains(id2) implies n.buf(id2).access_count >= 1 && !is_dirty(
                n.buf(id2).state,
            ) by {
                assert(hl.contains(id2));
            }
            assert forall|id2: BufferId|
                #![trigger n.lru_list@.contains(id2)]
                n.lru_list@.contains(id2) implies n.buf(id2).access_count == 0 && !is_dirty(
                n.buf(id2).state,
            ) by {}
            assert forall|id2: BufferId|
                #![trigger n.free_list@.contains(id2)]
                n.free_list@.contains(id2) implies n.buf(id2).access_count == 0 by {}
            assert forall|id2: BufferId|
                #![trigger n.dirty_list@.contains(id2)]
                n.dirty_list@.contains(id2) implies is_dirty(n.buf(id2).state) && n.buf(
                id2,
            ).access_count >= 1 by {}
        }
        assert(n.ids_ok(nh)) by {
            assert forall|k9: int| #![trigger nh[k9]] 0 <= k9 < nh.len() implies 1 <= nh[k9]
                < n.used by {
                assert(nh.contains(nh[k9]));
            }
        }
        assert forall|id2: BufferId|
            1 <= id2 < n.used implies (#[trigger] n.chained(id2) <==> (id2 != v
            && !n.free_list@.contains(id2))) by {
            assert(m.chained(id2) <==> !m.free_list@.contains(id2));
        }
        assert forall|b4: int, k4: int|
            0 <= b4 < n.cap() && 0 <= k4 < n.chains@[b4].len() implies 1 <= #[trigger] n.chains@[
            b4
        ][k4] < n.used by {
            assert(n.chain_ok(b4));
        }
        assert(n.claiming(v));
    }

    /// After the claimed slot's fields are set and it is inserted into its
    /// hash bucket and the held list, the manager is well formed again.
    #[verifier::rlimit(100)]
    #[verifier::spinoff_prover]
    proof fn lemma_claim_post(m: Self, n: Self, pid: PageId, h: BufferId)
        requires
            m.claiming(h),
            pid != 0,
            m.buf(h).pid == pid,
            m.buf(h).access_count == 1,
            m.buf(h).state == PAGE_RAW,
            forall|x: BufferId| #[trigger] m.chained(x) ==> m.buf(x).pid != pid,
            // `n` is `m` after `insert(h)` and pushing `h` on held.
            n.chains_wf(),
            forall|x: BufferId| #[trigger] n.chained(x) <==> (m.chained(x) || x == h),
            n.pages@.len() == m.pages@.len(),
            forall|j: int|
                #![trigger n.pages@[j]]
                0 <= j < n.pages@.len() && j != h ==> n.pages@[j] == m.pages@[j],
            n.buf(h).pid == pid,
            n.buf(h).access_count == 1,
            n.buf(h).state == PAGE_RAW,
            n.buf(h).next == m.buf(h).next,
            n.buf(h).prev == m.buf(h).prev,
            n.hash_table@.len() == m.hash_table@.len(),
            n.lru_list@ == m.lru_list@,
            n.free_list@ == m.free_list@,
            n.dirty_list@ == m.dirty_list@,
            n.held_list@ == seq![h] + m.held_list@,
            n.head == m.head,
            n.tail == m.tail,
            n.free_pages == m.free_pages,
            n.dirty_pages == m.dirty_pages,
            n.next_sync == m.next_sync,
            n.used == m.used,
            n.pinned == m.pinned,
            n.dirtied == m.dirtied,
            n.cached == m.cached,
        ensures
            n.wf(),
    {
        lemma_state_bits();
        let hl = m.held_list@;
        let nh = n.held_list@;
        assert(nh[0] == h);
        assert(nh.contains(h));
        assert forall|x: BufferId| nh.contains(x) implies x == h || hl.contains(x) by {
            let k3 = choose|k3: int| 0 <= k3 < nh.len() && nh[k3] == x;
            if k3 > 0 {
                assert(hl[k3 - 1] == x);
            }
        }
        assert forall|x: BufferId| hl.contains(x) implies nh.contains(x) by {
            let k3 = choose|k3: int| 0 <= k3 < hl.len() && hl[k3] == x;
            assert(nh[k3 + 1] == x);
        }
        assert(nh.no_duplicates()) by {
            assert forall|i: int, j: int|
                0 <= i < nh.len() && 0 <= j < nh.len() && i != j implies nh[i] != nh[j] by {
                if i > 0 && j > 0 {
                    assert(nh[i] == hl[i - 1]);
                    assert(nh[j] == hl[j - 1]);
                } else if i == 0 {
                    assert(hl.contains(hl[j - 1]));
                } else {
                    assert(hl.contains(hl[i - 1]));
                }
            }
        }
        assert(n.l2_ok(n.lru_list@, n.head)) by {
            assert forall|k7: int|
                #![trigger n.buf(n.lru_list@[k7])]
                0 <= k7 < n.lru_list@.len() implies n.buf(n.lru_list@[k7]) == m.buf(
                n.lru_list@[k7],
            ) by {
                assert(n.lru_list@.contains(n.lru_list@[k7]));
                assert(n.lru_list@[k7] != h);
            }
        }
        assert(n.l2_ok(n.dirty_list@, n.dirty_pages)) by {
            assert forall|k7: int|
                #![trigger n.buf(n.dirty_list@[k7])]
                0 <= k7 < n.dirty_list@.len() implies n.buf(n.dirty_list@[k7]) == m.buf(
                n.dirty_list@[k7],
            ) by {
                assert(n.dirty_list@.contains(n.dirty_list@[k7]));
                assert(n.dirty_list@[k7] != h);
            }
        }
        assert(n.l1_ok(n.free_list@, n.free_pages)) by {
            assert forall|k7: int|
                #![trigger n.buf(n.free_list@[k7])]
                0 <= k7 < n.free_list@.len() implies n.buf(n.free_list@[k7]) == m.buf(
                n.free_list@[k7],
            ) by {
                assert(n.free_list@.contains(n.free_list@[k7]));
                assert(n.free_list@[k7] != h);
            }
        }
        assert forall|id2: BufferId| 1 <= id2 < n.used implies #[trigger] n.on_any_list(id2) by {
            if id2 == h {
                assert(nh.contains(h));
            } else {
                assert(m.on_any_list(id2));
                if hl.contains(id2) {
                    assert(nh.contains(id2));
                }
            }
        }
        assert(n.partition_ok());
        assert(n.states_ok()) by {
            assert forall|id2: BufferId|
                #![trigger nh.contains(id2)]
                nh.contains(id2) implies n.buf(id2).access_count >= 1 && !is_dirty(
                n.buf(id2).state,
            ) by {
                if id2 == h {
                    assert(!is_dirty(PAGE_RAW));
                } else {
                    assert(hl.contains(id2));
                }
            }
        }
        assert(n.ids_ok(nh)) by {
            assert forall|k9: int| #![trigger nh[k9]] 0 <= k9 < nh.len() implies 1 <= nh[k9]
                < n.used by {
                assert(nh.contains(nh[k9]));
            }
        }
        assert forall|id3: BufferId| 1 <= id3 < n.used implies (#[trigger] n.chained(id3)
            <==> !n.free_list@.contains(id3)) by {
            assert(m.chained(id3) <==> (id3 != h && !m.free_list@.contains(id3)));
            if id3 == h {
                assert(n.chained(h));
                assert(!m.free_list@.contains(h)) by {
                    if m.free_list@.contains(h) {
                        assert(m.on_any_list(h));
                    }
                }
            }
        }
        assert forall|b4: int, k4: int|
            0 <= b4 < n.cap() && 0 <= k4 < n.chains@[b4].len() implies 1 <= #[trigger] n.chains@[
            b4
        ][k4] < n.used by {
            assert(n.chain_ok(b4));
        }
        assert(n.wf());
    }

    /// Find the slot caching `pid`, or claim one: from the free list, by
    /// growing the pool, or by evicting the least recently used slot.
    #[verifier::rlimit(100)]
    #[verifier::spinoff_prover]
    pub fn get_buffer(&mut self, pid: PageId) -> (r: Result<BufferId, DbError>)
        requires
            old(self).wf(),
            pid != 0,
        ensures
            final(self).wf(),
            final(self).dirty_list@ == old(self).dirty_list@,
            final(self).used >= old(self).used,
            final(self).pages@.len() == old(self).pages@.len(),
            r matches Ok(id) ==> 1 <= id < final(self).used && final(self).buf(id).pid == pid
                && final(self).buf(id).access_count >= 1,
            r is Err ==> *final(self) == *old(self),
            (r matches Err(e) && e == DbError::CacheExhausted) <==> (!old(self).caches(pid) && old(
                self,
            ).free_list@.len() == 0 && old(self).used as int == old(self).cap() && old(
                self,
            ).lru_list@.len() == 0),
            (r matches Err(e) && e == DbError::InvariantViolated) <==> (exists|x: BufferId|
                #[trigger] old(self).chained(x) && old(self).buf(x).pid == pid && old(self).buf(
                    x,
                ).access_count >= u16::MAX - 1),
            forall|x: BufferId|
                #[trigger] old(self).dirty_list@.contains(x) ==> final(self).buf(x).pid == old(
                    self,
                ).buf(x).pid && final(self).buf(x).state == old(self).buf(x).state,
            r matches Ok(id) ==> (!old(self).caches(pid) ==> final(self).buf(id).state
                == PAGE_RAW && final(self).buf(id).access_count == 1),
            r matches Ok(id) ==> (old(self).caches(pid) ==> final(self).buf(id).state == old(
                self,
            ).buf(id).state && final(self).buf(id).access_count as int == old(self).buf(
                id,
            ).access_count as int + 1),
            r is Err ==> (r matches Err(e) && (e == DbError::CacheExhausted
                || e == DbError::InvariantViolated)),
            r matches Ok(id) ==> (!old(self).caches(pid) && old(self).free_list@.len() > 0
                ==> id == old(self).free_list@[0]
                    && final(self).free_list@ == old(self).free_list@.drop_first()
                    && final(self).used == old(self).used
                    && final(self).lru_list@ == old(self).lru_list@),
            r matches Ok(id) ==> (!old(self).caches(pid) && old(self).free_list@.len() == 0
                && old(self).spec_used_int() < old(self).cap()
                ==> id == old(self).used && final(self).used == old(self).used + 1
                    && final(self).lru_list@ == old(self).lru_list@),
            r matches Ok(id) ==> (!old(self).caches(pid) && old(self).free_list@.len() == 0
                && old(self).spec_used_int() == old(self).cap()
                ==> old(self).lru_list@.len() > 0 && id == old(self).lru_list@.last()
                    && final(self).lru_list@ == old(self).lru_list@.drop_last()
                    && final(self).used == old(self).used),
    {
        let cap = self.hash_table.len();
        let hash = (pid as usize) % cap;
        let ghost chain = self.chains@[hash as int];
        proof {
            assert(self.chain_ok(hash as int));
        }
        let mut h = self.hash_table[hash];
        let ghost mut j: int = 0;
        proof {
            if chain.len() > 0 {
                assert(h == chain[0]);
            } else {
                assert(h == 0);
            }
        }
        while h != 0
            invariant
                *self == *old(self),
                self.wf(),
                pid != 0,
                cap == self.hash_table@.len(),
                hash as int == pid as int % self.cap(),
                chain == self.chains@[hash as int],
                self.chain_ok(hash as int),
                0 <= j <= chain.len(),
                h == (if j < chain.len() {
                    chain[j]
                } else {
                    0
                }),
                forall|t: int| 0 <= t < j ==> self.buf(#[trigger] chain[t]).pid != pid,
            decreases chain.len() - j,
        {
            proof {
                assert(chain.contains(chain[j]));
                assert(1 <= h < self.used);
            }
            if self.pages[h as usize].pid == pid {
                proof {
                    assert(self.chains@[hash as int].contains(h));
                    assert(self.chained(h));
                    assert(old(self).caches(pid)) by {
                        assert(old(self).buf(old(self).chains@[hash as int][j]).pid == pid);
                    }
                }
                let access_count = self.pages[h as usize].access_count;
                if access_count >= u16::MAX - 1 {
                    proof {
                        assert(old(self).chained(h) && old(self).buf(h).pid == pid && old(
                            self,
                        ).buf(h).access_count >= u16::MAX - 1);
                    }
                    return Err(DbError::InvariantViolated);
                }
                proof {
                    // No overloaded slot holds this page: it would be `h`.
                    assert forall|x: BufferId|
                        #[trigger] old(self).chained(x) && old(self).buf(x).pid == pid implies x
                        == h by {
                        let b1 = choose|b1: int|
                            0 <= b1 < self.cap() && #[trigger] self.chains@[b1].contains(x);
                        let k1 = choose|k1: int|
                            0 <= k1 < self.chains@[b1].len() && self.chains@[b1][k1] == x;
                        if x != h {
                            assert(self.buf(self.chains@[b1][k1]).pid != self.buf(
                                self.chains@[hash as int][j],
                            ).pid);
                        }
                    }
                }
                if access_count == 0 {
                    proof {
                        assert(old(self).on_any_list(h));
                        if old(self).free_list@.contains(h) {
                            assert(!old(self).chained(h));
                        }
                        if old(self).dirty_list@.contains(h) {
                            assert(old(self).buf(h).access_count >= 1);
                        }
                        if old(self).held_list@.contains(h) {
                            assert(old(self).buf(h).access_count >= 1);
                        }
                        assert(old(self).lru_list@.contains(h));
                    }
                    self.pin(h);
                } else {
                    let mut b = self.pages[h as usize];
                    b.access_count = access_count + 1;
                    self.pages[h as usize] = b;
                    proof {
                        assert(old(self).on_any_list(h));
                        if old(self).lru_list@.contains(h) {
                            assert(old(self).buf(h).access_count == 0);
                        }
                        if old(self).free_list@.contains(h) {
                            assert(old(self).buf(h).access_count == 0);
                        }
                        Self::lemma_field_update_wf(*old(self), *self, h);
                    }
                }
                proof {
                    assert(forall|x: BufferId|
                        #[trigger] self.dirty_list@.contains(x) ==> x != h || old(
                            self,
                        ).buf(x).state == self.buf(x).state);
                }
                return Ok(h);
            }
            proof {
                assert(self.buf(chain[j]).collision == (if j + 1 < chain.len() {
                    chain[j + 1]
                } else {
                    0
                }));
            }
            h = self.pages[h as usize].collision;
            proof {
                j = j + 1;
            }
        }
        // The page is not cached: no slot in its bucket holds it, and a
        // slot in another bucket cannot.
        proof {
            assert forall|x: BufferId| #[trigger] old(self).chained(x) implies old(self).buf(
                x,
            ).pid != pid by {
                let b1 = choose|b1: int|
                    0 <= b1 < self.cap() && #[trigger] self.chains@[b1].contains(x);
                let k1 = choose|k1: int|
                    0 <= k1 < self.chains@[b1].len() && self.chains@[b1][k1] == x;
                assert(self.chain_ok(b1));
                assert((self.buf(self.chains@[b1][k1]).pid as int) % self.cap() == b1);
                if b1 == hash as int {
                    assert(self.buf(chain[k1]).pid != pid);
                }
            }
            assert(!old(self).caches(pid)) by {
                if old(self).caches(pid) {
                    let (b1, k1): (int, int) = choose|b1: int, k1: int|
                        0 <= b1 < old(self).cap() && 0 <= k1 < old(self).chains@[b1].len() && old(
                            self,
                        ).buf(#[trigger] old(self).chains@[b1][k1]).pid == pid;
                    assert(old(self).chains@[b1].contains(old(self).chains@[b1][k1]));
                    assert(old(self).chained(old(self).chains@[b1][k1]));
                }
            }
            assert(!(exists|x: BufferId|
                #[trigger] old(self).chained(x) && old(self).buf(x).pid == pid && old(self).buf(
                    x,
                ).access_count >= u16::MAX - 1));
        }
        let h2: BufferId;
        if self.free_pages != 0 {
            h2 = self.free_pages;
            proof {
                assert(self.free_list@.len() > 0 && self.free_list@[0] == h2) by {
                    if self.free_list@.len() == 0 {
                        assert(self.free_pages == 0);
                    }
                }
                assert(self.free_list@.contains(h2));
                assert(1 <= h2 < self.used);
                old(self).lemma_lists_bounded();
            }
            let h2u = h2 as usize;
            self.free_pages = self.pages[h2u].next;
            self.cached = self.cached + 1;
            self.pinned = self.pinned + 1;
            proof {
                self.free_list@ = old(self).free_list@.drop_first();
                Self::lemma_pop_free_post(*old(self), *self, h2);
            }
        } else {
            proof {
                assert(old(self).free_list@.len() == 0) by {
                    if old(self).free_list@.len() > 0 {
                        assert(old(self).free_pages == old(self).free_list@[0]);
                        assert(old(self).free_list@.contains(old(self).free_list@[0]));
                    }
                }
            }
            if (self.used as usize) < cap {
                h2 = self.used;
                proof {
                    old(self).lemma_lists_bounded();
                }
                self.used = self.used + 1;
                self.cached = self.cached + 1;
                self.pinned = self.pinned + 1;
                proof {
                    let o = *old(self);
                    let n = *self;
                    assert forall|id2: BufferId|
                        1 <= id2 < n.used && id2 != h2 implies #[trigger] n.on_any_list(id2) by {
                        assert(o.on_any_list(id2));
                    }
                    assert(!n.on_any_list(h2)) by {
                        if n.lru_list@.contains(h2) || n.free_list@.contains(h2)
                            || n.dirty_list@.contains(h2) || n.held_list@.contains(h2) {
                            assert(false);
                        }
                    }
                    assert forall|id2: BufferId|
                        1 <= id2 < n.used implies (#[trigger] n.chained(id2) <==> (id2 != h2
                        && !n.free_list@.contains(id2))) by {
                        if id2 != h2 {
                            assert(o.chained(id2) <==> !o.free_list@.contains(id2));
                            if o.chained(id2) {
                                let b3 = choose|b3: int|
                                    0 <= b3 < o.cap() && #[trigger] o.chains@[b3].contains(id2);
                                assert(n.chains@[b3].contains(id2));
                            }
                            if n.chained(id2) {
                                let b3 = choose|b3: int|
                                    0 <= b3 < n.cap() && #[trigger] n.chains@[b3].contains(id2);
                                assert(o.chains@[b3].contains(id2));
                            }
                        } else {
                            assert(!n.chained(h2)) by {
                                if n.chained(h2) {
                                    let b3 = choose|b3: int|
                                        0 <= b3 < n.cap() && #[trigger] n.chains@[b3].contains(
                                            h2,
                                        );
                                    assert(o.chain_ok(b3));
                                    let k3 = choose|k3: int|
                                        0 <= k3 < n.chains@[b3].len() && n.chains@[b3][k3] == h2;
                                    assert(1 <= o.chains@[b3][k3] < o.used);
                                }
                            }
                        }
                    }
                    assert forall|b2: int| 0 <= b2 < n.cap() implies #[trigger] n.chain_ok(
                        b2,
                    ) by {
                        assert(o.chain_ok(b2));
                    }
                    assert forall|b4: int, k4: int|
                        0 <= b4 < n.cap() && 0 <= k4 < n.chains@[b4].len() implies 1
                        <= #[trigger] n.chains@[b4][k4] < n.used by {
                        assert(o.chain_ok(b4));
                        assert(1 <= o.chains@[b4][k4] < o.used);
                    }
                    assert(n.ids_ok(n.lru_list@)) by {
                        assert forall|k9: int|
                            #![trigger n.lru_list@[k9]]
                            0 <= k9 < n.lru_list@.len() implies 1 <= n.lru_list@[k9]
                            < n.used by {
                            assert(o.ids_ok(o.lru_list@));
                            assert(1 <= o.lru_list@[k9] < o.used);
                        }
                    }
                    assert(n.ids_ok(n.free_list@));
                    assert(n.ids_ok(n.dirty_list@)) by {
                        assert forall|k9: int|
                            #![trigger n.dirty_list@[k9]]
                            0 <= k9 < n.dirty_list@.len() implies 1 <= n.dirty_list@[k9]
                            < n.used by {
                            assert(1 <= o.dirty_list@[k9] < o.used);
                        }
                    }
                    assert(n.ids_ok(n.held_list@)) by {
                        assert forall|k9: int|
                            #![trigger n.held_list@[k9]]
                            0 <= k9 < n.held_list@.len() implies 1 <= n.held_list@[k9]
                            < n.used by {
                            assert(1 <= o.held_list@[k9] < o.used);
                        }
                    }
                    Self::lemma_lists_frame(o, n);
                    assert(n.states_ok()) by {
                        assert forall|id2: BufferId|
                            #![trigger n.lru_list@.contains(id2)]
                            n.lru_list@.contains(id2) implies n.buf(id2).access_count == 0
                            && !is_dirty(n.buf(id2).state) by {
                            assert(o.lru_list@.contains(id2));
                        }
                        assert forall|id2: BufferId|
                            #![trigger n.free_list@.contains(id2)]
                            n.free_list@.contains(id2) implies n.buf(id2).access_count == 0 by {
                            assert(o.free_list@.contains(id2));
                        }
                        assert forall|id2: BufferId|
                            #![trigger n.dirty_list@.contains(id2)]
                            n.dirty_list@.contains(id2) implies is_dirty(n.buf(id2).state)
                            && n.buf(id2).access_count >= 1 by {
                            assert(o.dirty_list@.contains(id2));
                        }
                        assert forall|id2: BufferId|
                            #![trigger n.held_list@.contains(id2)]
                            n.held_list@.contains(id2) implies n.buf(id2).access_count >= 1
                            && !is_dirty(n.buf(id2).state) by {
                            assert(o.held_list@.contains(id2));
                        }
                    }
                    assert forall|id2: BufferId|
                        #![trigger n.lru_list@.contains(id2)]
                        n.lru_list@.contains(id2) implies !n.free_list@.contains(id2)
                        && !n.dirty_list@.contains(id2) && !n.held_list@.contains(id2) by {
                        assert(o.lru_list@.contains(id2));
                    }
                    assert forall|id2: BufferId|
                        #![trigger n.free_list@.contains(id2)]
                        n.free_list@.contains(id2) implies !n.dirty_list@.contains(id2)
                        && !n.held_list@.contains(id2) by {
                        assert(o.free_list@.contains(id2));
                    }
                    assert forall|id2: BufferId|
                        #![trigger n.dirty_list@.contains(id2)]
                        n.dirty_list@.contains(id2) implies !n.held_list@.contains(id2) by {
                        assert(o.dirty_list@.contains(id2));
                    }
                    assert(n.claiming(h2));
                }
            } else {
                let victim = self.tail;
                if victim == 0 {
                    proof {
                        assert(old(self).lru_list@.len() == 0) by {
                            if old(self).lru_list@.len() > 0 {
                                assert(old(self).tail == old(self).lru_list@.last());
                                assert(old(self).lru_list@.contains(old(self).lru_list@.last()));
                            }
                        }
                    }
                    return Err(DbError::CacheExhausted);
                }
                proof {
                    assert(old(self).lru_list@.len() > 0) by {
                        if old(self).lru_list@.len() == 0 {
                            assert(old(self).tail == 0);
                        }
                    }
                    assert(victim == old(self).lru_list@.last());
                    assert(old(self).lru_list@.contains(victim));
                }
                self.pin(victim);
                let ghost mpin = *self;
                proof {
                    assert(mpin.held_list@[0] == victim);
                    self.held_list@ = mpin.held_list@.drop_first();
                }
                let ghost mpop = *self;
                proof {
                    Self::lemma_chains_frame(mpin, mpop);
                    assert(mpop.chained(victim)) by {
                        assert(!mpin.free_list@.contains(victim)) by {
                            if mpin.free_list@.contains(victim) {
                                assert(mpin.buf(victim).access_count == 0);
                            }
                        }
                        assert(mpin.chained(victim));
                        let b3 = choose|b3: int|
                            0 <= b3 < mpin.cap() && #[trigger] mpin.chains@[b3].contains(victim);
                        assert(mpop.chains@[b3].contains(victim));
                    }
                }
                self.remove(victim);
                proof {
                    assert forall|x: BufferId| #[trigger] self.chained(x) implies (mpin.chained(x)
                        && x != victim) by {
                        assert(self.chained(x) <==> (mpop.chained(x) && x != victim));
                        if mpop.chained(x) {
                            let b3 = choose|b3: int|
                                0 <= b3 < mpop.cap() && #[trigger] mpop.chains@[b3].contains(x);
                            assert(mpin.chains@[b3].contains(x));
                        }
                    }
                    assert forall|x: BufferId|
                        mpin.chained(x) && x != victim implies #[trigger] self.chained(x) by {
                        let b3 = choose|b3: int|
                            0 <= b3 < mpin.cap() && #[trigger] mpin.chains@[b3].contains(x);
                        assert(mpop.chains@[b3].contains(x));
                        assert(mpop.chained(x));
                    }
                    Self::lemma_evict_mid(mpin, *self, victim);
                }
                proof {
                    let g = old(self).lru_list@;
                    g.index_of_first_ensures(victim);
                    let kv = g.index_of_first(victim)->Some_0;
                    assert(g[g.len() - 1] == victim);
                    assert(0 <= kv < g.len() && g[kv] == victim);
                    assert(kv == g.len() - 1) by {
                        if kv < g.len() - 1 {
                            assert(g[kv] == g[g.len() - 1]);
                        }
                    }
                    assert(g.remove(kv) =~= g.drop_last());
                    assert(g.remove_value(victim) == g.remove(kv));
                    assert(self.lru_list@ == g.drop_last());
                }
                h2 = victim;
            }
        }
        // Claim the slot for the page.
        proof {
            assert(self.claiming(h2));
        }
        let h2u = h2 as usize;
        let ghost mpre = *self;
        let mut b = self.pages[h2u];
        b.access_count = 1;
        b.pid = pid;
        b.state = PAGE_RAW;
        self.pages[h2u] = b;
        proof {
            let m1 = *self;
            // The claiming shape survives setting the limbo slot's fields.
            assert forall|b2: int| 0 <= b2 < m1.cap() implies #[trigger] m1.chain_ok(b2) by {
                assert(mpre.chain_ok(b2));
                assert forall|k6: int|
                    #![trigger m1.buf(m1.chains@[b2][k6])]
                    0 <= k6 < m1.chains@[b2].len() implies m1.buf(m1.chains@[b2][k6]).collision
                    == (if k6 + 1 < m1.chains@[b2].len() {
                    m1.chains@[b2][k6 + 1]
                } else {
                    0
                }) && (m1.buf(m1.chains@[b2][k6]).pid as int) % m1.cap() == b2 by {
                    let x = m1.chains@[b2][k6];
                    assert(1 <= x < mpre.used);
                    assert(mpre.chains@[b2].contains(x));
                    assert(mpre.chained(x));
                    assert(x != h2);
                    assert(m1.pages@[x as int] == mpre.pages@[x as int]);
                }
            }
            assert forall|x: BufferId| #[trigger] m1.chained(x) implies m1.buf(x).pid != pid && x
                != h2 by {
                let b3 = choose|b3: int| 0 <= b3 < m1.cap() && #[trigger] m1.chains@[b3].contains(
                    x,
                );
                assert(mpre.chains@[b3].contains(x));
                assert(mpre.chained(x));
                assert(x != h2);
                assert(m1.pages@[x as int] == mpre.pages@[x as int]);
                assert(old(self).chained(x) || x == h2) by {
                    if mpre.chained(x) && x != h2 {
                        let b5 = choose|b5: int|
                            0 <= b5 < mpre.cap() && #[trigger] mpre.chains@[b5].contains(x);
                        assert(old(self).chains@[b5] == mpre.chains@[b5] || true);
                    }
                }
            }
            // Everything the hash insert needs.
            assert(m1.chains_wf()) by {
                assert(m1.pids_unique_ok()) by {
                    assert forall|b1: int, k1: int, b2: int, k2: int|
                        0 <= b1 < m1.cap() && 0 <= k1 < m1.chains@[b1].len() && 0 <= b2 < m1.cap()
                            && 0 <= k2 < m1.chains@[b2].len() && (b1 != b2 || k1 != k2) implies m1
                        .buf(#[trigger] m1.chains@[b1][k1]).pid != m1.buf(
                        #[trigger] m1.chains@[b2][k2],
                    ).pid by {
                        let x1 = m1.chains@[b1][k1];
                        let x2 = m1.chains@[b2][k2];
                        assert(mpre.buf(x1).pid != mpre.buf(x2).pid);
                        assert(mpre.chain_ok(b1));
                        assert(mpre.chain_ok(b2));
                        assert(1 <= x1 < mpre.used);
                        assert(1 <= x2 < mpre.used);
                        assert(mpre.chains@[b1].contains(x1));
                        assert(mpre.chained(x1));
                        assert(x1 != h2);
                        assert(mpre.chains@[b2].contains(x2));
                        assert(mpre.chained(x2));
                        assert(x2 != h2);
                        assert(m1.pages@[x1 as int] == mpre.pages@[x1 as int]);
                        assert(m1.pages@[x2 as int] == mpre.pages@[x2 as int]);
                    }
                }
            }
            assert(!m1.chained(h2));
        }
        let ghost m1 = *self;
        proof {
            self.held_list@ = seq![h2] + m1.held_list@;
            Self::lemma_chains_frame(m1, *self);
            assert(!self.chained(h2)) by {
                if self.chained(h2) {
                    let b3 = choose|b3: int|
                        0 <= b3 < self.cap() && #[trigger] self.chains@[b3].contains(h2);
                    assert(m1.chains@[b3].contains(h2));
                    assert(m1.chained(h2));
                }
            }
            assert forall|x: BufferId| #[trigger] self.chained(x) implies self.buf(x).pid
                != self.buf(h2).pid by {
                let b3 = choose|b3: int|
                    0 <= b3 < self.cap() && #[trigger] self.chains@[b3].contains(x);
                assert(m1.chains@[b3].contains(x));
                assert(m1.chained(x));
            }
        }
        let ghost m2 = *self;
        self.insert(h2);
        proof {
            let n = *self;
            assert(n.held_list@ == seq![h2] + m1.held_list@);
            assert(n.chains_wf());
            assert(m1.claiming(h2)) by {
                let o2 = mpre;
                assert forall|id2: BufferId|
                    1 <= id2 < m1.used && id2 != h2 implies #[trigger] m1.on_any_list(id2) by {
                    assert(o2.on_any_list(id2));
                }
                assert(!m1.on_any_list(h2));
                assert(m1.l2_ok(m1.lru_list@, m1.head)) by {
                    assert forall|k7: int|
                        #![trigger m1.buf(m1.lru_list@[k7])]
                        0 <= k7 < m1.lru_list@.len() implies m1.buf(m1.lru_list@[k7]) == o2.buf(
                        m1.lru_list@[k7],
                    ) by {
                        assert(m1.lru_list@.contains(m1.lru_list@[k7]));
                        assert(m1.lru_list@[k7] != h2);
                    }
                }
                assert(m1.l2_ok(m1.dirty_list@, m1.dirty_pages)) by {
                    assert forall|k7: int|
                        #![trigger m1.buf(m1.dirty_list@[k7])]
                        0 <= k7 < m1.dirty_list@.len() implies m1.buf(m1.dirty_list@[k7])
                        == o2.buf(m1.dirty_list@[k7]) by {
                        assert(m1.dirty_list@.contains(m1.dirty_list@[k7]));
                        assert(m1.dirty_list@[k7] != h2);
                    }
                }
                assert(m1.l1_ok(m1.free_list@, m1.free_pages)) by {
                    assert forall|k7: int|
                        #![trigger m1.buf(m1.free_list@[k7])]
                        0 <= k7 < m1.free_list@.len() implies m1.buf(m1.free_list@[k7]) == o2.buf(
                        m1.free_list@[k7],
                    ) by {
                        assert(m1.free_list@.contains(m1.free_list@[k7]));
                        assert(m1.free_list@[k7] != h2);
                    }
                }
                assert(m1.states_ok()) by {
                    assert forall|id2: BufferId|
                        #![trigger m1.lru_list@.contains(id2)]
                        m1.lru_list@.contains(id2) implies m1.buf(id2).access_count == 0
                        && !is_dirty(m1.buf(id2).state) by {
                        assert(id2 != h2);
                    }
                    assert forall|id2: BufferId|
                        #![trigger m1.free_list@.contains(id2)]
                        m1.free_list@.contains(id2) implies m1.buf(id2).access_count == 0 by {
                        assert(id2 != h2);
                    }
                    assert forall|id2: BufferId|
                        #![trigger m1.dirty_list@.contains(id2)]
                        m1.dirty_list@.contains(id2) implies is_dirty(m1.buf(id2).state)
                        && m1.buf(id2).access_count >= 1 by {
                        assert(id2 != h2);
                    }
                    assert forall|id2: BufferId|
                        #![trigger m1.held_list@.contains(id2)]
                        m1.held_list@.contains(id2) implies m1.buf(id2).access_count >= 1
                        && !is_dirty(m1.buf(id2).state) by {
                        assert(id2 != h2);
                    }
                }
                assert forall|id2: BufferId|
                    1 <= id2 < m1.used implies (#[trigger] m1.chained(id2) <==> (id2 != h2
                    && !m1.free_list@.contains(id2))) by {
                    assert(o2.chained(id2) <==> (id2 != h2 && !o2.free_list@.contains(id2)));
                    if o2.chained(id2) {
                        let b3 = choose|b3: int|
                            0 <= b3 < o2.cap() && #[trigger] o2.chains@[b3].contains(id2);
                        assert(m1.chains@[b3].contains(id2));
                    }
                    if m1.chained(id2) {
                        let b3 = choose|b3: int|
                            0 <= b3 < m1.cap() && #[trigger] m1.chains@[b3].contains(id2);
                        assert(o2.chains@[b3].contains(id2));
                    }
                }
                assert forall|b4: int, k4: int|
                    0 <= b4 < m1.cap() && 0 <= k4 < m1.chains@[b4].len() implies 1
                    <= #[trigger] m1.chains@[b4][k4] < m1.used by {
                    assert(m1.chain_ok(b4));
                }
            }
            Self::lemma_claim_post(m1, n, pid, h2);
            assert(n.chained(h2)) by {
                assert(n.chains@[(pid as int % n.cap())].contains(h2)) by {
                    assert(n.chains@[(m1.buf(h2).pid as int % m1.cap())][0] == h2);
                }
            }
        }
        Ok(h2)
    }

    /// A fresh manager with `cache_size` slots; slot 0 is permanently
    /// claimed for the meta page.
    pub fn new(cache_size: usize) -> (bm: BufferManager)
        requires
            1 <= cache_size <= 0xffff_ffff,
        ensures
            bm.wf(),
            bm.pages@.len() == cache_size,
            bm.hash_table@.len() == cache_size,
            bm.used == 1,
            bm.cached == 1,
            bm.pinned == 1,
            bm.dirtied == 0,
            bm.dirty_list@.len() == 0,
    {
        let hash_table: Vec<BufferId> = vec![0u32; cache_size];
        let b = Buffer::new();
        let pages: Vec<Buffer> = vec![b; cache_size];
        let bm = BufferManager {
            head: 0,
            tail: 0,
            free_pages: 0,
            dirty_pages: 0,
            next_sync: 0,
            used: 1,
            pinned: 1,
            dirtied: 0,
            cached: 1,
            hash_table,
            pages,
            lru_list: Ghost(Seq::empty()),
            free_list: Ghost(Seq::empty()),
            dirty_list: Ghost(Seq::empty()),
            held_list: Ghost(Seq::empty()),
            chains: Ghost(Seq::new(cache_size as nat, |i: int| Seq::empty())),
        };
        proof {
            assert forall|b2: int| 0 <= b2 < bm.cap() implies #[trigger] bm.chain_ok(b2) by {
                assert(bm.chains@[b2].len() == 0);
                assert(bm.hash_table@[b2] == 0);
            }
            assert(bm.wf());
        }
        bm
    }

    /// The dirty slots that commit still has to write to the log: the
    /// prefix of the dirty list that was not yet trickled out, most recent
    /// modification first.
    pub fn unsynced_dirty(&self) -> (r: Vec<(BufferId, PageId)>)
        requires
            self.wf(),
        ensures
            r@.len() <= self.dirty_list@.len(),
            forall|t: int|
                0 <= t < r@.len() ==> #[trigger] r@[t] == (
                self.dirty_list@[t],
                self.buf(self.dirty_list@[t]).pid,
                ) && !is_synced(self.buf(self.dirty_list@[t]).state),
            r@.len() < self.dirty_list@.len() ==> is_synced(
                self.buf(self.dirty_list@[r@.len() as int]).state,
            ),
    {
        let ghost d = self.dirty_list@;
        let mut r: Vec<(BufferId, PageId)> = Vec::new();
        let mut cur = self.dirty_pages;
        let ghost mut k: int = 0;
        proof {
            if d.len() == 0 {
                assert(cur == 0);
            } else {
                assert(cur == d[0]);
            }
        }
        while cur != 0
            invariant
                self.wf(),
                d == self.dirty_list@,
                0 <= k <= d.len(),
                cur == (if k < d.len() {
                    d[k]
                } else {
                    0
                }),
                r@.len() == k,
                forall|t: int|
                    0 <= t < k ==> #[trigger] r@[t] == (d[t], self.buf(d[t]).pid) && !is_synced(
                        self.buf(d[t]).state,
                    ),
            decreases d.len() - k,
        {
            proof {
                assert(d.contains(d[k]));
                assert(1 <= cur < self.used);
            }
            let cu = cur as usize;
            if self.pages[cu].state & PAGE_SYNCED != 0 {
                return r;
            }
            r.push((cur, self.pages[cu].pid));
            cur = self.pages[cu].next;
            proof {
                k = k + 1;
            }
        }
        r
    }

    /// The counter laws of the pool: at most every slot is cached, and the
    /// pinned and evictable slots together cover the cached clean ones.
    pub proof fn lemma_counters(self)
        requires
            self.wf(),
        ensures
            self.cached as int <= self.hash_table@.len() as int,
            self.pinned as int + self.lru_list@.len() >= self.cached as int
                - self.dirty_list@.len(),
    {
        broadcast use vstd::set::group_set_axioms;
        broadcast use vstd::seq_lib::group_seq_properties;
        broadcast use vstd::seq_lib::seq_to_set_is_finite;

        self.lemma_lists_bounded();
        let all = self.lru_list@ + self.free_list@ + self.dirty_list@ + self.held_list@;
        assert forall|v: BufferId| 1 <= v < self.used implies all.contains(v) by {
            assert(self.on_any_list(v));
            let l1 = self.lru_list@.len() as int;
            let l2 = l1 + self.free_list@.len() as int;
            let l3 = l2 + self.dirty_list@.len() as int;
            if self.lru_list@.contains(v) {
                let k = choose|k: int| 0 <= k < self.lru_list@.len() && self.lru_list@[k] == v;
                assert(all[k] == v);
            } else if self.free_list@.contains(v) {
                let k = choose|k: int| 0 <= k < self.free_list@.len() && self.free_list@[k] == v;
                assert(all[l1 + k] == v);
            } else if self.dirty_list@.contains(v) {
                let k = choose|k: int| 0 <= k < self.dirty_list@.len() && self.dirty_list@[k] == v;
                assert(all[l2 + k] == v);
            } else {
                let k = choose|k: int| 0 <= k < self.held_list@.len() && self.held_list@[k] == v;
                assert(all[l3 + k] == v);
            }
        }
        let t = all.map_values(|x: BufferId| x as int);
        vstd::set_lib::lemma_int_range(1, self.used as int);
        assert(vstd::set_lib::set_int_range(1, self.used as int).subset_of(t.to_set())) by {
            assert forall|x: int| 1 <= x < self.used as int implies t.to_set().contains(x) by {
                let v = x as BufferId;
                assert(all.contains(v));
                let k = choose|k: int| 0 <= k < all.len() && all[k] == v;
                assert(t[k] == x);
                assert(t.contains(x));
            }
        }
        t.lemma_cardinality_of_set();
        vstd::set_lib::lemma_len_subset(
            vstd::set_lib::set_int_range(1, self.used as int),
            t.to_set(),
        );
        assert(all.len() >= self.used as int - 1);
    }
}

} // verus!
