use vstd::prelude::*;

verus! {

use core::cmp::Ordering;
use crate::config::{PAGE_SIZE, PAGE_HEADER_SIZE, MAX_KEY_LEN, MAX_VALUE_LEN, PageId, Key, Value,
    ItemPointer};
use crate::error::DbError;
use crate::pagedata::{PageData, page_wf, item_wf, lex_cmp, spec_n_items, spec_offs, spec_size,
    spec_item, spec_item_len, spec_key, spec_key_len, spec_value, spec_child};

/// How a search key compares against slot `i`: a zero-length stored key is
/// the sentinel, strictly greater than every search key.
pub open spec fn spec_cmp_at(d: Seq<u8>, i: int, k: Seq<u8>) -> Ordering {
    if spec_key_len(d, i) == 0 {
        Ordering::Less
    } else {
        lex_cmp(k, spec_key(d, i))
    }
}

/// Strict order on stored keys, the zero-length sentinel at the top.
pub open spec fn key_lt(a: Seq<u8>, b: Seq<u8>) -> bool {
    if a.len() == 0 {
        false
    } else if b.len() == 0 {
        true
    } else {
        lex_cmp(a, b) == Ordering::Less
    }
}

/// Keys are strictly ascending over the slot index, so the sentinel can
/// only sit in the last slot.
pub open spec fn sorted_page(d: Seq<u8>) -> bool {
    forall|i: int, j: int|
        0 <= i < j < spec_n_items(d) ==> key_lt(#[trigger] spec_key(d, i), #[trigger] spec_key(d, j))
}

/// Swapping the arguments of the comparison mirrors the result.
proof fn lemma_lex_cmp_flip(a: Seq<u8>, b: Seq<u8>)
    ensures
        (lex_cmp(a, b) == Ordering::Less) <==> (lex_cmp(b, a) == Ordering::Greater),
        (lex_cmp(a, b) == Ordering::Equal) <==> (lex_cmp(b, a) == Ordering::Equal),
    decreases a.len() + b.len(),
{
    if a.len() > 0 && b.len() > 0 && a[0] == b[0] {
        lemma_lex_cmp_flip(a.skip(1), b.skip(1));
    }
}

/// The comparison returns `Equal` exactly on equal byte strings.
proof fn lemma_lex_cmp_eq(a: Seq<u8>, b: Seq<u8>)
    ensures
        (lex_cmp(a, b) == Ordering::Equal) <==> a == b,
    decreases a.len() + b.len(),
{
    if a.len() == 0 && b.len() == 0 {
        assert(a =~= b);
    } else if a.len() > 0 && b.len() > 0 && a[0] == b[0] {
        lemma_lex_cmp_eq(a.skip(1), b.skip(1));
        if lex_cmp(a, b) == Ordering::Equal {
            assert(a.skip(1) == b.skip(1));
            assert(a.len() == b.len());
            assert forall|j: int| 0 <= j < a.len() implies a[j] == b[j] by {
                if j > 0 {
                    assert(a.skip(1)[j - 1] == b.skip(1)[j - 1]);
                }
            }
            assert(a =~= b);
        }
        if a == b {
            assert(a.skip(1) =~= b.skip(1));
        }
    } else {
        if a == b {
            assert(a.len() == b.len());
            if a.len() > 0 {
                assert(a[0] == b[0]);
            }
        }
    }
}

/// The strict comparison is transitive.
proof fn lemma_lex_cmp_trans(a: Seq<u8>, b: Seq<u8>, c: Seq<u8>)
    requires
        lex_cmp(a, b) == Ordering::Less,
        lex_cmp(b, c) == Ordering::Less,
    ensures
        lex_cmp(a, c) == Ordering::Less,
    decreases a.len() + b.len() + c.len(),
{
    assert(b.len() > 0);
    assert(c.len() > 0);
    if a.len() > 0 {
        if a[0] == b[0] && b[0] == c[0] {
            lemma_lex_cmp_trans(a.skip(1), b.skip(1), c.skip(1));
        }
    }
}

/// The least index at or after `i` whose slot key is not below `k`.
pub open spec fn spec_lower_bound(d: Seq<u8>, k: Seq<u8>, i: int) -> int
    decreases spec_n_items(d) - i,
{
    if i < spec_n_items(d) && spec_cmp_at(d, i, k) == Ordering::Greater {
        spec_lower_bound(d, k, i + 1)
    } else {
        i
    }
}

/// A position whose left side compares `Greater` throughout and whose own
/// slot does not is the lower bound.
proof fn lemma_lower_bound_unique(d: Seq<u8>, k: Seq<u8>, i: int, r: int)
    requires
        0 <= i <= r <= spec_n_items(d),
        forall|m: int| i <= m < r ==> spec_cmp_at(d, m, k) == Ordering::Greater,
        r < spec_n_items(d) ==> spec_cmp_at(d, r, k) != Ordering::Greater,
    ensures
        spec_lower_bound(d, k, i) == r,
    decreases r - i,
{
    if i < r {
        assert(spec_cmp_at(d, i, k) == Ordering::Greater);
        lemma_lower_bound_unique(d, k, i + 1, r);
    }
}

/// In a sorted page, slots that compare `Greater` form a prefix.
proof fn lemma_cmp_monotone(d: Seq<u8>, k: Seq<u8>, i: int, j: int)
    requires
        page_wf(d),
        sorted_page(d),
        0 <= i < j < spec_n_items(d),
        spec_cmp_at(d, j, k) == Ordering::Greater,
    ensures
        spec_cmp_at(d, i, k) == Ordering::Greater,
{
    let ki = spec_key(d, i);
    let kj = spec_key(d, j);
    assert(item_wf(d, i));
    assert(item_wf(d, j));
    assert(ki.len() == spec_key_len(d, i));
    assert(kj.len() == spec_key_len(d, j));
    assert(key_lt(ki, kj));
    assert(kj.len() != 0);
    assert(ki.len() != 0);
    assert(lex_cmp(ki, kj) == Ordering::Less);
    assert(lex_cmp(k, kj) == Ordering::Greater);
    lemma_lex_cmp_flip(k, kj);
    assert(lex_cmp(kj, k) == Ordering::Less);
    lemma_lex_cmp_trans(ki, kj, k);
    lemma_lex_cmp_flip(ki, k);
}

/// Some slot of the page stores exactly the key `k`.
pub open spec fn page_has_key(d: Seq<u8>, k: Seq<u8>) -> bool {
    exists|i: int| 0 <= i < spec_n_items(d) && spec_key(d, i) == k
}

/// In a sorted page a key is present exactly when the slot at its lower
/// bound compares `Equal`, and then in no other slot.
pub proof fn lemma_lower_bound_finds_key(d: Seq<u8>, k: Seq<u8>)
    requires
        page_wf(d),
        sorted_page(d),
        k.len() >= 1,
    ensures
        page_has_key(d, k) <==> (spec_lower_bound(d, k, 0) < spec_n_items(d) && spec_cmp_at(
            d,
            spec_lower_bound(d, k, 0),
            k,
        ) == Ordering::Equal),
{
    let n = spec_n_items(d);
    let lb = spec_lower_bound(d, k, 0);
    lemma_lower_bound_props(d, k, 0);
    if lb < n && spec_cmp_at(d, lb, k) == Ordering::Equal {
        assert(spec_key_len(d, lb) != 0);
        lemma_lex_cmp_eq(k, spec_key(d, lb));
        assert(spec_key(d, lb) == k);
        assert(page_has_key(d, k));
    }
    if page_has_key(d, k) {
        let i = choose|i: int| 0 <= i < n && spec_key(d, i) == k;
        assert(item_wf(d, i));
        assert(spec_key(d, i).len() == spec_key_len(d, i));
        lemma_lex_cmp_eq(k, spec_key(d, i));
        assert(spec_key_len(d, i) == k.len());
        assert(spec_cmp_at(d, i, k) == Ordering::Equal);
        assert(lb <= i) by {
            if i < lb {
                assert(spec_cmp_at(d, i, k) == Ordering::Greater);
            }
        }
        assert(lb == i) by {
            if lb < i {
                assert(key_lt(spec_key(d, lb), spec_key(d, i)));
                assert(item_wf(d, lb));
                let klb = spec_key(d, lb);
                assert(klb.len() == spec_key_len(d, lb));
                assert(klb.len() != 0);
                assert(spec_key_len(d, lb) != 0);
                assert(spec_cmp_at(d, lb, k) != Ordering::Greater);
                assert(lex_cmp(klb, k) == Ordering::Less);
                lemma_lex_cmp_eq(k, k);
                if lex_cmp(k, klb) == Ordering::Equal {
                    lemma_lex_cmp_eq(k, klb);
                    assert(false);
                } else {
                    assert(lex_cmp(k, klb) == Ordering::Less);
                    lemma_lex_cmp_trans(k, klb, k);
                    assert(false);
                }
            }
        }
    }
}

/// The slot a lookup lands on is the slot that stores the key: on a
/// sorted page holding a pair, searching its key yields its value.
pub proof fn lemma_lookup_at_key(d: Seq<u8>, k: Seq<u8>, i: int)
    requires
        page_wf(d),
        sorted_page(d),
        k.len() >= 1,
        0 <= i < spec_n_items(d),
        spec_key(d, i) == k,
    ensures
        spec_lower_bound(d, k, 0) == i,
        spec_cmp_at(d, i, k) == Ordering::Equal,
{
    assert(page_has_key(d, k)) by {
        assert(0 <= i < spec_n_items(d) && spec_key(d, i) == k);
    }
    lemma_lower_bound_finds_key(d, k);
    lemma_lower_bound_props(d, k, 0);
    let lb = spec_lower_bound(d, k, 0);
    assert(0 <= lb < spec_n_items(d));
    assert(item_wf(d, lb));
    lemma_lex_cmp_eq(k, spec_key(d, lb));
    assert(spec_key(d, lb) == k);
    lemma_lex_cmp_eq(k, k);
    if lb < i {
        assert(key_lt(spec_key(d, lb), spec_key(d, i)));
        assert(false);
    }
    if i < lb {
        assert(key_lt(spec_key(d, i), spec_key(d, lb)));
        assert(false);
    }
}

/// Properties of the lower bound: it splits the page into a `Greater`
/// prefix and a rest that starts no lower than the key.
proof fn lemma_lower_bound_props(d: Seq<u8>, k: Seq<u8>, i: int)
    requires
        0 <= i <= spec_n_items(d),
    ensures
        i <= spec_lower_bound(d, k, i) <= spec_n_items(d),
        forall|m: int|
            i <= m < spec_lower_bound(d, k, i) ==> spec_cmp_at(d, m, k) == Ordering::Greater,
        spec_lower_bound(d, k, i) < spec_n_items(d) ==> spec_cmp_at(
            d,
            spec_lower_bound(d, k, i),
            k,
        ) != Ordering::Greater,
    decreases spec_n_items(d) - i,
{
    if i < spec_n_items(d) && spec_cmp_at(d, i, k) == Ordering::Greater {
        lemma_lower_bound_props(d, k, i + 1);
    }
}

impl PageData {
    /// Binary search for the least slot whose key is not below `key`.
    pub fn lower_bound(&self, key: &Key) -> (r: ItemPointer)
        requires
            self.wf(),
            sorted_page(self@),
            key@.len() >= 1,
        ensures
            r as int == spec_lower_bound(self@, key@, 0),
            r <= spec_n_items(self@),
            forall|m: int| 0 <= m < r ==> spec_cmp_at(self@, m, key@) == Ordering::Greater,
            r < spec_n_items(self@) ==> spec_cmp_at(self@, r as int, key@) != Ordering::Greater,
    {
        let n = self.get_n_items();
        let mut l: usize = 0;
        let mut r: usize = n;
        while l < r
            invariant
                self.wf(),
                sorted_page(self@),
                key@.len() >= 1,
                n == spec_n_items(self@),
                0 <= l <= r <= n,
                forall|m: int| 0 <= m < l ==> spec_cmp_at(self@, m, key@) == Ordering::Greater,
                forall|m: int|
                    r <= m < n ==> spec_cmp_at(self@, m, key@) != Ordering::Greater,
            decreases r - l,
        {
            let m = (l + r) / 2;
            let c = self.compare_key(m, key);
            if matches!(c, Ordering::Greater) {
                proof {
                    assert forall|t: int| 0 <= t < m + 1 implies spec_cmp_at(self@, t, key@)
                        == Ordering::Greater by {
                        if t < m {
                            lemma_cmp_monotone(self@, key@, t, m as int);
                        }
                    }
                }
                l = m + 1;
            } else {
                proof {
                    assert forall|t: int| m <= t < n implies spec_cmp_at(self@, t, key@)
                        != Ordering::Greater by {
                        if t > m {
                            if spec_cmp_at(self@, t, key@) == Ordering::Greater {
                                lemma_cmp_monotone(self@, key@, m as int, t);
                            }
                        }
                    }
                }
                r = m;
            }
        }
        proof {
            lemma_lower_bound_unique(self@, key@, 0, l as int);
        }
        l
    }
}

/// Every slot of an internal page stores exactly a 4-byte child id as
/// its value.
pub open spec fn internal_page_ok(d: Seq<u8>) -> bool {
    forall|i: int|
        0 <= i < spec_n_items(d) ==> #[trigger] spec_item_len(d, i) == 1 + spec_key_len(d, i) + 4
}

/// The step a search takes at one page of the tree.
pub enum SearchStep {
    /// A leaf slot holds the key; its value is carried along.
    Found(Value),
    /// The search continues in this child of an internal page.
    Descend(PageId),
    /// The subtree below this page does not hold the key.
    NotFound,
}

/// One step of a point lookup: at a leaf the value of the matching slot,
/// at an internal page the child at the key's lower bound.
pub fn search_page(page: &PageData, key: &Key, height: u32) -> (r: SearchStep)
    requires
        page.wf(),
        sorted_page(page@),
        height >= 1,
        key@.len() >= 1,
        height >= 2 ==> internal_page_ok(page@),
    ensures
        height == 1 && spec_lower_bound(page@, key@, 0) < spec_n_items(page@) && spec_cmp_at(
            page@,
            spec_lower_bound(page@, key@, 0),
            key@,
        ) == Ordering::Equal ==> (r matches SearchStep::Found(v) && v@ == spec_value(
            page@,
            spec_lower_bound(page@, key@, 0),
        )),
        height == 1 && !(spec_lower_bound(page@, key@, 0) < spec_n_items(page@) && spec_cmp_at(
            page@,
            spec_lower_bound(page@, key@, 0),
            key@,
        ) == Ordering::Equal) ==> r is NotFound,
        height == 1 ==> (r is Found <==> page_has_key(page@, key@)),
        height >= 2 && spec_lower_bound(page@, key@, 0) < spec_n_items(page@) ==> (r matches
            SearchStep::Descend(c) && c as int == spec_child(
            page@,
            spec_lower_bound(page@, key@, 0),
        )),
        height >= 2 && spec_lower_bound(page@, key@, 0) >= spec_n_items(page@) ==> r is NotFound,
{
    let n = page.get_n_items();
    let r = page.lower_bound(key);
    proof {
        lemma_lower_bound_finds_key(page@, key@);
    }
    if height == 1 {
        if r < n {
            let c = page.compare_key(r, key);
            if matches!(c, Ordering::Equal) {
                let item = page.get_item(r);
                return SearchStep::Found(item.1);
            }
        }
        SearchStep::NotFound
    } else {
        if r < n {
            SearchStep::Descend(page.get_child(r))
        } else {
            SearchStep::NotFound
        }
    }
}

/// Whether an item of the given key and value lengths fits the page.
pub open spec fn item_fits(d: Seq<u8>, klen: int, vlen: int) -> bool {
    (spec_n_items(d) + 1) * 2 + spec_size(d) + 1 + klen + vlen <= PAGE_SIZE - PAGE_HEADER_SIZE
}

/// The split position of a full page: everything at or before it moves to
/// the new left sibling.  Appends move every item, otherwise the split
/// falls on the first slot at or below the byte median.
pub open spec fn spec_split_index(d: Seq<u8>, ip: int) -> int {
    if ip == spec_n_items(d) {
        spec_n_items(d) - 1
    } else {
        choose|r: int|
            0 <= r < spec_n_items(d) && spec_offs(d, r) <= PAGE_SIZE - spec_size(d) / 2 && (forall|
                j: int,
            |
                0 <= j < r ==> spec_offs(d, j) > PAGE_SIZE - spec_size(d) / 2)
    }
}

/// Insert an item at slot `ip`, splitting the page when it is full: the
/// smaller half moves to `new_page`, the item lands in the half that the
/// slot falls in, and the new page's last key is handed back for the
/// parent.  The error is returned only when the item does not fit the
/// half either, which the bounds on keys and values rule out in the tree.
pub fn insert_in_page(
    page: &mut PageData,
    new_page: &mut PageData,
    ip: ItemPointer,
    key: &Key,
    value: &[u8],
) -> (r: Result<Option<Key>, DbError>)
    requires
        old(page).wf(),
        ip <= spec_n_items(old(page)@),
        1 <= key@.len() <= MAX_KEY_LEN,
        value@.len() <= MAX_VALUE_LEN,
        old(new_page)@.len() == PAGE_SIZE,
    ensures
        final(page)@.len() == PAGE_SIZE,
        final(new_page)@.len() == PAGE_SIZE,
        final(page).wf(),
        (r matches Ok(None)) <==> item_fits(
            old(page)@,
            key@.len() as int,
            value@.len() as int,
        ),
        r matches Ok(None) ==> final(new_page)@ == old(new_page)@ && spec_n_items(
            final(page)@,
        ) == spec_n_items(old(page)@) + 1 && (forall|j: int|
            0 <= j < ip ==> spec_item(final(page)@, j) == spec_item(old(page)@, j)) && spec_key(
            final(page)@,
            ip as int,
        ) == key@ && spec_value(final(page)@, ip as int) == value@ && (forall|j: int|
            ip < j <= spec_n_items(old(page)@) ==> spec_item(final(page)@, j) == spec_item(
                old(page)@,
                j - 1,
            )),
        r matches Ok(Some(k)) ==> ({
            let d0 = old(page)@;
            let s = spec_split_index(d0, ip as int);
            let n0 = spec_n_items(d0);
            &&& 0 <= s < n0
            &&& final(new_page).wf()
            &&& k@ == spec_key(d0, s)
            &&& (ip > s ==> spec_n_items(final(new_page)@) == s + 1 && (forall|t: int|
                0 <= t <= s ==> spec_item(final(new_page)@, t) == spec_item(d0, t))
                && spec_n_items(final(page)@) == n0 - s && (forall|t: int|
                0 <= t < ip - s - 1 ==> spec_item(final(page)@, t) == spec_item(d0, t + s + 1))
                && spec_key(final(page)@, ip - s - 1) == key@ && spec_value(
                final(page)@,
                ip - s - 1,
            ) == value@ && (forall|t: int|
                ip - s <= t < n0 - s ==> spec_item(final(page)@, t) == spec_item(d0, t + s)))
            &&& (ip <= s ==> spec_n_items(final(new_page)@) == s + 2 && (forall|t: int|
                0 <= t < ip ==> spec_item(final(new_page)@, t) == spec_item(d0, t)) && spec_key(
                final(new_page)@,
                ip as int,
            ) == key@ && spec_value(final(new_page)@, ip as int) == value@ && (forall|t: int|
                ip < t <= s + 1 ==> spec_item(final(new_page)@, t) == spec_item(d0, t - 1))
                && spec_n_items(final(page)@) == n0 - s - 1 && (forall|t: int|
                0 <= t < n0 - s - 1 ==> spec_item(final(page)@, t) == spec_item(d0, t + s + 1)))
        }),
        r is Err ==> ({
            let d0 = old(page)@;
            let s = spec_split_index(d0, ip as int);
            let n0 = spec_n_items(d0);
            &&& !item_fits(d0, key@.len() as int, value@.len() as int)
            &&& 0 <= s < n0
            &&& final(new_page).wf()
            &&& spec_n_items(final(new_page)@) == s + 1
            &&& (forall|t: int|
                0 <= t <= s ==> spec_item(final(new_page)@, t) == spec_item(d0, t))
            &&& spec_n_items(final(page)@) == n0 - s - 1
            &&& (forall|t: int|
                0 <= t < n0 - s - 1 ==> spec_item(final(page)@, t) == spec_item(d0, t + s + 1))
            &&& (ip > s ==> !item_fits(final(page)@, key@.len() as int, value@.len() as int))
            &&& (ip <= s ==> !item_fits(
                final(new_page)@,
                key@.len() as int,
                value@.len() as int,
            ))
        }),
        r matches Err(e) ==> e == DbError::InvariantViolated,
{
    let ghost d0 = old(page)@;
    let ghost n0 = spec_n_items(d0);
    if page.insert_item(ip, key, value) {
        return Ok(None);
    }
    proof {
        assert(spec_n_items(d0) >= 1) by {
            if spec_n_items(d0) == 0 {
                assert(spec_size(d0) == 0);
                assert(!item_fits(d0, key@.len() as int, value@.len() as int));
                assert(2 + 1 + key@.len() + value@.len() > PAGE_SIZE - PAGE_HEADER_SIZE);
            }
        }
    }
    let sp = page.split(new_page, ip);
    proof {
        if ip < n0 {
            assert(spec_split_index(d0, ip as int) == sp) by {
                let margin = PAGE_SIZE - spec_size(d0) / 2;
                assert(spec_offs(d0, sp as int) <= margin && (forall|j: int|
                    0 <= j < sp ==> spec_offs(d0, j) > margin));
                let c = spec_split_index(d0, ip as int);
                assert(0 <= c < n0 && spec_offs(d0, c) <= margin && (forall|j: int|
                    0 <= j < c ==> spec_offs(d0, j) > margin));
                if c < sp {
                    assert(spec_offs(d0, c) > margin);
                } else if sp < c {
                    assert(spec_offs(d0, sp as int) > margin);
                }
            }
        } else {
            assert(spec_split_index(d0, ip as int) == n0 - 1);
        }
    }
    let ghost s = spec_split_index(d0, ip as int);
    let ok: bool = if ip > sp {
        page.insert_item(ip - sp - 1, key, value)
    } else {
        new_page.insert_item(ip, key, value)
    };
    if !ok {
        return Err(DbError::InvariantViolated);
    }
    let k = new_page.get_last_key();
    proof {
        if ip <= s {
            assert(spec_item(new_page@, s + 1) == spec_item(d0, s));
            assert(spec_key(new_page@, s + 1) =~= spec_key(d0, s));
        } else {
            assert(spec_item(new_page@, s) == spec_item(d0, s));
            assert(spec_key(new_page@, s) =~= spec_key(d0, s));
        }
    }
    Ok(Some(k))
}

/// Check that a key and a value are within the store's bounds: a key
/// holds 1 to 255 bytes, a value at most a quarter of a page.
pub fn validate_kv(key: &Key, value: &Value) -> (r: Result<(), DbError>)
    ensures
        r is Ok <==> (1 <= key@.len() <= MAX_KEY_LEN && value@.len() <= MAX_VALUE_LEN),
        (r matches Err(e) && e == DbError::EmptyKey) <==> key@.len() == 0,
        (r matches Err(e) && e == DbError::KeyTooLarge) <==> key@.len() > MAX_KEY_LEN,
        (r matches Err(e) && e == DbError::ValueTooLarge) <==> (1 <= key@.len() <= MAX_KEY_LEN
            && value@.len() > MAX_VALUE_LEN),
{
    if key.len() == 0 {
        Err(DbError::EmptyKey)
    } else if key.len() > MAX_KEY_LEN {
        Err(DbError::KeyTooLarge)
    } else if value.len() > MAX_VALUE_LEN {
        Err(DbError::ValueTooLarge)
    } else {
        Ok(())
    }
}

/// The sentinel-topped key order is transitive.
proof fn lemma_key_lt_trans(a: Seq<u8>, b: Seq<u8>, c: Seq<u8>)
    requires
        key_lt(a, b),
        key_lt(b, c),
    ensures
        key_lt(a, c),
{
    if c.len() != 0 {
        lemma_lex_cmp_trans(a, b, c);
    }
}

/// A page whose keys are a contiguous run of a sorted page's keys is
/// itself sorted.
pub proof fn lemma_sorted_slice(d0: Seq<u8>, d1: Seq<u8>, lo: int)
    requires
        sorted_page(d0),
        0 <= lo,
        lo + spec_n_items(d1) <= spec_n_items(d0),
        forall|t: int| 0 <= t < spec_n_items(d1) ==> spec_key(d1, t) == spec_key(d0, lo + t),
    ensures
        sorted_page(d1),
{
    assert forall|i: int, j: int|
        0 <= i < j < spec_n_items(d1) implies key_lt(spec_key(d1, i), spec_key(d1, j)) by {
        assert(key_lt(spec_key(d0, lo + i), spec_key(d0, lo + j)));
    }
}

/// A page whose keys are a contiguous run of a sorted page's keys with
/// one new key standing at its lower bound inside that run is sorted: a
/// split at a full page followed by the insertion keeps the order on
/// both halves.
pub proof fn lemma_sorted_after_insert(d0: Seq<u8>, d1: Seq<u8>, lo: int, q: int, k: Seq<u8>)
    requires
        page_wf(d0),
        sorted_page(d0),
        k.len() >= 1,
        0 <= lo,
        0 <= q,
        lo + q <= spec_n_items(d0),
        spec_n_items(d1) >= q + 1,
        lo + spec_n_items(d1) - 1 <= spec_n_items(d0),
        forall|t: int| 0 <= t < q ==> spec_key(d1, t) == spec_key(d0, lo + t),
        spec_key(d1, q) == k,
        forall|t: int|
            q < t < spec_n_items(d1) ==> spec_key(d1, t) == spec_key(d0, lo + t - 1),
        forall|m: int| 0 <= m < lo + q ==> spec_cmp_at(d0, m, k) == Ordering::Greater,
        lo + q < spec_n_items(d0) ==> spec_cmp_at(d0, lo + q, k) != Ordering::Greater
            && spec_cmp_at(d0, lo + q, k) != Ordering::Equal,
    ensures
        sorted_page(d1),
{
    let n0 = spec_n_items(d0);
    let n1 = spec_n_items(d1);
    let ip = lo + q;
    assert forall|i: int, j: int|
        0 <= i < j < n1 implies key_lt(spec_key(d1, i), spec_key(d1, j)) by {
        if i != q && j != q {
            let a = if i < q { lo + i } else { lo + i - 1 };
            let b = if j < q { lo + j } else { lo + j - 1 };
            assert(0 <= a < b < n0);
            assert(key_lt(spec_key(d0, a), spec_key(d0, b)));
        } else if j == q {
            let a = lo + i;
            assert(spec_cmp_at(d0, a, k) == Ordering::Greater);
            assert(item_wf(d0, a));
            let ka = spec_key(d0, a);
            assert(ka.len() == spec_key_len(d0, a));
            assert(ka.len() != 0);
            assert(lex_cmp(k, ka) == Ordering::Greater);
            lemma_lex_cmp_flip(k, ka);
            assert(key_lt(ka, k));
        } else {
            let b = lo + j - 1;
            assert(ip <= b < n0);
            assert(item_wf(d0, ip));
            let kip = spec_key(d0, ip);
            assert(kip.len() == spec_key_len(d0, ip));
            if spec_key_len(d0, ip) == 0 {
                if b > ip {
                    assert(key_lt(kip, spec_key(d0, b)));
                    assert(false);
                }
                assert(key_lt(k, spec_key(d0, b)));
            } else {
                assert(lex_cmp(k, kip) == Ordering::Less);
                assert(key_lt(k, kip));
                if b > ip {
                    assert(key_lt(kip, spec_key(d0, b)));
                    lemma_key_lt_trans(k, kip, spec_key(d0, b));
                }
            }
        }
    }
}

/// In a sorted page only the last slot can hold the sentinel key.
pub proof fn lemma_sentinel_only_last(d: Seq<u8>)
    requires
        sorted_page(d),
    ensures
        forall|i: int| 0 <= i < spec_n_items(d) - 1 ==> spec_key(d, i).len() != 0,
{
    assert forall|i: int| 0 <= i < spec_n_items(d) - 1 implies spec_key(d, i).len() != 0 by {
        assert(key_lt(spec_key(d, i), spec_key(d, i + 1)));
    }
}

/// The slot keys ascend strictly from `prev` onward, a sentinel slot
/// passing against any predecessor.
pub open spec fn leaf_chain_ok(d: Seq<u8>, prev: Seq<u8>, i: int) -> bool
    decreases spec_n_items(d) - i,
{
    if i < spec_n_items(d) {
        spec_cmp_at(d, i, prev) == Ordering::Less && leaf_chain_ok(d, spec_key(d, i), i + 1)
    } else {
        true
    }
}

/// Walk a leaf in slot order, checking each key lies strictly above the
/// one before; `prev_key` carries the largest key seen for the caller's
/// next page.  Returns the number of items on success.
pub fn check_leaf_order(page: &PageData, prev_key: &mut Key) -> (r: Result<u64, DbError>)
    requires
        page.wf(),
    ensures
        r is Ok <==> leaf_chain_ok(page@, old(prev_key)@, 0),
        r matches Ok(c) ==> c == spec_n_items(page@),
        r is Ok && spec_n_items(page@) > 0 ==> final(prev_key)@ == spec_key(
            page@,
            spec_n_items(page@) - 1,
        ),
        r is Ok && spec_n_items(page@) == 0 ==> final(prev_key)@ == old(prev_key)@,
        r matches Err(e) ==> e == DbError::InvariantViolated,
{
    let n = page.get_n_items();
    let mut i: usize = 0;
    while i < n
        invariant
            page.wf(),
            n == spec_n_items(page@),
            0 <= i <= n,
            leaf_chain_ok(page@, old(prev_key)@, 0) == leaf_chain_ok(page@, prev_key@, i as int),
            i > 0 ==> prev_key@ == spec_key(page@, i - 1),
            i == 0 ==> prev_key@ == old(prev_key)@,
        decreases n - i,
    {
        let c = page.compare_key(i, prev_key);
        if !matches!(c, Ordering::Less) {
            proof {
                assert(!leaf_chain_ok(page@, prev_key@, i as int));
            }
            return Err(DbError::InvariantViolated);
        }
        let k = page.get_key(i);
        *prev_key = k;
        i = i + 1;
    }
    Ok(n as u64)
}

/// Slot `t` of a passing chain ascends from its predecessor, the first
/// slot from the chain's own floor.
proof fn lemma_chain_step(d: Seq<u8>, p: Seq<u8>, i: int, t: int)
    requires
        leaf_chain_ok(d, p, i),
        0 <= i <= t,
        t < spec_n_items(d),
    ensures
        spec_cmp_at(
            d,
            t,
            if t == i {
                p
            } else {
                spec_key(d, t - 1)
            },
        ) == Ordering::Less,
    decreases t - i,
{
    if t > i {
        lemma_chain_step(d, spec_key(d, i), i + 1, t);
    }
}

/// A leaf that passes the order check is sorted: the slot-by-slot ascent
/// of its keys gives the pairwise order the searches rely on.
pub proof fn lemma_leaf_chain_sorted(d: Seq<u8>, prev: Seq<u8>)
    requires
        page_wf(d),
        leaf_chain_ok(d, prev, 0),
        forall|i: int| 0 <= i < spec_n_items(d) ==> spec_key(d, i).len() != 0,
    ensures
        sorted_page(d),
{
    assert forall|i: int, j: int|
        0 <= i < j < spec_n_items(d) implies key_lt(spec_key(d, i), spec_key(d, j)) by {
        lemma_chain_range(d, prev, i, j);
    }
}

/// Pairwise order of a passing chain's real keys, by transitivity over
/// the consecutive steps.
proof fn lemma_chain_range(d: Seq<u8>, p: Seq<u8>, i: int, j: int)
    requires
        page_wf(d),
        leaf_chain_ok(d, p, 0),
        forall|t: int| 0 <= t < spec_n_items(d) ==> spec_key(d, t).len() != 0,
        0 <= i < j < spec_n_items(d),
    ensures
        key_lt(spec_key(d, i), spec_key(d, j)),
    decreases j - i,
{
    lemma_chain_step(d, p, 0, j);
    assert(item_wf(d, j));
    assert(spec_key(d, j).len() == spec_key_len(d, j));
    assert(spec_key_len(d, j) != 0);
    assert(lex_cmp(spec_key(d, j - 1), spec_key(d, j)) == Ordering::Less);
    assert(key_lt(spec_key(d, j - 1), spec_key(d, j)));
    if i < j - 1 {
        lemma_chain_range(d, p, i, j - 1);
        lemma_key_lt_trans(spec_key(d, i), spec_key(d, j - 1), spec_key(d, j));
    }
}

/// Check one separator of an internal page against the largest key of the
/// subtree below it: the stored key must not be smaller.
pub fn check_separator(page: &PageData, ip: ItemPointer, prev_key: &Key) -> (r: Result<
    (),
    DbError,
>)
    requires
        page.wf(),
        ip < spec_n_items(page@),
    ensures
        r is Ok <==> (spec_cmp_at(page@, ip as int, prev_key@) == Ordering::Less || spec_cmp_at(
            page@,
            ip as int,
            prev_key@,
        ) == Ordering::Equal),
        r matches Err(e) ==> e == DbError::InvariantViolated,
{
    let c = page.compare_key(ip, prev_key);
    match c {
        Ordering::Less => Ok(()),
        Ordering::Equal => Ok(()),
        Ordering::Greater => Err(DbError::InvariantViolated),
    }
}

} // verus!
