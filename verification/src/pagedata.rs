use vstd::prelude::*;

verus! {

use core::cmp::Ordering;
use crate::bytes::{be16, be32, get_be16, get_be32, put_be16, put_be32};
use crate::config::{PAGE_SIZE, PAGE_HEADER_SIZE, MAX_KEY_LEN, PageId, Key, ItemPointer};

/// One page of the data file, in the slotted layout: a 2-byte item count,
/// then a growing array of 2-byte item offsets, while the items themselves
/// grow downward from the end of the page.  Item 0 sits at the highest
/// addresses; offsets strictly decrease with the item index.  Keys are
/// kept in ascending order over the item index, and a zero-length key is
/// the "plus infinity" sentinel allowed only as the last slot of an
/// internal node.
pub struct PageData {
    pub data: Vec<u8>,
}

impl View for PageData {
    type V = Seq<u8>;

    open spec fn view(&self) -> Seq<u8> {
        self.data@
    }
}

/// Number of items recorded in the page header.
pub open spec fn spec_n_items(d: Seq<u8>) -> int {
    be16(d, 0)
}

/// Byte offset of item `i`.
pub open spec fn spec_offs(d: Seq<u8>, i: int) -> int {
    be16(d, PAGE_HEADER_SIZE + 2 * i)
}

/// One past the last byte of item `i`; item `i - 1` starts right there.
pub open spec fn spec_item_end(d: Seq<u8>, i: int) -> int {
    if i == 0 {
        PAGE_SIZE as int
    } else {
        spec_offs(d, i - 1)
    }
}

/// Length in bytes of item `i`.
pub open spec fn spec_item_len(d: Seq<u8>, i: int) -> int {
    spec_item_end(d, i) - spec_offs(d, i)
}

/// The raw bytes of item `i`: a length byte, the key, then the value.
pub open spec fn spec_item(d: Seq<u8>, i: int) -> Seq<u8> {
    d.subrange(spec_offs(d, i), spec_item_end(d, i))
}

/// Length of the key of item `i`.
pub open spec fn spec_key_len(d: Seq<u8>, i: int) -> int {
    spec_item(d, i)[0] as int
}

/// The key bytes of item `i`.
pub open spec fn spec_key(d: Seq<u8>, i: int) -> Seq<u8> {
    spec_item(d, i).subrange(1, 1 + spec_key_len(d, i))
}

/// The value bytes of item `i`.
pub open spec fn spec_value(d: Seq<u8>, i: int) -> Seq<u8> {
    spec_item(d, i).subrange(1 + spec_key_len(d, i), spec_item_len(d, i))
}

/// The child page id stored as the value of item `i` of an internal node.
pub open spec fn spec_child(d: Seq<u8>, i: int) -> int {
    be32(spec_item(d, i), 1 + spec_key_len(d, i))
}

/// Bytes occupied by the items themselves (offsets array excluded).
pub open spec fn spec_size(d: Seq<u8>) -> int {
    if spec_n_items(d) == 0 {
        0
    } else {
        PAGE_SIZE - spec_offs(d, spec_n_items(d) - 1)
    }
}

/// Item `i` lies inside the page, does not overlap the offsets array,
/// and is long enough to hold its own key.
pub open spec fn item_wf(d: Seq<u8>, i: int) -> bool {
    &&& PAGE_HEADER_SIZE + 2 * spec_n_items(d) <= spec_offs(d, i)
    &&& spec_offs(d, i) < spec_item_end(d, i)
    &&& spec_item_end(d, i) <= PAGE_SIZE
    &&& 1 + spec_key_len(d, i) <= spec_item_len(d, i)
}

/// Structural well-formedness of the slotted layout.
pub open spec fn page_wf(d: Seq<u8>) -> bool {
    &&& d.len() == PAGE_SIZE
    &&& PAGE_HEADER_SIZE + 2 * spec_n_items(d) <= PAGE_SIZE
    &&& forall|i: int| 0 <= i < spec_n_items(d) ==> item_wf(d, i)
}

/// Three-way lexicographic comparison of byte strings.
pub open spec fn lex_cmp(a: Seq<u8>, b: Seq<u8>) -> Ordering
    decreases a.len(),
{
    if a.len() == 0 && b.len() == 0 {
        Ordering::Equal
    } else if a.len() == 0 {
        Ordering::Less
    } else if b.len() == 0 {
        Ordering::Greater
    } else if a[0] < b[0] {
        Ordering::Less
    } else if a[0] > b[0] {
        Ordering::Greater
    } else {
        lex_cmp(a.skip(1), b.skip(1))
    }
}

/// Dropping a common prefix does not change the comparison.
proof fn lemma_lex_cmp_skip(a: Seq<u8>, b: Seq<u8>, i: int)
    requires
        0 <= i <= a.len(),
        i <= b.len(),
        forall|j: int| 0 <= j < i ==> a[j] == b[j],
    ensures
        lex_cmp(a, b) == lex_cmp(a.skip(i), b.skip(i)),
    decreases i,
{
    if i > 0 {
        assert(a.len() > 0 && b.len() > 0);
        assert(a[0] == b[0]);
        assert(lex_cmp(a, b) == lex_cmp(a.skip(1), b.skip(1)));
        lemma_lex_cmp_skip(a.skip(1), b.skip(1), i - 1);
        assert(a.skip(1).skip(i - 1) =~= a.skip(i));
        assert(b.skip(1).skip(i - 1) =~= b.skip(i));
    } else {
        assert(a.skip(0) =~= a);
        assert(b.skip(0) =~= b);
    }
}

impl PageData {
    /// Structural well-formedness of this page.
    pub open spec fn wf(&self) -> bool {
        page_wf(self@)
    }

    /// A fresh, zero-filled page.
    pub fn new() -> (p: PageData)
        ensures
            p@.len() == PAGE_SIZE,
            forall|i: int| 0 <= i < PAGE_SIZE ==> p@[i] == 0u8,
            p.wf(),
            spec_n_items(p@) == 0,
    {
        let data: Vec<u8> = vec![0u8; PAGE_SIZE];
        let p = PageData { data };
        proof {
            assert(forall|i: int| 0 <= i < PAGE_SIZE ==> p@[i] == 0u8);
            assert(spec_n_items(p@) == 0);
        }
        p
    }

    /// Read the big-endian `u16` at byte offset `offs`.
    pub fn get_u16(&self, offs: usize) -> (r: u16)
        requires
            self@.len() == PAGE_SIZE,
            offs + 2 <= PAGE_SIZE,
        ensures
            r as int == be16(self@, offs as int),
    {
        get_be16(self.data.as_slice(), offs)
    }

    /// Read the big-endian `u32` at byte offset `offs`.
    pub fn get_u32(&self, offs: usize) -> (r: u32)
        requires
            self@.len() == PAGE_SIZE,
            offs + 4 <= PAGE_SIZE,
        ensures
            r as int == be32(self@, offs as int),
    {
        get_be32(self.data.as_slice(), offs)
    }

    /// Write a big-endian `u16` at byte offset `offs`.
    pub fn set_u16(&mut self, offs: usize, v: u16)
        requires
            old(self)@.len() == PAGE_SIZE,
            offs + 2 <= PAGE_SIZE,
        ensures
            final(self)@.len() == PAGE_SIZE,
            be16(final(self)@, offs as int) == v as int,
            forall|j: int|
                0 <= j < PAGE_SIZE && !(offs <= j < offs + 2) ==> final(self)@[j] == old(self)@[j],
    {
        put_be16(&mut self.data, offs, v)
    }

    /// Write a big-endian `u32` at byte offset `offs`.
    pub fn set_u32(&mut self, offs: usize, v: u32)
        requires
            old(self)@.len() == PAGE_SIZE,
            offs + 4 <= PAGE_SIZE,
        ensures
            final(self)@.len() == PAGE_SIZE,
            be32(final(self)@, offs as int) == v as int,
            forall|j: int|
                0 <= j < PAGE_SIZE && !(offs <= j < offs + 4) ==> final(self)@[j] == old(self)@[j],
    {
        put_be32(&mut self.data, offs, v)
    }

    /// Number of items on the page.
    pub fn get_n_items(&self) -> (n: ItemPointer)
        requires
            self@.len() == PAGE_SIZE,
        ensures
            n == spec_n_items(self@),
            n <= 0xffff,
    {
        self.get_u16(0) as ItemPointer
    }

    /// Set the number of items on the page.
    pub fn set_n_items(&mut self, n_items: ItemPointer)
        requires
            old(self)@.len() == PAGE_SIZE,
            n_items <= 0xffff,
        ensures
            final(self)@.len() == PAGE_SIZE,
            spec_n_items(final(self)@) == n_items,
            forall|j: int| 2 <= j < PAGE_SIZE ==> final(self)@[j] == old(self)@[j],
    {
        self.set_u16(0, n_items as u16)
    }

    /// Byte offset of item `ip`.
    fn get_offs(&self, ip: ItemPointer) -> (r: usize)
        requires
            self@.len() == PAGE_SIZE,
            PAGE_HEADER_SIZE + 2 * ip + 2 <= PAGE_SIZE,
        ensures
            r as int == spec_offs(self@, ip as int),
            r <= 0xffff,
    {
        self.get_u16(PAGE_HEADER_SIZE + ip * 2) as usize
    }

    /// Set the byte offset of item `ip`.
    fn set_offs(&mut self, ip: ItemPointer, offs: usize)
        requires
            old(self)@.len() == PAGE_SIZE,
            PAGE_HEADER_SIZE + 2 * ip + 2 <= PAGE_SIZE,
            offs <= 0xffff,
        ensures
            final(self)@.len() == PAGE_SIZE,
            spec_offs(final(self)@, ip as int) == offs,
            forall|j: int|
                0 <= j < PAGE_SIZE && !(PAGE_HEADER_SIZE + 2 * ip <= j < PAGE_HEADER_SIZE + 2 * ip
                    + 2) ==> final(self)@[j] == old(self)@[j],
    {
        self.set_u16(PAGE_HEADER_SIZE + ip * 2, offs as u16)
    }

    /// Offset and length of item `ip`.
    fn get_item_offs_len(&self, ip: ItemPointer) -> (r: (usize, usize))
        requires
            self.wf(),
            ip < spec_n_items(self@),
        ensures
            r.0 as int == spec_offs(self@, ip as int),
            r.1 as int == spec_item_len(self@, ip as int),
    {
        let offs = self.get_offs(ip);
        let next_offs = if ip == 0 {
            PAGE_SIZE
        } else {
            self.get_offs(ip - 1)
        };
        proof {
            assert(item_wf(self@, ip as int));
        }
        (offs, next_offs - offs)
    }

    /// Bytes occupied by the items (the offsets array not counted).
    fn get_size(&self) -> (r: ItemPointer)
        requires
            self.wf(),
        ensures
            r as int == spec_size(self@),
            r <= PAGE_SIZE,
    {
        let n_items = self.get_n_items();
        if n_items == 0 {
            0
        } else {
            proof {
                assert(item_wf(self@, n_items as int - 1));
            }
            PAGE_SIZE - self.get_offs(n_items - 1)
        }
    }

    /// Check the slotted layout of an untrusted page image.
    pub fn validate(&self) -> (r: bool)
        requires
            self@.len() == PAGE_SIZE,
        ensures
            r == page_wf(self@),
    {
        let n = self.get_n_items();
        if PAGE_HEADER_SIZE + 2 * n > PAGE_SIZE {
            return false;
        }
        let mut i: ItemPointer = 0;
        while i < n
            invariant
                self@.len() == PAGE_SIZE,
                n == spec_n_items(self@),
                PAGE_HEADER_SIZE + 2 * n <= PAGE_SIZE,
                0 <= i <= n,
                forall|j: int| 0 <= j < i ==> item_wf(self@, j),
            decreases n - i,
        {
            let offs = self.get_offs(i);
            let end = if i == 0 {
                PAGE_SIZE
            } else {
                self.get_offs(i - 1)
            };
            if !(PAGE_HEADER_SIZE + 2 * n <= offs && offs < end && end <= PAGE_SIZE) {
                proof {
                    assert(!item_wf(self@, i as int));
                }
                return false;
            }
            let key_len = self.data[offs] as usize;
            if 1 + key_len > end - offs {
                proof {
                    assert(spec_key_len(self@, i as int) == key_len);
                    assert(!item_wf(self@, i as int));
                }
                return false;
            }
            proof {
                assert(spec_key_len(self@, i as int) == key_len);
                assert(item_wf(self@, i as int));
            }
            i = i + 1;
        }
        true
    }

    /// The child page id stored in internal item `ip`.
    pub fn get_child(&self, ip: ItemPointer) -> (r: PageId)
        requires
            self.wf(),
            ip < spec_n_items(self@),
            1 + spec_key_len(self@, ip as int) + 4 <= spec_item_len(self@, ip as int),
        ensures
            r as int == spec_child(self@, ip as int),
    {
        proof {
            assert(item_wf(self@, ip as int));
        }
        let offs = self.get_offs(ip);
        let key_len = self.data[offs] as usize;
        proof {
            assert(spec_key_len(self@, ip as int) == key_len);
        }
        let r = self.get_u32(offs + key_len + 1);
        proof {
            let d = self@;
            let i = ip as int;
            let o = spec_offs(d, i);
            assert(spec_item(d, i)[1 + spec_key_len(d, i)] == d[o + 1 + spec_key_len(d, i)]);
            assert(spec_item(d, i)[1 + spec_key_len(d, i) + 1] == d[o + 1 + spec_key_len(d, i) + 1]);
            assert(spec_item(d, i)[1 + spec_key_len(d, i) + 2] == d[o + 1 + spec_key_len(d, i) + 2]);
            assert(spec_item(d, i)[1 + spec_key_len(d, i) + 3] == d[o + 1 + spec_key_len(d, i) + 3]);
        }
        r
    }

    /// Copy `len` bytes starting at `offs` into a fresh vector.
    fn read_bytes(&self, offs: usize, len: usize) -> (r: Vec<u8>)
        requires
            self@.len() == PAGE_SIZE,
            offs + len <= PAGE_SIZE,
        ensures
            r@ == self@.subrange(offs as int, offs as int + len as int),
    {
        let mut r: Vec<u8> = Vec::new();
        let mut i: usize = 0;
        while i < len
            invariant
                self@.len() == PAGE_SIZE,
                offs + len <= PAGE_SIZE,
                0 <= i <= len,
                r@.len() == i,
                forall|j: int| 0 <= j < i ==> r@[j] == self@[offs + j],
            decreases len - i,
        {
            r.push(self.data[offs + i]);
            i = i + 1;
        }
        proof {
            assert(r@ =~= self@.subrange(offs as int, offs as int + len as int));
        }
        r
    }

    /// The key of item `ip`.
    pub fn get_key(&self, ip: ItemPointer) -> (r: Key)
        requires
            self.wf(),
            ip < spec_n_items(self@),
        ensures
            r@ == spec_key(self@, ip as int),
    {
        proof {
            assert(item_wf(self@, ip as int));
        }
        let offs = self.get_offs(ip);
        let key_len = self.data[offs] as usize;
        proof {
            assert(spec_key_len(self@, ip as int) == key_len);
        }
        let r = self.read_bytes(offs + 1, key_len);
        proof {
            let d = self@;
            let i = ip as int;
            assert(r@ =~= spec_key(d, i));
        }
        r
    }

    /// The key of the last (largest, possibly sentinel) item.
    pub fn get_last_key(&self) -> (r: Key)
        requires
            self.wf(),
            spec_n_items(self@) >= 1,
        ensures
            r@ == spec_key(self@, spec_n_items(self@) - 1),
    {
        let n_items = self.get_n_items();
        self.get_key(n_items - 1)
    }

    /// The key and value of item `ip`.
    pub fn get_item(&self, ip: ItemPointer) -> (r: (Key, Vec<u8>))
        requires
            self.wf(),
            ip < spec_n_items(self@),
        ensures
            r.0@ == spec_key(self@, ip as int),
            r.1@ == spec_value(self@, ip as int),
    {
        proof {
            assert(item_wf(self@, ip as int));
        }
        let (item_offs, item_len) = self.get_item_offs_len(ip);
        let key_len = self.data[item_offs] as usize;
        proof {
            assert(spec_key_len(self@, ip as int) == key_len);
        }
        let key = self.read_bytes(item_offs + 1, key_len);
        let value = self.read_bytes(item_offs + 1 + key_len, item_len - 1 - key_len);
        proof {
            let d = self@;
            let i = ip as int;
            assert(key@ =~= spec_key(d, i));
            assert(value@ =~= spec_value(d, i));
        }
        (key, value)
    }

    /// Compare `key` with the key of item `ip`; a zero-length stored key is
    /// the sentinel and counts as strictly greater than every search key.
    pub fn compare_key(&self, ip: ItemPointer, key: &Key) -> (r: Ordering)
        requires
            self.wf(),
            ip < spec_n_items(self@),
        ensures
            r == (if spec_key_len(self@, ip as int) == 0 {
                Ordering::Less
            } else {
                lex_cmp(key@, spec_key(self@, ip as int))
            }),
    {
        proof {
            assert(item_wf(self@, ip as int));
        }
        let offs = self.get_offs(ip);
        let key_len = self.data[offs] as usize;
        proof {
            assert(spec_key_len(self@, ip as int) == key_len);
        }
        if key_len == 0 {
            return Ordering::Less;
        }
        let ghost pk = spec_key(self@, ip as int);
        proof {
            assert(pk.len() == key_len);
            assert(forall|j: int|
                0 <= j < key_len ==> pk[j] == self@[spec_offs(self@, ip as int) + 1 + j]);
        }
        let klen = key.len();
        let mut i: usize = 0;
        while i < klen && i < key_len
            invariant
                self.wf(),
                ip < spec_n_items(self@),
                item_wf(self@, ip as int),
                offs as int == spec_offs(self@, ip as int),
                key_len == spec_key_len(self@, ip as int),
                pk == spec_key(self@, ip as int),
                pk.len() == key_len,
                klen == key@.len(),
                forall|j: int| 0 <= j < key_len ==> pk[j] == self@[offs + 1 + j],
                0 <= i <= klen,
                i <= key_len,
                forall|j: int| 0 <= j < i ==> key@[j] == pk[j],
            decreases klen - i,
        {
            let a = key[i];
            let b = self.data[offs + 1 + i];
            proof {
                assert(b == pk[i as int]);
                lemma_lex_cmp_skip(key@, pk, i as int);
            }
            if a < b {
                return Ordering::Less;
            }
            if a > b {
                return Ordering::Greater;
            }
            i = i + 1;
        }
        proof {
            lemma_lex_cmp_skip(key@, pk, i as int);
        }
        if klen < key_len {
            Ordering::Less
        } else if klen > key_len {
            Ordering::Greater
        } else {
            Ordering::Equal
        }
    }
}

/// Item offsets strictly decrease with the index, so the item of a larger
/// index lies wholly below the item of a smaller one.
pub proof fn lemma_offs_mono(d: Seq<u8>, i: int, j: int)
    requires
        page_wf(d),
        0 <= i <= j < spec_n_items(d),
    ensures
        spec_offs(d, j) <= spec_offs(d, i),
        i < j ==> spec_item_end(d, j) <= spec_offs(d, i),
    decreases j - i,
{
    if i < j {
        assert(item_wf(d, j));
        lemma_offs_mono(d, i, j - 1);
    }
}

/// Every item lies at or above the start of the item area.
proof fn lemma_items_origin(d: Seq<u8>, i: int)
    requires
        page_wf(d),
        0 <= i < spec_n_items(d),
    ensures
        PAGE_SIZE - spec_size(d) <= spec_offs(d, i),
        spec_item_end(d, i) <= PAGE_SIZE,
    decreases spec_n_items(d) - i,
{
    let n = spec_n_items(d);
    assert(item_wf(d, i));
    lemma_offs_mono(d, i, n - 1);
    if i > 0 {
        assert(item_wf(d, i - 1));
        lemma_offs_mono(d, 0, i - 1);
        assert(item_wf(d, 0));
    }
}


/// After `insert_item` has shifted the offsets, slid the item area down,
/// and written the new item, the page is well formed and the items map as
/// an insertion at `ip`.
#[verifier::rlimit(100)]
proof fn lemma_insert_item_post(
    d0: Seq<u8>,
    d: Seq<u8>,
    ip: int,
    item_offs: int,
    item_len: int,
    items_origin: int,
    key: Seq<u8>,
    value: Seq<u8>,
)
    requires
        page_wf(d0),
        0 <= ip <= spec_n_items(d0),
        key.len() <= MAX_KEY_LEN,
        item_len == 1 + key.len() + value.len(),
        items_origin == PAGE_SIZE - spec_size(d0),
        PAGE_HEADER_SIZE + 2 * (spec_n_items(d0) + 1) + item_len <= items_origin,
        item_offs + item_len == spec_item_end(d0, ip),
        items_origin <= item_offs + item_len,
        d.len() == PAGE_SIZE,
        spec_n_items(d) == spec_n_items(d0) + 1,
        forall|t: int| 0 <= t < ip ==> #[trigger] spec_offs(d, t) == spec_offs(d0, t),
        spec_offs(d, ip) == item_offs,
        forall|t: int|
            ip < t <= spec_n_items(d0) ==> #[trigger] spec_offs(d, t) == spec_offs(d0, t - 1)
                - item_len,
        forall|j: int| item_offs + item_len <= j < PAGE_SIZE ==> d[j] == d0[j],
        forall|j: int| items_origin - item_len <= j < item_offs ==> d[j] == d0[j + item_len],
        d[item_offs] == key.len() as u8,
        forall|j: int| 0 <= j < key.len() ==> d[item_offs + 1 + j] == key[j],
        forall|j: int| 0 <= j < value.len() ==> d[item_offs + 1 + key.len() + j] == value[j],
    ensures
        page_wf(d),
        forall|t: int| 0 <= t < ip ==> #[trigger] spec_item(d, t) == spec_item(d0, t),
        spec_key(d, ip) == key,
        spec_value(d, ip) == value,
        spec_key_len(d, ip) == key.len(),
        forall|t: int|
            ip < t <= spec_n_items(d0) ==> #[trigger] spec_item(d, t) == spec_item(d0, t - 1),
{
    let ng = spec_n_items(d0);
    // Mapping for items before the insertion point.
    assert forall|t: int| 0 <= t < ip implies #[trigger] spec_item(d, t) == spec_item(d0, t) by {
        lemma_offs_mono(d0, t, ip - 1);
        assert(spec_offs(d0, t) >= spec_offs(d0, ip - 1) == item_offs + item_len);
        assert(spec_offs(d, t) == spec_offs(d0, t));
        assert(spec_item_end(d, t) == spec_item_end(d0, t));
        assert(item_wf(d0, t));
        assert forall|x: int|
            0 <= x < spec_item_len(d0, t) implies spec_item(d, t)[x] == spec_item(d0, t)[x] by {
            assert(spec_item(d, t)[x] == d[spec_offs(d0, t) + x]);
            assert(spec_item(d0, t)[x] == d0[spec_offs(d0, t) + x]);
            assert(spec_offs(d0, t) + x >= item_offs + item_len);
        }
        assert(spec_item(d, t) =~= spec_item(d0, t));
    }
    // Mapping for items after the insertion point.
    assert forall|t: int| ip < t <= ng implies #[trigger] spec_item(d, t) == spec_item(
        d0,
        t - 1,
    ) by {
        assert(spec_offs(d, t) == spec_offs(d0, t - 1) - item_len);
        if t == ip + 1 {
            assert(spec_item_end(d, t) == item_offs);
            assert(spec_item_end(d0, t - 1) == item_offs + item_len);
        } else {
            assert(spec_item_end(d, t) == spec_offs(d0, t - 2) - item_len);
        }
        assert(item_wf(d0, t - 1));
        lemma_items_origin(d0, t - 1);
        if ip > 0 {
            lemma_offs_mono(d0, ip - 1, t - 1);
            assert(spec_item_end(d0, t - 1) <= item_offs + item_len);
        }
        assert forall|j: int|
            spec_offs(d, t) <= j < spec_item_end(d, t) implies d[j] == d0[j + item_len] by {}
        assert(spec_item(d, t) =~= spec_item(d0, t - 1));
    }
    // The new item.
    if ip > 0 {
        assert(item_wf(d0, ip - 1));
    }
    assert(PAGE_HEADER_SIZE + 2 * (ng + 1) <= item_offs);
    assert(item_offs + item_len <= PAGE_SIZE);
    assert(spec_offs(d, ip) == item_offs);
    assert(spec_item_end(d, ip) == item_offs + item_len);
    assert(spec_item_len(d, ip) == item_len);
    assert(spec_item(d, ip) == d.subrange(item_offs, item_offs + item_len));
    assert forall|x: int| 0 <= x < item_len implies spec_item(d, ip)[x] == d[item_offs + x] by {}
    assert(spec_key_len(d, ip) == key.len()) by {
        assert(spec_item(d, ip)[0] == d[item_offs]);
    }
    assert(spec_key(d, ip) =~= key) by {
        assert(forall|j: int| 0 <= j < key.len() ==> spec_key(d, ip)[j] == d[item_offs + 1 + j]);
    }
    assert(spec_value(d, ip) =~= value) by {
        assert(forall|j: int|
            0 <= j < value.len() ==> spec_value(d, ip)[j] == d[item_offs + 1 + key.len() + j]);
    }
    // Well-formedness of the result.
    assert forall|t: int| 0 <= t < ng + 1 implies item_wf(d, t) by {
        if t < ip {
            assert(item_wf(d0, t));
            lemma_items_origin(d0, t);
            assert(spec_item(d, t) == spec_item(d0, t));
            assert(spec_key_len(d, t) == spec_key_len(d0, t));
            assert(spec_item_len(d, t) == spec_item_len(d0, t)) by {
                assert(spec_item(d, t).len() == spec_item(d0, t).len());
            }
        } else if t == ip {
            assert(spec_offs(d, t) == item_offs >= PAGE_HEADER_SIZE + 2 * (ng + 1));
            assert(spec_key_len(d, t) == key.len());
            assert(1 + spec_key_len(d, t) <= spec_item_len(d, t));
            assert(spec_item_end(d, t) <= PAGE_SIZE);
        } else {
            assert(item_wf(d0, t - 1));
            assert(spec_item(d, t) == spec_item(d0, t - 1));
            assert(spec_key_len(d, t) == spec_key_len(d0, t - 1));
            assert(spec_item_len(d, t) == spec_item_len(d0, t - 1)) by {
                assert(spec_item(d, t).len() == spec_item(d0, t - 1).len());
            }
            lemma_items_origin(d0, t - 1);
        }
    }
    assert(page_wf(d));
}

impl PageData {
    /// Overwrite one byte.
    fn set_byte(&mut self, offs: usize, v: u8)
        requires
            old(self)@.len() == PAGE_SIZE,
            offs < PAGE_SIZE,
        ensures
            final(self)@ == old(self)@.update(offs as int, v),
    {
        self.data[offs] = v;
    }

    /// Copy `src` into the page at `offs`.
    fn write_bytes(&mut self, offs: usize, src: &[u8])
        requires
            old(self)@.len() == PAGE_SIZE,
            offs + src@.len() <= PAGE_SIZE,
        ensures
            final(self)@.len() == PAGE_SIZE,
            forall|j: int| offs <= j < offs + src@.len() ==> final(self)@[j] == src@[j - offs],
            forall|j: int|
                0 <= j < PAGE_SIZE && !(offs <= j < offs + src@.len()) ==> final(self)@[j] == old(
                    self,
                )@[j],
    {
        let len = src.len();
        let mut i: usize = 0;
        while i < len
            invariant
                self@.len() == PAGE_SIZE,
                offs + len <= PAGE_SIZE,
                len == src@.len(),
                0 <= i <= len,
                forall|j: int| offs <= j < offs + i ==> self@[j] == src@[j - offs],
                forall|j: int|
                    0 <= j < PAGE_SIZE && !(offs <= j < offs + i) ==> self@[j] == old(self)@[j],
            decreases len - i,
        {
            self.data[offs + i] = src[i];
            i = i + 1;
        }
    }

    /// Move `len` bytes from `src` down to `dst` (`dst <= src`); the regions
    /// may overlap.
    fn move_down(&mut self, src: usize, dst: usize, len: usize)
        requires
            old(self)@.len() == PAGE_SIZE,
            dst <= src,
            src + len <= PAGE_SIZE,
        ensures
            final(self)@.len() == PAGE_SIZE,
            forall|j: int| dst <= j < dst + len ==> final(self)@[j] == old(self)@[j + (src - dst)],
            forall|j: int|
                0 <= j < PAGE_SIZE && !(dst <= j < dst + len) ==> final(self)@[j] == old(self)@[j],
    {
        let mut i: usize = 0;
        while i < len
            invariant
                self@.len() == PAGE_SIZE,
                dst <= src,
                src + len <= PAGE_SIZE,
                0 <= i <= len,
                forall|j: int| dst <= j < dst + i ==> self@[j] == old(self)@[j + (src - dst)],
                forall|j: int|
                    0 <= j < PAGE_SIZE && !(dst <= j < dst + i) ==> self@[j] == old(self)@[j],
            decreases len - i,
        {
            let b = self.data[src + i];
            proof {
                assert(src + i >= dst + i);
            }
            self.data[dst + i] = b;
            i = i + 1;
        }
    }

    /// Move `len` bytes from `src` up to `dst` (`src <= dst`); the regions
    /// may overlap.
    fn move_up(&mut self, src: usize, dst: usize, len: usize)
        requires
            old(self)@.len() == PAGE_SIZE,
            src <= dst,
            dst + len <= PAGE_SIZE,
        ensures
            final(self)@.len() == PAGE_SIZE,
            forall|j: int| dst <= j < dst + len ==> final(self)@[j] == old(self)@[j - (dst - src)],
            forall|j: int|
                0 <= j < PAGE_SIZE && !(dst <= j < dst + len) ==> final(self)@[j] == old(self)@[j],
    {
        let mut i: usize = len;
        while i > 0
            invariant
                self@.len() == PAGE_SIZE,
                src <= dst,
                dst + len <= PAGE_SIZE,
                0 <= i <= len,
                forall|j: int| dst + i <= j < dst + len ==> self@[j] == old(self)@[j - (dst - src)],
                forall|j: int|
                    0 <= j < PAGE_SIZE && !(dst + i <= j < dst + len) ==> self@[j] == old(self)@[j],
            decreases i,
        {
            i = i - 1;
            let b = self.data[src + i];
            proof {
                assert(src + i < dst + i + 1);
            }
            self.data[dst + i] = b;
        }
    }

    /// Insert an item at slot `ip` if there is room, shifting later slots
    /// up by one; report `false`, leaving the page unchanged, if the item
    /// together with its offset slot does not fit.
    #[verifier::rlimit(100)]
    pub fn insert_item(&mut self, ip: ItemPointer, key: &Key, value: &[u8]) -> (r: bool)
        requires
            old(self).wf(),
            ip <= spec_n_items(old(self)@),
            key@.len() <= MAX_KEY_LEN,
            value@.len() <= PAGE_SIZE,
        ensures
            final(self)@.len() == PAGE_SIZE,
            r == ((spec_n_items(old(self)@) + 1) * 2 + spec_size(old(self)@) + 1 + key@.len()
                + value@.len() <= PAGE_SIZE - PAGE_HEADER_SIZE),
            !r ==> final(self)@ == old(self)@,
            r ==> final(self).wf(),
            r ==> spec_n_items(final(self)@) == spec_n_items(old(self)@) + 1,
            r ==> forall|j: int|
                0 <= j < ip ==> spec_item(final(self)@, j) == spec_item(old(self)@, j),
            r ==> spec_key(final(self)@, ip as int) == key@,
            r ==> spec_value(final(self)@, ip as int) == value@,
            r ==> spec_key_len(final(self)@, ip as int) == key@.len(),
            r ==> forall|j: int|
                ip < j <= spec_n_items(old(self)@) ==> spec_item(final(self)@, j) == spec_item(
                    old(self)@,
                    j - 1,
                ),
    {
        let ghost d0 = old(self)@;
        let ghost ng = spec_n_items(d0);
        let n = self.get_n_items();
        let size = self.get_size();
        let key_len = key.len();
        let item_len = 1 + key_len + value.len();
        if (n + 1) * 2 + size + item_len <= PAGE_SIZE - PAGE_HEADER_SIZE {
            let items_origin = PAGE_SIZE - size;
            proof {
                if n > 0 {
                    lemma_items_origin(d0, 0);
                    assert forall|t: int| 0 <= t < ng implies PAGE_SIZE - spec_size(d0)
                        <= spec_offs(d0, t) by {
                        lemma_items_origin(d0, t);
                    }
                }
            }
            // Shift the offset slots of items at `ip` and later to the next
            // slot, lowering each by the new item's length.
            let mut i: usize = n;
            while i > ip
                invariant
                    self@.len() == PAGE_SIZE,
                    ip <= i <= n,
                    n == ng,
                    d0 == old(self)@,
                    page_wf(d0),
                    size as int == spec_size(d0),
                    items_origin == PAGE_SIZE - size,
                    item_len == 1 + key@.len() + value@.len(),
                    (n + 1) * 2 + size + item_len <= PAGE_SIZE - PAGE_HEADER_SIZE,
                    forall|t: int| 0 <= t < ng ==> items_origin <= #[trigger] spec_offs(d0, t),
                    forall|t: int|
                        i < t <= ng ==> #[trigger] spec_offs(self@, t) == spec_offs(d0, t - 1)
                            - item_len,
                    forall|j: int|
                        0 <= j < PAGE_SIZE && !(PAGE_HEADER_SIZE + 2 * i + 2 <= j
                            < PAGE_HEADER_SIZE + 2 * n + 2) ==> self@[j] == d0[j],
                decreases i,
            {
                i = i - 1;
                proof {
                    assert(spec_offs(self@, i as int) == spec_offs(d0, i as int));
                    assert(items_origin <= spec_offs(d0, i as int));
                }
                let o = self.get_offs(i);
                let ghost dprev = self@;
                self.set_offs(i + 1, o - item_len);
                proof {
                    assert forall|t: int| i + 1 < t <= ng implies #[trigger] spec_offs(self@, t)
                        == spec_offs(dprev, t) by {
                        assert(self@[PAGE_HEADER_SIZE + 2 * t] == dprev[PAGE_HEADER_SIZE + 2 * t]);
                        assert(self@[PAGE_HEADER_SIZE + 2 * t + 1] == dprev[PAGE_HEADER_SIZE + 2 * t
                            + 1]);
                    }
                    assert forall|t: int| 0 <= t <= i implies #[trigger] spec_offs(self@, t)
                        == spec_offs(dprev, t) by {
                        assert(self@[PAGE_HEADER_SIZE + 2 * t] == dprev[PAGE_HEADER_SIZE + 2 * t]);
                        assert(self@[PAGE_HEADER_SIZE + 2 * t + 1] == dprev[PAGE_HEADER_SIZE + 2 * t
                            + 1]);
                    }
                }
            }
            let ghost dsh = self@;
            let item_offs = if ip != 0 {
                proof {
                    assert(spec_offs(self@, ip as int - 1) == spec_offs(d0, ip as int - 1));
                    assert(items_origin <= spec_offs(d0, ip as int - 1));
                }
                self.get_offs(ip - 1) - item_len
            } else {
                PAGE_SIZE - item_len
            };
            proof {
                assert(item_offs + item_len == spec_item_end(d0, ip as int));
                if ip > 0 {
                    assert(item_wf(d0, ip as int - 1));
                }
                if (ip as int) < ng {
                    lemma_items_origin(d0, ip as int);
                    assert(item_wf(d0, ip as int));
                    assert(items_origin <= spec_offs(d0, ip as int) < spec_item_end(d0, ip as int));
                }
                assert(items_origin <= item_offs + item_len <= PAGE_SIZE);
            }
            self.set_offs(ip, item_offs);
            let ghost d1 = self@;
            proof {
                // All offset slots are now in place; bytes of the item area
                // are still those of `d0`.
                assert forall|t: int| 0 <= t <= ng && t != ip implies #[trigger] spec_offs(d1, t)
                    == spec_offs(dsh, t) by {
                    assert(d1[PAGE_HEADER_SIZE + 2 * t] == dsh[PAGE_HEADER_SIZE + 2 * t]);
                    assert(d1[PAGE_HEADER_SIZE + 2 * t + 1] == dsh[PAGE_HEADER_SIZE + 2 * t + 1]);
                }
                assert(spec_offs(d1, ip as int) == item_offs);
                assert(forall|t: int|
                    0 <= t < ip ==> #[trigger] spec_offs(d1, t) == spec_offs(d0, t));
                assert(forall|t: int|
                    ip < t <= ng ==> #[trigger] spec_offs(d1, t) == spec_offs(d0, t - 1)
                        - item_len);
                assert(forall|j: int|
                    items_origin - item_len <= j < PAGE_SIZE ==> d1[j] == d0[j]);
            }
            // Slide the items below the insertion point down to make room.
            self.move_down(items_origin, items_origin - item_len, item_offs + item_len
                - items_origin);
            // Write the new item.
            self.set_byte(item_offs, key_len as u8);
            self.write_bytes(item_offs + 1, key.as_slice());
            self.write_bytes(item_offs + 1 + key_len, value);
            self.set_n_items(n + 1);
            proof {
                let d = self@;
                let ipi = ip as int;
                assert(spec_n_items(d) == ng + 1);
                // Offsets survive the byte moves: they live below the item
                // area.
                assert forall|t: int| 0 <= t <= ng implies #[trigger] spec_offs(d, t) == spec_offs(
                    d1,
                    t,
                ) by {
                    assert(PAGE_HEADER_SIZE + 2 * t + 2 <= PAGE_HEADER_SIZE + 2 * (ng + 1));
                    assert(PAGE_HEADER_SIZE + 2 * (ng + 1) <= items_origin - item_len);
                }
                // Bytes of items before `ip` (at or above `item_offs +
                // item_len`) are unchanged.
                assert forall|j: int| item_offs + item_len <= j < PAGE_SIZE implies d[j] == d0[
                    j
                ] by {}
                // Bytes moved down by `item_len`.
                assert forall|j: int|
                    items_origin - item_len <= j < item_offs implies d[j] == d0[j + item_len] by {}
                // The new item's bytes.
                assert(d[item_offs as int] == key_len as u8);
                assert(forall|j: int|
                    0 <= j < key@.len() ==> d[item_offs + 1 + j] == key@[j]);
                assert(forall|j: int|
                    0 <= j < value@.len() ==> d[item_offs + 1 + key_len + j] == value@[j]);
                lemma_insert_item_post(
                    d0,
                    d,
                    ipi,
                    item_offs as int,
                    item_len as int,
                    items_origin as int,
                    key@,
                    value@,
                );
            }
            true
        } else {
            proof {
                assert(self@ == d0);
            }
            false
        }
    }


    /// Split the page: the first items (smallest keys) move to `new_page`,
    /// the rest stay.  When the insertion point `ip` is the append position,
    /// everything moves, leaving this page empty; otherwise the split index
    /// is chosen so that the moved items hold about half of the used bytes.
    /// Returns the index of the last moved item.
    #[verifier::rlimit(100)]
    pub fn split(&mut self, new_page: &mut PageData, ip: ItemPointer) -> (r: ItemPointer)
        requires
            old(self).wf(),
            1 <= spec_n_items(old(self)@),
            ip <= spec_n_items(old(self)@),
            old(new_page)@.len() == PAGE_SIZE,
        ensures
            final(self)@.len() == PAGE_SIZE,
            final(new_page)@.len() == PAGE_SIZE,
            final(self).wf(),
            final(new_page).wf(),
            r < spec_n_items(old(self)@),
            spec_n_items(final(new_page)@) == r + 1,
            spec_n_items(final(self)@) == spec_n_items(old(self)@) - r - 1,
            forall|t: int|
                0 <= t <= r ==> #[trigger] spec_item(final(new_page)@, t) == spec_item(
                    old(self)@,
                    t,
                ),
            forall|t: int|
                0 <= t < spec_n_items(old(self)@) - r - 1 ==> #[trigger] spec_item(
                    final(self)@,
                    t,
                ) == spec_item(old(self)@, t + r + 1),
            ip == spec_n_items(old(self)@) ==> r == spec_n_items(old(self)@) - 1,
            ip < spec_n_items(old(self)@) ==> spec_offs(old(self)@, r as int) <= PAGE_SIZE
                - spec_size(old(self)@) / 2 && (forall|j: int|
                0 <= j < r ==> spec_offs(old(self)@, j) > PAGE_SIZE - spec_size(old(self)@) / 2),
    {
        let ghost d0 = old(self)@;
        let ghost ng = spec_n_items(d0);
        let n_items = self.get_n_items();
        let size = self.get_size();
        let mut r: ItemPointer = n_items;

        if ip == r {
            // Move everything: best for sequential inserts, the new right
            // sibling starts empty and fills up densely.
            r = r - 1;
        } else {
            // Find the first item whose offset is at or below the byte
            // median, so the moved prefix holds about half of the bytes.
            let margin = PAGE_SIZE - size / 2;
            proof {
                assert(item_wf(d0, ng - 1));
                assert(spec_offs(d0, ng - 1) == PAGE_SIZE - size);
                assert(spec_offs(d0, ng - 1) <= margin);
            }
            let mut l: ItemPointer = 0;
            while l < r
                invariant
                    self@ == d0,
                    page_wf(d0),
                    n_items == ng,
                    ng == spec_n_items(d0),
                    n_items <= 0xffff,
                    ng >= 1,
                    0 <= l <= r <= n_items,
                    margin == PAGE_SIZE - spec_size(d0) / 2,
                    spec_offs(d0, ng - 1) <= margin,
                    forall|j: int| 0 <= j < l ==> spec_offs(d0, j) > margin,
                    forall|j: int| r <= j < ng ==> spec_offs(d0, j) <= margin,
                decreases r - l,
            {
                let m = (l + r) / 2;
                let o = self.get_offs(m);
                if o > margin {
                    proof {
                        assert forall|j: int| 0 <= j < m + 1 implies spec_offs(d0, j) > margin by {
                            if j <= m {
                                lemma_offs_mono(d0, j, m as int);
                            }
                        }
                    }
                    l = m + 1;
                } else {
                    proof {
                        assert forall|j: int| m <= j < ng implies spec_offs(d0, j) <= margin by {
                            lemma_offs_mono(d0, m as int, j);
                        }
                    }
                    r = m;
                }
            }
            proof {
                if r == ng {
                    assert(spec_offs(d0, ng - 1) > margin);
                    assert(false);
                }
            }
        }
        proof {
            assert(r < ng);
            assert(item_wf(d0, r as int));
            lemma_items_origin(d0, r as int);
            assert forall|t: int| 0 <= t < ng implies PAGE_SIZE - spec_size(d0)
                <= #[trigger] spec_offs(d0, t) by {
                lemma_items_origin(d0, t);
            }
        }
        let moved_size = PAGE_SIZE - self.get_offs(r);
        let items_origin = PAGE_SIZE - size;

        // Copy the moved item pointers and the moved items to the new page.
        new_page.copy_range_from(self, PAGE_HEADER_SIZE, (r + 1) * 2);
        new_page.copy_range_from(self, PAGE_SIZE - moved_size, moved_size);

        // Shift the offsets of the remaining items down by `r + 1` slots.
        let ghost dmid = self@;
        let mut i: usize = r + 1;
        while i < n_items
            invariant
                self@.len() == PAGE_SIZE,
                r + 1 <= i <= n_items,
                n_items == ng,
                ng == spec_n_items(d0),
                d0 == old(self)@,
                page_wf(d0),
                r < ng,
                size as int == spec_size(d0),
                items_origin == PAGE_SIZE - size,
                PAGE_HEADER_SIZE + 2 * ng <= items_origin,
                moved_size as int == PAGE_SIZE - spec_offs(d0, r as int),
                forall|t: int| 0 <= t < ng ==> items_origin <= #[trigger] spec_offs(d0, t),
                forall|t: int|
                    0 <= t < i - r - 1 ==> #[trigger] spec_offs(self@, t) == spec_offs(
                        d0,
                        t + r + 1,
                    ) + moved_size,
                forall|t: int|
                    i <= t < ng ==> #[trigger] spec_offs(self@, t) == spec_offs(d0, t),
                forall|j: int|
                    0 <= j < PAGE_SIZE && !(PAGE_HEADER_SIZE <= j < PAGE_HEADER_SIZE + 2 * (ng - r
                        - 1)) ==> self@[j] == d0[j],
            decreases n_items - i,
        {
            proof {
                assert(spec_offs(self@, i as int) == spec_offs(d0, i as int));
                assert(item_wf(d0, i as int));
                lemma_offs_mono(d0, r as int, i as int);
                assert(spec_item_end(d0, i as int) <= spec_offs(d0, r as int));
                assert(spec_offs(d0, i as int) < spec_item_end(d0, i as int));
                assert(spec_offs(d0, i as int) + moved_size < PAGE_SIZE);
            }
            let o = self.get_offs(i);
            let ghost dprev = self@;
            self.set_offs(i - r - 1, o + moved_size);
            proof {
                assert forall|t: int| 0 <= t < ng && t != i - r - 1 implies #[trigger] spec_offs(
                    self@,
                    t,
                ) == spec_offs(dprev, t) by {
                    assert(self@[PAGE_HEADER_SIZE + 2 * t] == dprev[PAGE_HEADER_SIZE + 2 * t]);
                    assert(self@[PAGE_HEADER_SIZE + 2 * t + 1] == dprev[PAGE_HEADER_SIZE + 2 * t
                        + 1]);
                }
            }
            i = i + 1;
        }
        // Slide the remaining items up over the moved ones.
        let ghost dsh = self@;
        self.move_up(items_origin, items_origin + moved_size, PAGE_SIZE - moved_size
            - items_origin);
        new_page.set_n_items(r + 1);
        self.set_n_items(n_items - r - 1);
        proof {
            let d = self@;
            let dn = new_page@;
            let ki = r as int + 1;
            assert(spec_n_items(d) == ng - ki);
            assert(spec_n_items(dn) == ki);
            assert forall|t: int| 0 <= t < ng - ki implies #[trigger] spec_offs(d, t) == spec_offs(
                dsh,
                t,
            ) by {
                assert(PAGE_HEADER_SIZE + 2 * t + 2 <= PAGE_HEADER_SIZE + 2 * ng);
                assert(d[PAGE_HEADER_SIZE + 2 * t] == dsh[PAGE_HEADER_SIZE + 2 * t]);
                assert(d[PAGE_HEADER_SIZE + 2 * t + 1] == dsh[PAGE_HEADER_SIZE + 2 * t + 1]);
            }
            assert(forall|t: int|
                0 <= t < ng - ki ==> #[trigger] spec_offs(d, t) == spec_offs(d0, t + ki)
                    + moved_size);
            assert forall|j: int|
                items_origin + moved_size <= j < PAGE_SIZE implies d[j] == d0[j - moved_size] by {
                assert(PAGE_SIZE - moved_size == spec_offs(d0, r as int));
            }
            lemma_split_self_post(d0, d, ki, moved_size as int, items_origin as int);
            // The new page: its header range and item range carry `d0`.
            assert forall|j: int|
                PAGE_HEADER_SIZE <= j < PAGE_HEADER_SIZE + 2 * ki implies dn[j] == d0[j] by {}
            assert forall|j: int| spec_offs(d0, r as int) <= j < PAGE_SIZE implies dn[j] == d0[
                j
            ] by {}
            lemma_split_new_post(d0, dn, ki);
        }
        r
    }

    /// Copy `len` bytes at offset `offs` of `other` to the same offset here.
    fn copy_range_from(&mut self, other: &PageData, offs: usize, len: usize)
        requires
            old(self)@.len() == PAGE_SIZE,
            other@.len() == PAGE_SIZE,
            offs + len <= PAGE_SIZE,
        ensures
            final(self)@.len() == PAGE_SIZE,
            forall|j: int| offs <= j < offs + len ==> final(self)@[j] == other@[j],
            forall|j: int|
                0 <= j < PAGE_SIZE && !(offs <= j < offs + len) ==> final(self)@[j] == old(
                    self,
                )@[j],
    {
        let mut i: usize = 0;
        while i < len
            invariant
                self@.len() == PAGE_SIZE,
                other@.len() == PAGE_SIZE,
                offs + len <= PAGE_SIZE,
                0 <= i <= len,
                forall|j: int| offs <= j < offs + i ==> self@[j] == other@[j],
                forall|j: int|
                    0 <= j < PAGE_SIZE && !(offs <= j < offs + i) ==> self@[j] == old(self)@[j],
            decreases len - i,
        {
            let b = other.data[offs + i];
            self.data[offs + i] = b;
            i = i + 1;
        }
    }

    /// Remove item `ip`.  On an internal page, removing the last slot
    /// promotes the removed slot's key onto the preceding slot, which keeps
    /// its own child, so the page stays right-unbounded.
    #[verifier::rlimit(100)]
    pub fn remove_key(&mut self, ip: ItemPointer, leaf: bool)
        requires
            old(self).wf(),
            ip < spec_n_items(old(self)@),
        ensures
            final(self)@.len() == PAGE_SIZE,
            final(self).wf(),
            spec_n_items(final(self)@) == spec_n_items(old(self)@) - 1,
            (!leaf && spec_n_items(old(self)@) > 1 && ip + 1 == spec_n_items(old(self)@)) ==> {
                &&& forall|t: int|
                    0 <= t < ip - 1 ==> spec_item(final(self)@, t) == spec_item(old(self)@, t)
                &&& spec_key(final(self)@, ip - 1) == spec_key(old(self)@, ip as int)
                &&& spec_key_len(final(self)@, ip - 1) == spec_key_len(old(self)@, ip as int)
                &&& spec_value(final(self)@, ip - 1) == spec_value(old(self)@, ip - 1)
            },
            !(!leaf && spec_n_items(old(self)@) > 1 && ip + 1 == spec_n_items(old(self)@)) ==> {
                &&& forall|t: int|
                    0 <= t < ip ==> spec_item(final(self)@, t) == spec_item(old(self)@, t)
                &&& forall|t: int|
                    ip <= t < spec_n_items(old(self)@) - 1 ==> spec_item(final(self)@, t)
                        == spec_item(old(self)@, t + 1)
            },
    {
        let ghost d0 = old(self)@;
        let ghost ng = spec_n_items(d0);
        let n = self.get_n_items();
        let size = self.get_size();
        let (item_offs, item_len) = self.get_item_offs_len(ip);
        proof {
            assert(item_wf(d0, ip as int));
            lemma_items_origin(d0, ip as int);
        }
        if !leaf && n > 1 && ip + 1 == n {
            // Promote: the preceding slot takes the removed slot's key and
            // keeps its own value.
            proof {
                assert(item_wf(d0, ip as int - 1));
                lemma_items_origin(d0, ip as int - 1);
            }
            let prev_offs = item_offs + item_len;
            let key_len = self.data[item_offs] as usize;
            let prev_key_len = self.data[prev_offs] as usize;
            proof {
                assert(key_len == spec_key_len(d0, ip as int));
                assert(prev_offs == spec_offs(d0, ip as int - 1));
                assert(prev_key_len == spec_key_len(d0, ip as int - 1));
                assert(item_offs + item_len >= item_offs + 1 + key_len);
            }
            let new_offs = prev_offs + prev_key_len - key_len;
            proof {
                assert(new_offs >= item_offs + 1 + prev_key_len);
                assert(new_offs + 1 + key_len == prev_offs + 1 + prev_key_len);
                assert(prev_offs + 1 + prev_key_len <= spec_item_end(d0, ip as int - 1));
            }
            let ghost key_seq = spec_key(d0, ip as int);
            proof {
                assert(key_seq.len() == key_len);
                assert(forall|j: int|
                    0 <= j < key_len ==> key_seq[j] == d0[item_offs + 1 + j]);
            }
            self.move_up(item_offs + 1, new_offs + 1, key_len);
            self.set_byte(new_offs, key_len as u8);
            self.set_offs(ip - 1, new_offs);
            self.set_n_items(n - 1);
            proof {
                let d = self@;
                let ipi = ip as int;
                let prev_end = spec_item_end(d0, ipi - 1);
                assert(spec_n_items(d) == ng - 1);
                // Offsets of slots other than `ip - 1` are unchanged.
                assert forall|t: int| 0 <= t < ng && t != ipi - 1 implies #[trigger] spec_offs(
                    d,
                    t,
                ) == spec_offs(d0, t) by {
                    assert(item_wf(d0, t));
                    assert(d[PAGE_HEADER_SIZE + 2 * t] == d0[PAGE_HEADER_SIZE + 2 * t]);
                    assert(d[PAGE_HEADER_SIZE + 2 * t + 1] == d0[PAGE_HEADER_SIZE + 2 * t + 1]);
                }
                assert(spec_offs(d, ipi - 1) == new_offs);
                // Bytes outside the rewritten key region are unchanged.
                assert(forall|j: int|
                    new_offs + 1 + key_len <= j < PAGE_SIZE ==> d[j] == d0[j]);
                // The promoted item.
                assert(spec_item_end(d, ipi - 1) == prev_end);
                assert(spec_item_len(d, ipi - 1) == prev_end - new_offs);
                assert(d[new_offs as int] == key_len as u8);
                assert(spec_key_len(d, ipi - 1) == key_len) by {
                    assert(spec_item(d, ipi - 1)[0] == d[new_offs as int]);
                }
                assert(spec_key(d, ipi - 1) =~= key_seq) by {
                    assert(forall|j: int|
                        0 <= j < key_len ==> #[trigger] spec_key(d, ipi - 1)[j] == d[new_offs + 1
                            + j]);
                    assert(forall|j: int|
                        0 <= j < key_len ==> #[trigger] d[new_offs + 1 + j] == d0[item_offs + 1
                            + j]);
                }
                assert(spec_value(d, ipi - 1) =~= spec_value(d0, ipi - 1)) by {
                    assert(forall|j: int|
                        0 <= j < prev_end - (prev_offs + 1 + prev_key_len) ==> #[trigger] spec_value(
                            d,
                            ipi - 1,
                        )[j] == d[prev_offs + 1 + prev_key_len + j]);
                    assert(forall|j: int|
                        0 <= j < prev_end - (prev_offs + 1 + prev_key_len) ==> #[trigger] spec_value(
                            d0,
                            ipi - 1,
                        )[j] == d0[prev_offs + 1 + prev_key_len + j]);
                }
                // Items before `ip - 1` are unchanged.
                assert forall|t: int| 0 <= t < ipi - 1 implies #[trigger] spec_item(d, t)
                    == spec_item(d0, t) by {
                    lemma_offs_mono(d0, t, ipi - 1);
                    assert(item_wf(d0, t));
                    assert(spec_offs(d0, t) >= prev_end);
                    assert(spec_offs(d, t) == spec_offs(d0, t));
                    assert(spec_item_end(d, t) == spec_item_end(d0, t));
                    assert forall|x: int|
                        0 <= x < spec_item_len(d0, t) implies spec_item(d, t)[x] == spec_item(
                        d0,
                        t,
                    )[x] by {
                        assert(spec_item(d, t)[x] == d[spec_offs(d0, t) + x]);
                        assert(spec_item(d0, t)[x] == d0[spec_offs(d0, t) + x]);
                        assert(spec_offs(d0, t) + x >= prev_end >= new_offs + 1 + key_len);
                    }
                    assert(spec_item(d, t) =~= spec_item(d0, t));
                }
                // Well-formedness.
                assert forall|t: int| 0 <= t < ng - 1 implies item_wf(d, t) by {
                    if t < ipi - 1 {
                        assert(item_wf(d0, t));
                        assert(spec_item(d, t) == spec_item(d0, t));
                        assert(spec_key_len(d, t) == spec_key_len(d0, t));
                        assert(spec_item_len(d, t) == spec_item_len(d0, t)) by {
                            assert(spec_item(d, t).len() == spec_item(d0, t).len());
                        }
                    } else {
                        assert(t == ipi - 1);
                        assert(spec_offs(d, t) == new_offs >= item_offs + 1);
                        assert(item_offs >= PAGE_HEADER_SIZE + 2 * ng);
                        assert(1 + key_len <= spec_item_len(d, t)) by {
                            assert(spec_item_len(d, t) == prev_end - new_offs);
                            assert(prev_end >= prev_offs + 1 + prev_key_len == new_offs + 1
                                + key_len);
                        }
                    }
                }
                assert(page_wf(d));
            }
        } else {
            // Compact: shift the offset slots down and slide the item area
            // up over the removed item.
            let items_origin = PAGE_SIZE - size;
            proof {
                assert(item_wf(d0, ng - 1));
                assert(items_origin as int == spec_offs(d0, ng - 1));
                assert(PAGE_HEADER_SIZE + 2 * ng <= items_origin);
                assert forall|t: int| 0 <= t < ng implies items_origin <= #[trigger] spec_offs(
                    d0,
                    t,
                ) by {
                    lemma_items_origin(d0, t);
                }
            }
            let mut i: usize = ip + 1;
            while i < n
                invariant
                    self@.len() == PAGE_SIZE,
                    ip + 1 <= i <= n,
                    n == ng,
                    ng == spec_n_items(d0),
                    d0 == old(self)@,
                    page_wf(d0),
                    size as int == spec_size(d0),
                    items_origin == PAGE_SIZE - size,
                    PAGE_HEADER_SIZE + 2 * ng <= items_origin,
                    item_offs as int == spec_offs(d0, ip as int),
                    item_len as int == spec_item_len(d0, ip as int),
                    item_offs + item_len == spec_item_end(d0, ip as int),
                    spec_item_end(d0, ip as int) <= PAGE_SIZE,
                    forall|t: int| 0 <= t < ng ==> items_origin <= #[trigger] spec_offs(d0, t),
                    forall|t: int|
                        ip <= t < i - 1 ==> #[trigger] spec_offs(self@, t) == spec_offs(d0, t + 1)
                            + item_len,
                    forall|t: int|
                        i <= t < ng ==> #[trigger] spec_offs(self@, t) == spec_offs(d0, t),
                    forall|t: int| 0 <= t < ip ==> #[trigger] spec_offs(self@, t) == spec_offs(
                        d0,
                        t,
                    ),
                    forall|j: int|
                        0 <= j < PAGE_SIZE && !(PAGE_HEADER_SIZE + 2 * ip <= j < PAGE_HEADER_SIZE
                            + 2 * (n - 1)) ==> self@[j] == d0[j],
                decreases n - i,
            {
                proof {
                    assert(spec_offs(self@, i as int) == spec_offs(d0, i as int));
                    lemma_offs_mono(d0, ip as int, i as int);
                    assert(spec_offs(d0, i as int) + item_len <= spec_item_end(d0, ip as int));
                }
                let o = self.get_offs(i);
                let ghost dprev = self@;
                self.set_offs(i - 1, o + item_len);
                proof {
                    assert forall|t: int| 0 <= t < ng && t != i - 1 implies #[trigger] spec_offs(
                        self@,
                        t,
                    ) == spec_offs(dprev, t) by {
                        assert(self@[PAGE_HEADER_SIZE + 2 * t] == dprev[PAGE_HEADER_SIZE + 2 * t]);
                        assert(self@[PAGE_HEADER_SIZE + 2 * t + 1] == dprev[PAGE_HEADER_SIZE + 2 * t
                            + 1]);
                    }
                }
                i = i + 1;
            }
            let ghost dsh = self@;
            self.move_up(items_origin, items_origin + item_len, item_offs - items_origin);
            self.set_n_items(n - 1);
            proof {
                let d = self@;
                let ipi = ip as int;
                assert(spec_n_items(d) == ng - 1);
                assert forall|t: int| 0 <= t < ng - 1 implies #[trigger] spec_offs(d, t)
                    == spec_offs(dsh, t) by {
                    assert(PAGE_HEADER_SIZE + 2 * t + 2 <= PAGE_HEADER_SIZE + 2 * ng);
                    assert(d[PAGE_HEADER_SIZE + 2 * t] == dsh[PAGE_HEADER_SIZE + 2 * t]);
                    assert(d[PAGE_HEADER_SIZE + 2 * t + 1] == dsh[PAGE_HEADER_SIZE + 2 * t + 1]);
                }
                assert(forall|t: int|
                    0 <= t < ip ==> #[trigger] spec_offs(d, t) == spec_offs(d0, t));
                assert(forall|t: int|
                    ip <= t < ng - 1 ==> #[trigger] spec_offs(d, t) == spec_offs(d0, t + 1)
                        + item_len);
                lemma_remove_compact_post(
                    d0,
                    d,
                    ipi,
                    item_offs as int,
                    item_len as int,
                    items_origin as int,
                );
            }
        }
    }
}

/// Items below the removal point keep their bytes; items above shift up by
/// one slot after the compacting removal.
#[verifier::rlimit(100)]
proof fn lemma_remove_compact_items(
    d0: Seq<u8>,
    d: Seq<u8>,
    ip: int,
    item_offs: int,
    item_len: int,
    items_origin: int,
)
    requires
        page_wf(d0),
        0 <= ip < spec_n_items(d0),
        items_origin == PAGE_SIZE - spec_size(d0),
        item_offs == spec_offs(d0, ip),
        item_len == spec_item_len(d0, ip),
        d.len() == PAGE_SIZE,
        spec_n_items(d) == spec_n_items(d0) - 1,
        forall|t: int| 0 <= t < ip ==> #[trigger] spec_offs(d, t) == spec_offs(d0, t),
        forall|t: int|
            ip <= t < spec_n_items(d0) - 1 ==> #[trigger] spec_offs(d, t) == spec_offs(d0, t + 1)
                + item_len,
        forall|j: int|
            items_origin + item_len <= j < item_offs + item_len ==> d[j] == d0[j - item_len],
        forall|j: int| item_offs + item_len <= j < PAGE_SIZE ==> d[j] == d0[j],
    ensures
        forall|t: int| 0 <= t < ip ==> #[trigger] spec_item(d, t) == spec_item(d0, t),
        forall|t: int|
            ip <= t < spec_n_items(d0) - 1 ==> #[trigger] spec_item(d, t) == spec_item(d0, t + 1),
{
    let ng = spec_n_items(d0);
    assert(item_wf(d0, ip));
    assert(item_wf(d0, ng - 1));
    assert(items_origin == spec_offs(d0, ng - 1));
    assert(PAGE_HEADER_SIZE + 2 * ng <= items_origin);
    assert forall|t: int| 0 <= t < ng implies items_origin <= #[trigger] spec_offs(d0, t)
        && spec_item_end(d0, t) <= PAGE_SIZE by {
        lemma_items_origin(d0, t);
    }
    // Items before the removal point are unchanged.
    assert forall|t: int| 0 <= t < ip implies #[trigger] spec_item(d, t) == spec_item(d0, t) by {
        lemma_offs_mono(d0, t, ip);
        assert(item_wf(d0, t));
        assert(spec_offs(d0, t) >= spec_item_end(d0, ip) == item_offs + item_len);
        assert(spec_offs(d, t) == spec_offs(d0, t));
        assert(spec_item_end(d, t) == spec_item_end(d0, t));
        assert forall|x: int|
            0 <= x < spec_item_len(d0, t) implies spec_item(d, t)[x] == spec_item(d0, t)[x] by {
            assert(spec_item(d, t)[x] == d[spec_offs(d0, t) + x]);
            assert(spec_item(d0, t)[x] == d0[spec_offs(d0, t) + x]);
            assert(spec_offs(d0, t) + x >= item_offs + item_len);
        }
        assert(spec_item(d, t) =~= spec_item(d0, t));
    }
    // Items after the removal point shift up by one slot.
    assert forall|t: int| ip <= t < ng - 1 implies #[trigger] spec_item(d, t) == spec_item(
        d0,
        t + 1,
    ) by {
        assert(item_wf(d0, t + 1));
        assert(spec_offs(d, t) == spec_offs(d0, t + 1) + item_len);
        if t == ip {
            assert(spec_item_end(d, t) == (if ip == 0 {
                PAGE_SIZE as int
            } else {
                spec_offs(d0, ip - 1)
            }));
            assert(spec_item_end(d0, t + 1) == spec_offs(d0, ip) == item_offs);
        } else {
            assert(spec_item_end(d, t) == spec_offs(d0, t) + item_len);
            assert(spec_item_end(d0, t + 1) == spec_offs(d0, t));
        }
        lemma_offs_mono(d0, ip, t + 1);
        assert forall|x: int|
            0 <= x < spec_item_len(d0, t + 1) implies spec_item(d, t)[x] == spec_item(
            d0,
            t + 1,
        )[x] by {
            assert(spec_item(d, t)[x] == d[spec_offs(d0, t + 1) + item_len + x]);
            assert(spec_item(d0, t + 1)[x] == d0[spec_offs(d0, t + 1) + x]);
            assert(spec_offs(d0, t + 1) + x < spec_item_end(d0, t + 1) <= item_offs);
            assert(items_origin + item_len <= spec_offs(d0, t + 1) + item_len + x < item_offs
                + item_len);
        }
        assert(spec_item(d, t) =~= spec_item(d0, t + 1));
    }
}

/// The compacted page is well formed, given the item mapping.
#[verifier::rlimit(100)]
proof fn lemma_remove_compact_wf(
    d0: Seq<u8>,
    d: Seq<u8>,
    ip: int,
    item_offs: int,
    item_len: int,
    items_origin: int,
)
    requires
        page_wf(d0),
        0 <= ip < spec_n_items(d0),
        items_origin == PAGE_SIZE - spec_size(d0),
        item_offs == spec_offs(d0, ip),
        item_len == spec_item_len(d0, ip),
        d.len() == PAGE_SIZE,
        spec_n_items(d) == spec_n_items(d0) - 1,
        forall|t: int| 0 <= t < ip ==> #[trigger] spec_offs(d, t) == spec_offs(d0, t),
        forall|t: int|
            ip <= t < spec_n_items(d0) - 1 ==> #[trigger] spec_offs(d, t) == spec_offs(d0, t + 1)
                + item_len,
        forall|j: int|
            items_origin + item_len <= j < item_offs + item_len ==> d[j] == d0[j - item_len],
        forall|j: int| item_offs + item_len <= j < PAGE_SIZE ==> d[j] == d0[j],
        forall|t: int| 0 <= t < ip ==> #[trigger] spec_item(d, t) == spec_item(d0, t),
        forall|t: int|
            ip <= t < spec_n_items(d0) - 1 ==> #[trigger] spec_item(d, t) == spec_item(d0, t + 1),
    ensures
        page_wf(d),
{
    let ng = spec_n_items(d0);
    assert(item_wf(d0, ip));
    assert(item_wf(d0, ng - 1));
    assert(items_origin == spec_offs(d0, ng - 1));
    assert(PAGE_HEADER_SIZE + 2 * ng <= items_origin);
    assert forall|t: int| 0 <= t < ng - 1 implies item_wf(d, t) by {
        if t < ip {
            assert(item_wf(d0, t));
            assert(spec_offs(d, t) == spec_offs(d0, t));
            if t > 0 {
                assert(spec_offs(d, t - 1) == spec_offs(d0, t - 1));
            }
            assert(spec_item_end(d, t) == spec_item_end(d0, t));
            assert(spec_item(d, t) == spec_item(d0, t));
            assert(spec_key_len(d, t) == spec_key_len(d0, t));
            assert(item_wf(d, t));
        } else {
            assert(item_wf(d0, t + 1));
            lemma_offs_mono(d0, ip, t + 1);
            lemma_items_origin(d0, t + 1);
            assert(spec_offs(d, t) == spec_offs(d0, t + 1) + item_len);
            if t == ip {
                if ip > 0 {
                    assert(spec_offs(d, t - 1) == spec_offs(d0, ip - 1));
                }
                assert(spec_item_end(d, t) == spec_item_end(d0, ip));
                assert(spec_item_end(d0, ip) == spec_offs(d0, ip) + item_len);
                assert(spec_item_end(d0, t + 1) == spec_offs(d0, ip));
                assert(spec_item_end(d, t) == spec_item_end(d0, t + 1) + item_len);
            } else {
                assert(spec_offs(d, t - 1) == spec_offs(d0, t) + item_len);
                assert(spec_item_end(d, t) == spec_item_end(d0, t + 1) + item_len);
            }
            assert(spec_item_end(d0, t + 1) + item_len <= spec_item_end(d0, ip));
            assert(spec_item_end(d, t) <= PAGE_SIZE);
            assert(spec_item(d, t) == spec_item(d0, t + 1));
            assert(spec_key_len(d, t) == spec_key_len(d0, t + 1));
            assert(spec_item_len(d, t) == spec_item_len(d0, t + 1));
            assert(item_wf(d, t));
        }
    }
    assert(page_wf(d));
}

/// After the compacting removal has shifted the offsets and slid the item
/// area up, the page is well formed and the items map as a removal at `ip`.
proof fn lemma_remove_compact_post(
    d0: Seq<u8>,
    d: Seq<u8>,
    ip: int,
    item_offs: int,
    item_len: int,
    items_origin: int,
)
    requires
        page_wf(d0),
        0 <= ip < spec_n_items(d0),
        items_origin == PAGE_SIZE - spec_size(d0),
        item_offs == spec_offs(d0, ip),
        item_len == spec_item_len(d0, ip),
        d.len() == PAGE_SIZE,
        spec_n_items(d) == spec_n_items(d0) - 1,
        forall|t: int| 0 <= t < ip ==> #[trigger] spec_offs(d, t) == spec_offs(d0, t),
        forall|t: int|
            ip <= t < spec_n_items(d0) - 1 ==> #[trigger] spec_offs(d, t) == spec_offs(d0, t + 1)
                + item_len,
        forall|j: int|
            items_origin + item_len <= j < item_offs + item_len ==> d[j] == d0[j - item_len],
        forall|j: int| item_offs + item_len <= j < PAGE_SIZE ==> d[j] == d0[j],
    ensures
        page_wf(d),
        forall|t: int| 0 <= t < ip ==> #[trigger] spec_item(d, t) == spec_item(d0, t),
        forall|t: int|
            ip <= t < spec_n_items(d0) - 1 ==> #[trigger] spec_item(d, t) == spec_item(d0, t + 1),
{
    lemma_remove_compact_items(d0, d, ip, item_offs, item_len, items_origin);
    lemma_remove_compact_wf(d0, d, ip, item_offs, item_len, items_origin);
}

/// After the first `k` items moved away and the rest slid up, the page is
/// well formed and its items are those of `d0` shifted down by `k` slots.
#[verifier::rlimit(100)]
proof fn lemma_split_self_post(d0: Seq<u8>, d: Seq<u8>, k: int, moved: int, items_origin: int)
    requires
        page_wf(d0),
        1 <= k <= spec_n_items(d0),
        moved == PAGE_SIZE - spec_offs(d0, k - 1),
        items_origin == PAGE_SIZE - spec_size(d0),
        d.len() == PAGE_SIZE,
        spec_n_items(d) == spec_n_items(d0) - k,
        forall|t: int|
            0 <= t < spec_n_items(d0) - k ==> #[trigger] spec_offs(d, t) == spec_offs(d0, t + k)
                + moved,
        forall|j: int| items_origin + moved <= j < PAGE_SIZE ==> d[j] == d0[j - moved],
    ensures
        page_wf(d),
        forall|t: int|
            0 <= t < spec_n_items(d0) - k ==> #[trigger] spec_item(d, t) == spec_item(d0, t + k),
{
    let ng = spec_n_items(d0);
    assert(item_wf(d0, k - 1));
    assert(item_wf(d0, ng - 1));
    assert(items_origin == spec_offs(d0, ng - 1));
    assert(PAGE_HEADER_SIZE + 2 * ng <= items_origin);
    assert forall|t: int| 0 <= t < ng - k implies #[trigger] spec_item_end(d, t) == spec_item_end(
        d0,
        t + k,
    ) + moved && spec_item_end(d, t) <= PAGE_SIZE by {
        assert(item_wf(d0, t + k));
        if t == 0 {
            assert(spec_item_end(d0, k) == spec_offs(d0, k - 1));
            assert(spec_item_end(d, 0) == PAGE_SIZE as int);
        } else {
            assert(spec_offs(d, t - 1) == spec_offs(d0, t + k - 1) + moved);
        }
        lemma_offs_mono(d0, k - 1, t + k);
        assert(spec_item_end(d0, t + k) <= spec_offs(d0, k - 1));
    }
    assert forall|t: int| 0 <= t < ng - k implies #[trigger] spec_item(d, t) == spec_item(
        d0,
        t + k,
    ) by {
        assert(item_wf(d0, t + k));
        lemma_items_origin(d0, t + k);
        assert forall|x: int|
            0 <= x < spec_item_len(d0, t + k) implies spec_item(d, t)[x] == spec_item(
            d0,
            t + k,
        )[x] by {
            assert(spec_item(d, t)[x] == d[spec_offs(d0, t + k) + moved + x]);
            assert(spec_item(d0, t + k)[x] == d0[spec_offs(d0, t + k) + x]);
            assert(items_origin + moved <= spec_offs(d0, t + k) + moved + x < PAGE_SIZE);
        }
        assert(spec_item(d, t) =~= spec_item(d0, t + k));
    }
    assert forall|t: int| 0 <= t < ng - k implies item_wf(d, t) by {
        assert(item_wf(d0, t + k));
        lemma_items_origin(d0, t + k);
        assert(spec_offs(d, t) == spec_offs(d0, t + k) + moved >= items_origin + moved);
        assert(spec_item(d, t) == spec_item(d0, t + k));
        assert(spec_key_len(d, t) == spec_key_len(d0, t + k));
        assert(spec_item_len(d, t) == spec_item_len(d0, t + k));
        assert(item_wf(d, t));
    }
    assert(page_wf(d));
}

/// The new page produced by a split holds the first `k` items of `d0`,
/// byte for byte.
#[verifier::rlimit(100)]
proof fn lemma_split_new_post(d0: Seq<u8>, d: Seq<u8>, k: int)
    requires
        page_wf(d0),
        1 <= k <= spec_n_items(d0),
        d.len() == PAGE_SIZE,
        spec_n_items(d) == k,
        forall|j: int| PAGE_HEADER_SIZE <= j < PAGE_HEADER_SIZE + 2 * k ==> d[j] == d0[j],
        forall|j: int| spec_offs(d0, k - 1) <= j < PAGE_SIZE ==> d[j] == d0[j],
    ensures
        page_wf(d),
        forall|t: int| 0 <= t < k ==> #[trigger] spec_item(d, t) == spec_item(d0, t),
{
    let ng = spec_n_items(d0);
    assert(item_wf(d0, k - 1));
    assert forall|t: int| 0 <= t < k implies #[trigger] spec_offs(d, t) == spec_offs(d0, t) by {
        assert(d[PAGE_HEADER_SIZE + 2 * t] == d0[PAGE_HEADER_SIZE + 2 * t]);
        assert(d[PAGE_HEADER_SIZE + 2 * t + 1] == d0[PAGE_HEADER_SIZE + 2 * t + 1]);
    }
    assert forall|t: int| 0 <= t < k implies #[trigger] spec_item(d, t) == spec_item(d0, t) by {
        assert(item_wf(d0, t));
        lemma_offs_mono(d0, t, k - 1);
        assert(spec_item_end(d, t) == spec_item_end(d0, t));
        assert forall|x: int|
            0 <= x < spec_item_len(d0, t) implies spec_item(d, t)[x] == spec_item(d0, t)[x] by {
            assert(spec_item(d, t)[x] == d[spec_offs(d0, t) + x]);
            assert(spec_item(d0, t)[x] == d0[spec_offs(d0, t) + x]);
            assert(spec_offs(d0, k - 1) <= spec_offs(d0, t) + x < PAGE_SIZE);
        }
        assert(spec_item(d, t) =~= spec_item(d0, t));
    }
    assert forall|t: int| 0 <= t < k implies item_wf(d, t) by {
        assert(item_wf(d0, t));
        assert(spec_item(d, t) == spec_item(d0, t));
        assert(spec_key_len(d, t) == spec_key_len(d0, t));
        assert(spec_item_end(d, t) == spec_item_end(d0, t));
        assert(spec_item_len(d, t) == spec_item_len(d0, t));
        assert(item_wf(d, t));
    }
    assert(page_wf(d));
}

} // verus!
