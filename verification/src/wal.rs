use vstd::prelude::*;

verus! {

use crate::bytes::{be32, get_be32, put_be32};
use crate::config::{PageId, PAGE_SIZE, METADATA_SIZE, PID_SIZE};
use crate::meta::Metadata;
use crate::pagedata::PageData;

/// The CRC32C checksum of `bytes` folded onto the running value `crc`.
pub uninterp spec fn crc32c_of(crc: u32, bytes: Seq<u8>) -> u32;

/// Relies on crc32c::crc32c_append: it computes the CRC32C of `bytes`
/// starting from the previous value `crc`, from those arguments alone.
#[verifier::external_body]
fn crc32c_append_bytes(crc: u32, bytes: &[u8]) -> (r: u32)
    ensures
        r == crc32c_of(crc, bytes@),
{
    crc32c::crc32c_append(crc, bytes)
}

/// Copy `len` bytes of `d` starting at `pos` into a fresh vector.
fn copy_range(d: &Vec<u8>, pos: usize, len: usize) -> (r: Vec<u8>)
    requires
        pos + len <= d@.len(),
    ensures
        r@ == d@.subrange(pos as int, pos as int + len as int),
{
    let dn: usize = d.len();
    let mut r: Vec<u8> = Vec::new();
    let mut i: usize = 0;
    while i < len
        invariant
            pos + len <= dn,
            dn == d@.len(),
            0 <= i <= len,
            r@.len() == i,
            forall|j: int| 0 <= j < i ==> r@[j] == d@[pos + j],
        decreases len - i,
    {
        let b: u8 = d[pos + i];
        r.push(b);
        i = i + 1;
    }
    proof {
        assert(r@ =~= d@.subrange(pos as int, pos as int + len as int));
    }
    r
}

/// Copy `len` bytes of the slice `d` starting at `pos` into a fresh vector.
fn copy_slice_range(d: &[u8], pos: usize, len: usize) -> (r: Vec<u8>)
    requires
        pos + len <= d@.len(),
    ensures
        r@ == d@.subrange(pos as int, pos as int + len as int),
{
    let dn: usize = d.len();
    let mut r: Vec<u8> = Vec::new();
    let mut i: usize = 0;
    while i < len
        invariant
            pos + len <= dn,
            dn == d@.len(),
            0 <= i <= len,
            r@.len() == i,
            forall|j: int| 0 <= j < i ==> r@[j] == d@[pos + j],
        decreases len - i,
    {
        let b: u8 = d[pos + i];
        r.push(b);
        i = i + 1;
    }
    proof {
        assert(r@ =~= d@.subrange(pos as int, pos as int + len as int));
    }
    r
}

/// Encode one log page record: 4 bytes of page id, then the 8 KiB image.
pub fn wal_page_record(pid: PageId, page: &PageData) -> (r: Vec<u8>)
    requires
        pid != 0,
        page@.len() == PAGE_SIZE,
    ensures
        r@.len() == PID_SIZE + PAGE_SIZE,
        be32(r@, 0) == pid as int,
        r@.subrange(PID_SIZE as int, (PID_SIZE + PAGE_SIZE) as int) == page@,
{
    let mut r: Vec<u8> = vec![0u8; PID_SIZE];
    put_be32(&mut r, 0, pid);
    let ghost header = r@;
    let mut i: usize = 0;
    while i < PAGE_SIZE
        invariant
            page@.len() == PAGE_SIZE,
            0 <= i <= PAGE_SIZE,
            r@.len() == PID_SIZE + i,
            forall|j: int| 0 <= j < PID_SIZE ==> r@[j] == header[j],
            header.len() == PID_SIZE,
            be32(header, 0) == pid as int,
            forall|j: int| 0 <= j < i ==> r@[PID_SIZE + j] == page@[j],
        decreases PAGE_SIZE - i,
    {
        let b: u8 = page.data[i];
        r.push(b);
        i = i + 1;
    }
    proof {
        assert(r@.subrange(PID_SIZE as int, (PID_SIZE + PAGE_SIZE) as int) =~= page@);
    }
    r
}

/// Encode the transaction trailer: the zero page-id sentinel, the packed
/// metadata, then the CRC32C of those 20 bytes folded onto `tx_crc`.
pub fn wal_trailer(meta: &Metadata, tx_crc: u32) -> (r: Vec<u8>)
    ensures
        r@.len() == PID_SIZE + METADATA_SIZE + 4,
        be32(r@, 0) == 0,
        be32(r@, PID_SIZE as int) == meta.free as int,
        be32(r@, (PID_SIZE + 4) as int) == meta.size as int,
        be32(r@, (PID_SIZE + 8) as int) == meta.root as int,
        be32(r@, (PID_SIZE + 12) as int) == meta.height as int,
        be32(r@, (PID_SIZE + METADATA_SIZE) as int) == crc32c_of(
            tx_crc,
            r@.subrange(0, (PID_SIZE + METADATA_SIZE) as int),
        ) as int,
{
    let mut r: Vec<u8> = vec![0u8; PID_SIZE + METADATA_SIZE + 4];
    put_be32(&mut r, PID_SIZE, meta.free);
    put_be32(&mut r, PID_SIZE + 4, meta.size);
    put_be32(&mut r, PID_SIZE + 8, meta.root);
    put_be32(&mut r, PID_SIZE + 12, meta.height);
    let ghost sealed = r@.subrange(0, (PID_SIZE + METADATA_SIZE) as int);
    let body: Vec<u8> = copy_range(&r, 0, PID_SIZE + METADATA_SIZE);
    let crc: u32 = crc32c_append_bytes(tx_crc, body.as_slice());
    put_be32(&mut r, PID_SIZE + METADATA_SIZE, crc);
    proof {
        assert(r@.subrange(0, (PID_SIZE + METADATA_SIZE) as int) =~= sealed);
    }
    r
}

/// The metadata whose packed form sits at offset `at` of `d`.
pub open spec fn spec_meta_at(d: Seq<u8>, at: int) -> Metadata {
    Metadata {
        free: be32(d, at) as u32,
        size: be32(d, at + 4) as u32,
        root: be32(d, at + 8) as u32,
        height: be32(d, at + 12) as u32,
    }
}

/// The page images a replay of `log` from `pos` onwards applies, and the
/// metadata it ends with.  `crc` is the checksum folded over the records
/// of the batch read so far, `pend` that batch's page writes, `acc` the
/// writes of the sealed batches already passed, and `meta` the last sealed
/// trailer's metadata.  Replay stops at the first short read or at a
/// trailer whose checksum does not match, discarding the unsealed tail.
pub open spec fn wal_replay_from(
    log: Seq<u8>,
    pos: int,
    crc: u32,
    pend: Seq<(PageId, Seq<u8>)>,
    acc: Seq<(PageId, Seq<u8>)>,
    meta: Option<Metadata>,
) -> (Seq<(PageId, Seq<u8>)>, Option<Metadata>)
    decreases log.len() - pos,
{
    if pos < 0 || pos + PID_SIZE > log.len() {
        (acc, meta)
    } else {
        let pid = be32(log, pos);
        if pid != 0 {
            if pos + PID_SIZE + PAGE_SIZE > log.len() {
                (acc, meta)
            } else {
                wal_replay_from(
                    log,
                    pos + PID_SIZE + PAGE_SIZE,
                    crc32c_of(crc, log.subrange(pos, pos + PID_SIZE + PAGE_SIZE)),
                    pend.push(
                        (pid as u32, log.subrange(pos + PID_SIZE, pos + PID_SIZE + PAGE_SIZE)),
                    ),
                    acc,
                    meta,
                )
            }
        } else {
            if pos + PID_SIZE + METADATA_SIZE + 4 > log.len() {
                (acc, meta)
            } else {
                let sealed = crc32c_of(crc, log.subrange(pos, pos + PID_SIZE + METADATA_SIZE));
                if be32(log, pos + PID_SIZE + METADATA_SIZE) == sealed as int {
                    wal_replay_from(
                        log,
                        pos + PID_SIZE + METADATA_SIZE + 4,
                        0,
                        Seq::empty(),
                        acc + pend,
                        Some(spec_meta_at(log, pos + PID_SIZE)),
                    )
                } else {
                    (acc, meta)
                }
            }
        }
    }
}

/// The mathematical view of a list of page writes.
pub open spec fn writes_view(v: Seq<(PageId, Vec<u8>)>) -> Seq<(PageId, Seq<u8>)> {
    v.map_values(|p: (PageId, Vec<u8>)| (p.0, p.1@))
}

/// Appending one write extends the view by the pair of its id and bytes.
proof fn lemma_writes_view_push(s: Seq<(PageId, Vec<u8>)>, x: (PageId, Vec<u8>))
    ensures
        writes_view(s.push(x)) == writes_view(s).push((x.0, x.1@)),
{
    assert(writes_view(s.push(x)) =~= writes_view(s).push((x.0, x.1@)));
}

/// Replay the log: collect the page writes of every batch sealed by a
/// matching trailer checksum, in log order, together with the metadata of
/// the last sealed trailer.  Records past the first short read or checksum
/// mismatch are discarded.
pub fn replay_wal(log: &[u8]) -> (r: (Vec<(PageId, Vec<u8>)>, Option<Metadata>))
    ensures
        (writes_view(r.0@), r.1) == wal_replay_from(
            log@,
            0,
            0,
            Seq::empty(),
            Seq::empty(),
            None,
        ),
{
    let n: usize = log.len();
    let mut pos: usize = 0;
    let mut crc: u32 = 0;
    let mut pend: Vec<(PageId, Vec<u8>)> = Vec::new();
    let mut acc: Vec<(PageId, Vec<u8>)> = Vec::new();
    let mut meta: Option<Metadata> = None;
    proof {
        assert(writes_view(pend@) =~= Seq::<(PageId, Seq<u8>)>::empty());
        assert(writes_view(acc@) =~= Seq::<(PageId, Seq<u8>)>::empty());
    }
    loop
        invariant
            n == log@.len(),
            0 <= pos <= n,
            wal_replay_from(log@, pos as int, crc, writes_view(pend@), writes_view(acc@), meta)
                == wal_replay_from(log@, 0, 0, Seq::empty(), Seq::empty(), None),
        ensures
            (writes_view(acc@), meta) == wal_replay_from(
                log@,
                0,
                0,
                Seq::empty(),
                Seq::empty(),
                None,
            ),
        decreases n - pos,
    {
        let ghost pos0 = pos as int;
        let ghost crc0 = crc;
        let ghost pv0 = writes_view(pend@);
        let ghost av0 = writes_view(acc@);
        let ghost meta0 = meta;
        if n - pos < PID_SIZE {
            proof {
                assert(wal_replay_from(log@, pos0, crc0, pv0, av0, meta0) == (av0, meta0));
            }
            break ;
        }
        let pid: u32 = get_be32(log, pos);
        if pid != 0 {
            if n - pos < PID_SIZE + PAGE_SIZE {
                proof {
                    assert(wal_replay_from(log@, pos0, crc0, pv0, av0, meta0) == (av0, meta0));
                }
                break ;
            }
            let record = copy_slice_range(log, pos, PID_SIZE + PAGE_SIZE);
            let image = copy_slice_range(log, pos + PID_SIZE, PAGE_SIZE);
            let new_crc: u32 = crc32c_append_bytes(crc, record.as_slice());
            pend.push((pid, image));
            crc = new_crc;
            pos = pos + PID_SIZE + PAGE_SIZE;
            proof {
                lemma_writes_view_push(pend@.drop_last(), (pid, image));
                assert(pend@.drop_last() =~= pend@.subrange(0, pend@.len() - 1));
                assert(writes_view(pend@) =~= pv0.push(
                    (pid, log@.subrange(pos0 + PID_SIZE, pos0 + PID_SIZE + PAGE_SIZE)),
                ));
                assert(pid as int == be32(log@, pos0));
                assert(wal_replay_from(log@, pos0, crc0, pv0, av0, meta0) == wal_replay_from(
                    log@,
                    pos as int,
                    crc,
                    writes_view(pend@),
                    av0,
                    meta0,
                ));
            }
        } else {
            if n - pos < PID_SIZE + METADATA_SIZE + 4 {
                proof {
                    assert(wal_replay_from(log@, pos0, crc0, pv0, av0, meta0) == (av0, meta0));
                }
                break ;
            }
            let sealed_bytes = copy_slice_range(log, pos, PID_SIZE + METADATA_SIZE);
            let tcrc: u32 = crc32c_append_bytes(crc, sealed_bytes.as_slice());
            let stored: u32 = get_be32(log, pos + PID_SIZE + METADATA_SIZE);
            if stored != tcrc {
                proof {
                    assert(be32(log@, pos0) == 0);
                    assert(wal_replay_from(log@, pos0, crc0, pv0, av0, meta0) == (av0, meta0));
                }
                break ;
            }
            let meta_bytes = copy_slice_range(log, pos + PID_SIZE, METADATA_SIZE);
            let m = Metadata::unpack(meta_bytes.as_slice());
            proof {
                assert(forall|j: int|
                    0 <= j < METADATA_SIZE ==> meta_bytes@[j] == log@[pos + PID_SIZE + j]);
                assert(be32(meta_bytes@, 0) == be32(log@, pos + PID_SIZE));
                assert(be32(meta_bytes@, 4) == be32(log@, pos + PID_SIZE + 4));
                assert(be32(meta_bytes@, 8) == be32(log@, pos + PID_SIZE + 8));
                assert(be32(meta_bytes@, 12) == be32(log@, pos + PID_SIZE + 12));
                assert(m == spec_meta_at(log@, pos0 + PID_SIZE));
            }
            let mut k: usize = 0;
            let pend_len: usize = pend.len();
            while k < pend_len
                invariant
                    0 <= k <= pend_len,
                    pend_len == pend@.len(),
                    pv0 == writes_view(pend@),
                    writes_view(acc@) == av0 + pv0.subrange(0, k as int),
                decreases pend_len - k,
            {
                let pid_k: u32 = pend[k].0;
                let len_k: usize = pend[k].1.len();
                let bytes_k = copy_range(&pend[k].1, 0, len_k);
                proof {
                    assert(bytes_k@ =~= pend@[k as int].1@);
                }
                let ghost aprev = acc@;
                acc.push((pid_k, bytes_k));
                proof {
                    lemma_writes_view_push(aprev, (pid_k, bytes_k));
                    assert(writes_view(aprev).push((pid_k, bytes_k@)) =~= av0 + pv0.subrange(
                        0,
                        k as int + 1,
                    ));
                }
                k = k + 1;
            }
            proof {
                assert(pv0.subrange(0, pv0.len() as int) =~= pv0);
                assert(writes_view(acc@) == av0 + pv0);
            }
            pend = Vec::new();
            meta = Some(m);
            crc = 0;
            pos = pos + PID_SIZE + METADATA_SIZE + 4;
            proof {
                assert(writes_view(pend@) =~= Seq::<(PageId, Seq<u8>)>::empty());
                assert(be32(log@, pos0) == 0);
                assert(crc32c_of(crc0, log@.subrange(pos0, pos0 + PID_SIZE + METADATA_SIZE))
                    == tcrc);
                assert(wal_replay_from(log@, pos0, crc0, pv0, av0, meta0) == wal_replay_from(
                    log@,
                    pos as int,
                    crc,
                    writes_view(pend@),
                    writes_view(acc@),
                    meta,
                ));
            }
        }
    }
    (acc, meta)
}

/// The state of the data file after the page writes `w` are applied, in
/// order, to the pages of `disk`.
pub open spec fn apply_writes(
    disk: Map<PageId, Seq<u8>>,
    w: Seq<(PageId, Seq<u8>)>,
) -> Map<PageId, Seq<u8>>
    decreases w.len(),
{
    if w.len() == 0 {
        disk
    } else {
        apply_writes(disk, w.drop_last()).insert(w.last().0, w.last().1)
    }
}

/// The last image written to page `p` by `w`, if any.
pub open spec fn last_write(w: Seq<(PageId, Seq<u8>)>, p: PageId) -> Option<Seq<u8>>
    decreases w.len(),
{
    if w.len() == 0 {
        None
    } else if w.last().0 == p {
        Some(w.last().1)
    } else {
        last_write(w.drop_last(), p)
    }
}

/// Pointwise effect of a write list: a page written ends at its last
/// image; a page never written keeps what the disk held.
pub proof fn lemma_apply_writes_at(disk: Map<PageId, Seq<u8>>, w: Seq<(PageId, Seq<u8>)>, p: PageId)
    ensures
        last_write(w, p) matches Some(b) ==> apply_writes(disk, w).contains_key(p)
            && apply_writes(disk, w)[p] == b,
        last_write(w, p) is None ==> (apply_writes(disk, w).contains_key(p) <==> disk.contains_key(
            p,
        )) && (disk.contains_key(p) ==> apply_writes(disk, w)[p] == disk[p]),
    decreases w.len(),
{
    if w.len() > 0 {
        lemma_apply_writes_at(disk, w.drop_last(), p);
    }
}

/// Replay is idempotent: applying the page writes of a sealed log a second
/// time leaves the data file exactly as the first application did.
pub proof fn lemma_replay_idempotent(disk: Map<PageId, Seq<u8>>, w: Seq<(PageId, Seq<u8>)>)
    ensures
        apply_writes(apply_writes(disk, w), w) == apply_writes(disk, w),
{
    let once = apply_writes(disk, w);
    let twice = apply_writes(once, w);
    assert forall|p: PageId| #[trigger] twice.dom().contains(p) implies once.dom().contains(
        p,
    ) by {
        lemma_apply_writes_at(disk, w, p);
        lemma_apply_writes_at(once, w, p);
    }
    assert forall|p: PageId| #[trigger] once.dom().contains(p) implies twice.dom().contains(
        p,
    ) by {
        lemma_apply_writes_at(disk, w, p);
        lemma_apply_writes_at(once, w, p);
    }
    assert(twice.dom() =~= once.dom());
    assert forall|p: PageId| #[trigger] once.dom().contains(p) implies twice[p] == once[p] by {
        lemma_apply_writes_at(disk, w, p);
        lemma_apply_writes_at(once, w, p);
    }
    assert(twice =~~= once);
}

} // verus!
