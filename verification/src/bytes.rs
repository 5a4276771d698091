use vstd::prelude::*;

verus! {

/// The big-endian 16-bit value stored at byte offset `i` of `d`.
pub open spec fn be16(d: Seq<u8>, i: int) -> int {
    (d[i] as int) * 0x100 + (d[i + 1] as int)
}

/// The big-endian 32-bit value stored at byte offset `i` of `d`.
pub open spec fn be32(d: Seq<u8>, i: int) -> int {
    (d[i] as int) * 0x1000000 + (d[i + 1] as int) * 0x10000 + (d[i + 2] as int) * 0x100 + (d[
        i + 3
    ] as int)
}

/// The big-endian 64-bit value stored at byte offset `i` of `d`.
pub open spec fn be64(d: Seq<u8>, i: int) -> int {
    be32(d, i) * 0x100000000 + be32(d, i + 4)
}

proof fn lemma_u16_split(v: u16)
    by (bit_vector)
    ensures
        (v >> 8) < 0x100,
        (v & 0xff) < 0x100,
        ((v >> 8) as int) * 0x100 + ((v & 0xff) as int) == v as int,
{
}

proof fn lemma_u32_split(v: u32)
    by (bit_vector)
    ensures
        (v >> 24) < 0x100,
        ((v >> 16) & 0xff) < 0x100,
        ((v >> 8) & 0xff) < 0x100,
        (v & 0xff) < 0x100,
        ((v >> 24) as int) * 0x1000000 + (((v >> 16) & 0xff) as int) * 0x10000 + (((v >> 8)
            & 0xff) as int) * 0x100 + ((v & 0xff) as int) == v as int,
{
}

proof fn lemma_u64_split(v: u64)
    by (bit_vector)
    ensures
        (v >> 32) < 0x100000000,
        (v & 0xffffffff) < 0x100000000,
        ((v >> 32) as int) * 0x100000000 + ((v & 0xffffffff) as int) == v as int,
{
}

/// Read a big-endian `u16` at `offs`.
pub fn get_be16(d: &[u8], offs: usize) -> (r: u16)
    requires
        offs + 2 <= d@.len(),
    ensures
        r as int == be16(d@, offs as int),
{
    let a = d[offs];
    let b = d[offs + 1];
    (a as u16) * 0x100 + (b as u16)
}

/// Read a big-endian `u32` at `offs`.
pub fn get_be32(d: &[u8], offs: usize) -> (r: u32)
    requires
        offs + 4 <= d@.len(),
    ensures
        r as int == be32(d@, offs as int),
{
    let a = d[offs];
    let b = d[offs + 1];
    let c = d[offs + 2];
    let e = d[offs + 3];
    (a as u32) * 0x1000000 + (b as u32) * 0x10000 + (c as u32) * 0x100 + (e as u32)
}

/// Read a big-endian `u64` at `offs`.
pub fn get_be64(d: &[u8], offs: usize) -> (r: u64)
    requires
        offs + 8 <= d@.len(),
    ensures
        r as int == be64(d@, offs as int),
{
    let n: usize = d.len();
    let hi = get_be32(d, offs);
    let lo = get_be32(d, offs + 4);
    (hi as u64) * 0x100000000 + (lo as u64)
}

/// Write `v` at `offs` in big-endian order; other bytes are unchanged.
pub fn put_be16(d: &mut Vec<u8>, offs: usize, v: u16)
    requires
        offs + 2 <= old(d)@.len(),
    ensures
        final(d)@.len() == old(d)@.len(),
        be16(final(d)@, offs as int) == v as int,
        forall|j: int|
            0 <= j < old(d)@.len() && !(offs <= j < offs + 2) ==> final(d)@[j] == old(d)@[j],
{
    let n: usize = d.len();
    proof {
        lemma_u16_split(v);
    }
    d[offs] = (v >> 8) as u8;
    d[offs + 1] = (v & 0xff) as u8;
}

/// Write `v` at `offs` in big-endian order; other bytes are unchanged.
pub fn put_be32(d: &mut Vec<u8>, offs: usize, v: u32)
    requires
        offs + 4 <= old(d)@.len(),
    ensures
        final(d)@.len() == old(d)@.len(),
        be32(final(d)@, offs as int) == v as int,
        forall|j: int|
            0 <= j < old(d)@.len() && !(offs <= j < offs + 4) ==> final(d)@[j] == old(d)@[j],
{
    let n: usize = d.len();
    proof {
        lemma_u32_split(v);
    }
    d[offs] = (v >> 24) as u8;
    d[offs + 1] = ((v >> 16) & 0xff) as u8;
    d[offs + 2] = ((v >> 8) & 0xff) as u8;
    d[offs + 3] = (v & 0xff) as u8;
}

/// Write `v` at `offs` in big-endian order; other bytes are unchanged.
pub fn put_be64(d: &mut Vec<u8>, offs: usize, v: u64)
    requires
        offs + 8 <= old(d)@.len(),
    ensures
        final(d)@.len() == old(d)@.len(),
        be64(final(d)@, offs as int) == v as int,
        forall|j: int|
            0 <= j < old(d)@.len() && !(offs <= j < offs + 8) ==> final(d)@[j] == old(d)@[j],
{
    let n: usize = d.len();
    proof {
        lemma_u64_split(v);
    }
    put_be32(d, offs, (v >> 32) as u32);
    put_be32(d, offs + 4, (v & 0xffffffff) as u32);
}

} // verus!
