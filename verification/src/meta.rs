use vstd::prelude::*;

verus! {

use crate::bytes::{be32, get_be32, put_be32};
use crate::config::{PageId, PID_SIZE, METADATA_SIZE, PAGE_SIZE};
use crate::error::DbError;
use crate::pagedata::PageData;

/// Root of the alternative free-list encoding: the page id of the page
/// that holds the serialized free list.
pub struct Meta {
    pub freelist_pid: PageId,
}

/// The 16-byte header kept at offset 0 of page 0.
#[derive(Clone, Copy)]
pub struct Metadata {
    /// Head of the on-disk free-page list; 0 means empty.
    pub free: PageId,
    /// Number of pages allocated in the data file.
    pub size: PageId,
    /// Root page of the tree; 0 means the tree is empty.
    pub root: PageId,
    /// Height of the tree; leaves are at height 1, 0 means empty.
    pub height: u32,
}

impl Metadata {
    /// The emptiness law of the tree: a zero height means no root page,
    /// and a root page means a positive height.
    pub open spec fn tree_shape_ok(self) -> bool {
        (self.height == 0) <==> (self.root == 0)
    }

    /// The header of a freshly created store: one allocated page, no free
    /// pages, an empty tree.
    pub fn fresh() -> (m: Metadata)
        ensures
            m.free == 0,
            m.size == 1,
            m.root == 0,
            m.height == 0,
            m.tree_shape_ok(),
    {
        Metadata { free: 0, size: 1, root: 0, height: 0 }
    }

    /// Decode the header of an opened data file, rejecting one whose page
    /// count says the file holds no pages at all.
    pub fn checked_unpack(page: &[u8]) -> (r: Result<Metadata, DbError>)
        requires
            page@.len() >= METADATA_SIZE,
        ensures
            r is Ok <==> be32(page@, PID_SIZE as int) >= 1,
            r matches Ok(m) ==> m.free as int == be32(page@, 0) && m.size as int == be32(
                page@,
                PID_SIZE as int,
            ) && m.root as int == be32(page@, 2 * PID_SIZE as int) && m.height as int == be32(
                page@,
                3 * PID_SIZE as int,
            ) && m.size >= 1,
            r matches Err(e) ==> e == DbError::CorruptedMeta,
    {
        let m = Metadata::unpack(page);
        if m.size < 1 {
            Err(DbError::CorruptedMeta)
        } else {
            Ok(m)
        }
    }

    /// Point the header at the first leaf of a previously empty tree.
    pub fn set_first_root(&mut self, pid: PageId)
        requires
            pid != 0,
        ensures
            final(self).free == old(self).free,
            final(self).size == old(self).size,
            final(self).root == pid,
            final(self).height == 1,
            final(self).tree_shape_ok(),
    {
        self.root = pid;
        self.height = 1;
    }

    /// Put a fresh internal page above the old root after a root split.
    pub fn grow_root(&mut self, pid: PageId)
        requires
            pid != 0,
            old(self).height < u32::MAX,
        ensures
            final(self).free == old(self).free,
            final(self).size == old(self).size,
            final(self).root == pid,
            final(self).height == old(self).height + 1,
            final(self).tree_shape_ok(),
    {
        self.root = pid;
        self.height = self.height + 1;
    }

    /// Record that the last page of the tree was freed: the tree is empty
    /// again.
    pub fn collapse_root(&mut self)
        ensures
            final(self).free == old(self).free,
            final(self).size == old(self).size,
            final(self).root == 0,
            final(self).height == 0,
            final(self).tree_shape_ok(),
    {
        self.root = 0;
        self.height = 0;
    }

    /// Decode the header from the first bytes of page 0.
    pub fn unpack(page: &[u8]) -> (m: Metadata)
        requires
            page@.len() >= METADATA_SIZE,
        ensures
            m.free as int == be32(page@, 0),
            m.size as int == be32(page@, PID_SIZE as int),
            m.root as int == be32(page@, 2 * PID_SIZE as int),
            m.height as int == be32(page@, 3 * PID_SIZE as int),
    {
        let free = get_be32(page, 0);
        let size = get_be32(page, PID_SIZE);
        let root = get_be32(page, 2 * PID_SIZE);
        let height = get_be32(page, 3 * PID_SIZE);
        Metadata { free, size, root, height }
    }

    /// Encode the header into its packed 16-byte form.
    pub fn pack(self) -> (b: Vec<u8>)
        ensures
            b@.len() == METADATA_SIZE,
            be32(b@, 0) == self.free as int,
            be32(b@, PID_SIZE as int) == self.size as int,
            be32(b@, 2 * PID_SIZE as int) == self.root as int,
            be32(b@, 3 * PID_SIZE as int) == self.height as int,
    {
        let mut page: Vec<u8> = vec![0u8; METADATA_SIZE];
        put_be32(&mut page, 0, self.free);
        put_be32(&mut page, PID_SIZE, self.size);
        put_be32(&mut page, 2 * PID_SIZE, self.root);
        put_be32(&mut page, 3 * PID_SIZE, self.height);
        page
    }
}

impl Meta {
    /// Encode onto a fresh page: the free-list page id in the first bytes.
    pub fn serialize(&self) -> (p: PageData)
        ensures
            p@.len() == PAGE_SIZE,
            be32(p@, 0) == self.freelist_pid as int,
    {
        let mut page = PageData::new();
        page.set_u32(0, self.freelist_pid);
        page
    }

    /// Decode from a page.
    pub fn deserialize(page: &PageData) -> (m: Meta)
        requires
            page@.len() == PAGE_SIZE,
        ensures
            m.freelist_pid as int == be32(page@, 0),
    {
        let freelist_pid = page.get_u32(0);
        Meta { freelist_pid }
    }
}

} // verus!
