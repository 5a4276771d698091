use vstd::prelude::*;

verus! {

use crate::bytes::{be32, be64, put_be32, put_be64, get_be64};
use crate::config::{PageId, PID_SIZE, USIZE_SIZE, PAGE_SIZE};
use crate::pagedata::PageData;

/// An in-memory ledger of page ids: `max_pid` is the largest id handed
/// out, and `released_pids` holds the ids given back, which are reused
/// before the file is grown.
pub struct FreeList {
    pub max_pid: PageId,
    pub released_pids: Vec<PageId>,
}

impl FreeList {
    /// The serialized form fits one page.
    pub open spec fn fits_page(&self) -> bool {
        PID_SIZE + USIZE_SIZE + PID_SIZE * self.released_pids@.len() <= PAGE_SIZE
    }

    /// Hand out a page id: a released one if any, else a fresh one.
    pub fn get_next_pid(&mut self) -> (pid: PageId)
        requires
            old(self).max_pid < PageId::MAX,
        ensures
            old(self).released_pids@.len() > 0 ==> {
                &&& pid == old(self).released_pids@.last()
                &&& final(self).released_pids@ == old(self).released_pids@.drop_last()
                &&& final(self).max_pid == old(self).max_pid
            },
            old(self).released_pids@.len() == 0 ==> {
                &&& pid == old(self).max_pid + 1
                &&& final(self).max_pid == old(self).max_pid + 1
                &&& final(self).released_pids@ == old(self).released_pids@
            },
    {
        if let Some(pid) = self.released_pids.pop() {
            pid
        } else {
            self.max_pid = self.max_pid + 1;
            self.max_pid
        }
    }

    /// Give a page id back for reuse.
    pub fn release_pid(&mut self, pid: PageId)
        ensures
            final(self).released_pids@ == old(self).released_pids@.push(pid),
            final(self).max_pid == old(self).max_pid,
    {
        self.released_pids.push(pid);
    }

    /// Encode onto a fresh page: `max_pid`, the count, then the ids.
    pub fn serialize(&self) -> (p: PageData)
        requires
            self.fits_page(),
        ensures
            p@.len() == PAGE_SIZE,
            be32(p@, 0) == self.max_pid as int,
            be64(p@, PID_SIZE as int) == self.released_pids@.len(),
            forall|i: int|
                0 <= i < self.released_pids@.len() ==> be32(
                    p@,
                    PID_SIZE + USIZE_SIZE + PID_SIZE * i,
                ) == self.released_pids@[i] as int,
            forall|j: int|
                PID_SIZE + USIZE_SIZE + PID_SIZE * self.released_pids@.len() <= j < PAGE_SIZE
                    ==> p@[j] == 0u8,
    {
        let mut page = PageData::new();
        put_be32(&mut page.data, 0, self.max_pid);
        put_be64(&mut page.data, PID_SIZE, self.released_pids.len() as u64);
        let n = self.released_pids.len();
        let mut i: usize = 0;
        while i < n
            invariant
                page@.len() == PAGE_SIZE,
                n == self.released_pids@.len(),
                PID_SIZE + USIZE_SIZE + PID_SIZE * n <= PAGE_SIZE,
                0 <= i <= n,
                be32(page@, 0) == self.max_pid as int,
                be64(page@, PID_SIZE as int) == n,
                forall|t: int|
                    0 <= t < i ==> be32(page@, PID_SIZE + USIZE_SIZE + PID_SIZE * t)
                        == self.released_pids@[t] as int,
                forall|j: int|
                    PID_SIZE + USIZE_SIZE + PID_SIZE * n <= j < PAGE_SIZE ==> page@[j] == 0u8,
            decreases n - i,
        {
            let ghost dprev = page@;
            put_be32(&mut page.data, PID_SIZE + USIZE_SIZE + PID_SIZE * i, self.released_pids[i]);
            proof {
                assert(forall|j: int|
                    0 <= j < PID_SIZE + USIZE_SIZE + PID_SIZE * i ==> page@[j] == dprev[j]);
            }
            i = i + 1;
        }
        page
    }

    /// Decode from a page written by `serialize`.
    pub fn deserialize(page: &PageData) -> (r: FreeList)
        requires
            page@.len() == PAGE_SIZE,
            PID_SIZE + USIZE_SIZE + PID_SIZE * be64(page@, PID_SIZE as int) <= PAGE_SIZE,
        ensures
            r.max_pid as int == be32(page@, 0),
            r.released_pids@.len() == be64(page@, PID_SIZE as int),
            forall|i: int|
                0 <= i < r.released_pids@.len() ==> r.released_pids@[i] as int == be32(
                    page@,
                    PID_SIZE + USIZE_SIZE + PID_SIZE * i,
                ),
    {
        let max_pid = page.get_u32(0);
        let len64 = get_be64(page.data.as_slice(), PID_SIZE);
        let released_pids_len = len64 as usize;
        let mut released_pids: Vec<PageId> = Vec::new();
        let mut i: usize = 0;
        while i < released_pids_len
            invariant
                page@.len() == PAGE_SIZE,
                released_pids_len == be64(page@, PID_SIZE as int),
                PID_SIZE + USIZE_SIZE + PID_SIZE * released_pids_len <= PAGE_SIZE,
                0 <= i <= released_pids_len,
                released_pids@.len() == i,
                forall|t: int|
                    0 <= t < i ==> released_pids@[t] as int == be32(
                        page@,
                        PID_SIZE + USIZE_SIZE + PID_SIZE * t,
                    ),
            decreases released_pids_len - i,
        {
            let pid = page.get_u32(PID_SIZE + USIZE_SIZE + PID_SIZE * i);
            released_pids.push(pid);
            i = i + 1;
        }
        FreeList { max_pid, released_pids }
    }
}

} // verus!
