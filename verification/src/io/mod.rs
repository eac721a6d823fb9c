pub mod in_memory_backend;

use vstd::prelude::*;

use crate::page::codec::zero_bytes;

verus! {

/// Identifies a fixed-size page. `0` is reserved for the header page and
/// otherwise used as a "null" sentinel (e.g. "no free list yet").
pub type PageId = u64;

/// What reading page `id` of `disk` yields: the bytes last written there,
/// or `page_size` zeros for a page never written.
pub open spec fn read_disk(disk: Map<PageId, Seq<u8>>, id: PageId, page_size: nat) -> Seq<u8> {
    if disk.contains_key(id) {
        disk[id]
    } else {
        zero_bytes(page_size)
    }
}

/// The only swappable-backend boundary: plain byte I/O over fixed-size
/// pages. All B+Tree/COW/free-list policy lives once, generically, in
/// `Store<IO>` — not duplicated per backend.
pub trait PageIo: Sized {
    /// The fixed page size of this backend.
    spec fn spec_page_size(&self) -> nat;

    /// Every page written so far, by id.
    spec fn disk(&self) -> Map<PageId, Seq<u8>>;

    fn page_size(&self) -> (r: usize)
        ensures
            r == self.spec_page_size(),
    ;

    /// Always returns exactly `page_size()` bytes; an unwritten page
    /// reads back as zeros (matching a freshly `ftruncate`'d file).
    fn read_page(&self, id: PageId) -> (r: Vec<u8>)
        ensures
            r@ == read_disk(self.disk(), id, self.spec_page_size()),
    ;

    /// `bytes.len()` must equal `page_size()`.
    fn write_page(&mut self, id: PageId, bytes: &[u8])
        requires
            bytes@.len() == old(self).spec_page_size(),
        ensures
            final(self).disk() == old(self).disk().insert(id, bytes@),
            final(self).spec_page_size() == old(self).spec_page_size(),
    ;

    /// Durably flushes prior writes (a no-op for the in-memory backend).
    fn sync(&self);
}

} // verus!
