//! A persistent, ordered key-value store backed by a copy-on-write
//! B+Tree. The only operations are `put` and `get`; deletion is not
//! offered.
use vstd::prelude::*;

use crate::io::in_memory_backend::MemoryPageIo;
use crate::io::{read_disk, PageId, PageIo};
use crate::page::codec::zero_bytes;
use crate::page::header::{parse_header, DecodeError, HEADER_PAGE_ID};
use crate::page::{spec_max_kv_size, Error};
use crate::storage::store::{chain_cap, no_dup, openable, page_size_ok, pages_needed, OpenError, Store};
use crate::storage::tree;

verus! {

pub struct StorageEngine<IO: PageIo> {
    store: Store<IO>,
}

impl<IO: PageIo> StorageEngine<IO> {
    /// The store underneath.
    pub closed spec fn spec_store(&self) -> Store<IO> {
        self.store
    }

    /// The key-value map held.
    pub open spec fn view(&self) -> Map<Seq<u8>, Seq<u8>> {
        self.spec_store().view()
    }

    pub open spec fn spec_page_size(&self) -> nat {
        self.spec_store().spec_page_size()
    }

    /// The store is consistent and no reader is registered between calls.
    pub open spec fn inv(&self) -> bool {
        &&& self.spec_store().inv()
        &&& self.spec_store().spec_readers() == 0
    }

    /// The page ids one more `put` could need at most: those handed out
    /// so far, three per level of the tree (a copied path, a split, a new
    /// root) and one chain page per free id.
    pub open spec fn room_used(&self) -> nat {
        (self.spec_store().spec_next_page_id() + 3 * self.spec_store().spec_height()
            + self.spec_store().payload().len() + 1) as nat
    }

    /// Page ids left before the allocator could run out while serving
    /// one more `put`.
    pub open spec fn has_room(&self) -> bool {
        self.room_used() <= u64::MAX
    }

    /// Opens (or creates) a store on a backend. A backend whose page 0
    /// holds a header of another page size or format version is refused
    /// rather than silently rebuilt, and comes back untouched.
    pub fn from_io(io: IO) -> (r: Result<Self, (OpenError, IO)>)
        requires
            page_size_ok(io.spec_page_size()),
            openable(io.disk(), io.spec_page_size()),
        ensures
            match parse_header(read_disk(io.disk(), HEADER_PAGE_ID, io.spec_page_size())) {
                Err(DecodeError::NotAHeader) => r matches Ok(e) && e.inv() && e.view() == Map::<
                    Seq<u8>,
                    Seq<u8>,
                >::empty() && e.spec_page_size() == io.spec_page_size(),
                Err(DecodeError::VersionMismatch { found, expected }) => r == Err::<Self, (OpenError, IO)>(
                    (OpenError::VersionMismatch { found, expected }, io),
                ),
                Ok(h) => if h.page_size == io.spec_page_size() {
                    r matches Ok(e) && e.inv() && e.spec_store().disk() == io.disk()
                        && e.spec_store().spec_root() == h.root_id && e.spec_page_size()
                        == io.spec_page_size()
                } else {
                    r == Err::<Self, (OpenError, IO)>(
                        (
                            OpenError::PageSizeMismatch {
                                requested: io.spec_page_size() as usize,
                                persisted: h.page_size,
                            },
                            io,
                        ),
                    )
                },
            },
    {
        match Store::open_or_create(io) {
            Ok(store) => Ok(StorageEngine { store }),
            Err(e) => Err(e),
        }
    }

    /// Inserts `key`/`val`, or overwrites `key`'s value if it already
    /// exists. The pages of the old root-to-leaf path, one per level, are
    /// freed. Page ids are taken from the reusable free list before new
    /// ones are minted: while the list holds enough ids for a whole
    /// copied path and the free-list chain is long enough, a `put` does
    /// not extend the store at all.
    pub fn put(&mut self, key: &[u8], val: &[u8]) -> (r: Result<(), Error>)
        requires
            old(self).inv(),
            old(self).has_room(),
            key@.len() + val@.len() <= usize::MAX,
        ensures
            final(self).inv(),
            final(self).spec_page_size() == old(self).spec_page_size(),
            r is Ok <==> key@.len() + val@.len() <= spec_max_kv_size(old(self).spec_page_size()),
            r matches Err(Error::EntryTooLarge { len, max }) ==> len == key@.len() + val@.len() && max
                == spec_max_kv_size(old(self).spec_page_size()),
            r is Ok ==> final(self).view() == old(self).view().insert(key@, val@),
            r is Err ==> final(self).view() == old(self).view(),
            r is Ok ==> final(self).room_used() <= 3 * old(self).room_used(),
            r is Err ==> final(self).room_used() == old(self).room_used(),
            ({
                let s0 = old(self).spec_store();
                let s1 = final(self).spec_store();
                r is Ok ==> exists|k: int, fr: Seq<PageId>|
                    #![trigger s0.spec_free_list().take(k), fr.len()]
                    0 <= k <= s0.spec_free_list().len() && fr.len() == s0.spec_height() && no_dup(fr)
                        && (forall|i: int|
                        0 <= i < fr.len() ==> s0.tree_pages().contains(#[trigger] fr[i])
                            && !s1.tree_pages().contains(fr[i])) && s1.payload() == s0.spec_free_list().take(k)
                        + s0.spec_pending_free() + fr
            }),
            ({
                let s0 = old(self).spec_store();
                let s1 = final(self).spec_store();
                r is Ok && s0.spec_free_list().len() >= 2 * s0.spec_height() + 1
                    && pages_needed(s1.payload().len(), chain_cap(s0.spec_page_size())) <= s0.spec_chain().len()
                    ==> s1.spec_next_page_id() == s0.spec_next_page_id()
            }),
    {
        proof {
            self.spec_store().lemma_inv_facts();
        }
        let mut txn = self.store.begin_write();
        tree::put(&mut txn, key, val)
    }

    /// Returns `key`'s value, or `None` if it isn't present.
    pub fn get(&mut self, key: &[u8]) -> (r: Option<Vec<u8>>)
        requires
            old(self).inv(),
        ensures
            final(self).inv(),
            final(self).view() == old(self).view(),
            final(self).spec_page_size() == old(self).spec_page_size(),
            final(self).room_used() == old(self).room_used(),
            match r {
                Some(v) => old(self).view().contains_key(key@) && old(self).view()[key@] == v@,
                None => !old(self).view().contains_key(key@),
            },
    {
        let guard = self.store.enter_read();
        let r = tree::get(&self.store, &guard, key);
        self.store.exit_read(guard);
        r
    }

    /// The store underneath, for inspection.
    pub fn store(&self) -> (r: &Store<IO>)
        ensures
            *r == self.spec_store(),
    {
        &self.store
    }

    /// The store underneath, for registering a reader on it.
    pub fn store_mut(&mut self) -> (r: &mut Store<IO>)
        ensures
            *r == old(self).spec_store(),
            final(self).spec_store() == *final(r),
    {
        &mut self.store
    }
}

impl StorageEngine<MemoryPageIo> {
    /// An in-memory store — no persistence, useful for tests or
    /// ephemeral use. Always succeeds: a fresh `MemoryPageIo` holds no
    /// header that could mismatch.
    pub fn in_memory(page_size: usize) -> (r: Self)
        requires
            page_size_ok(page_size as nat),
        ensures
            r.inv(),
            r.view() == Map::<Seq<u8>, Seq<u8>>::empty(),
            r.spec_page_size() == page_size,
            r.room_used() == 6,
    {
        let io = MemoryPageIo::new(page_size);
        proof {
            let z = read_disk(io.disk(), HEADER_PAGE_ID, page_size as nat);
            assert(z == zero_bytes(page_size as nat));
            assert(z[0] == 0u8);
            assert(parse_header(z) == Err::<crate::page::header::Header, DecodeError>(DecodeError::NotAHeader));
        }
        match Store::open_or_create(io) {
            Ok(store) => {
                StorageEngine { store }
            },
            Err(_) => vstd::pervasive::unreached(),
        }
    }
}

} // verus!
