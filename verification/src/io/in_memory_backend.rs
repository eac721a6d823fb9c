use std::collections::HashMap;
use vstd::prelude::*;

use crate::io::{read_disk, PageId, PageIo};
use crate::page::codec::{push_zeros, to_vec, zero_bytes};

verus! {

broadcast use vstd::std_specs::hash::group_hash_axioms;

/// An in-memory `PageIo` backend.
#[derive(Debug)]
pub struct MemoryPageIo {
    page_size: usize,
    pages: HashMap<PageId, Vec<u8>>,
}

impl MemoryPageIo {
    pub fn new(page_size: usize) -> (r: Self)
        ensures
            r.spec_page_size() == page_size,
            r.disk() == Map::<PageId, Seq<u8>>::empty(),
    {
        let r = MemoryPageIo { page_size, pages: HashMap::new() };
        proof {
            assert(r.disk() =~= Map::<PageId, Seq<u8>>::empty());
        }
        r
    }

    /// An independent backend holding a copy of these pages as they are
    /// now: later writes through either one are not seen by the other.
    /// To reopen a store on the pages it wrote, close it and open the
    /// backend `Store::close` hands back.
    pub fn duplicate(&self) -> (r: Self)
        ensures
            r.spec_page_size() == self.spec_page_size(),
            r.disk() == self.disk(),
    {
        MemoryPageIo { page_size: self.page_size, pages: self.pages.clone() }
    }
}

impl PageIo for MemoryPageIo {
    closed spec fn spec_page_size(&self) -> nat {
        self.page_size as nat
    }

    closed spec fn disk(&self) -> Map<PageId, Seq<u8>> {
        self.pages@.map_values(|v: Vec<u8>| v@)
    }

    fn page_size(&self) -> (r: usize) {
        self.page_size
    }

    fn read_page(&self, id: PageId) -> (r: Vec<u8>) {
        match self.pages.get(&id) {
            Some(bytes) => to_vec(bytes.as_slice()),
            None => {
                let mut z: Vec<u8> = Vec::new();
                push_zeros(&mut z, self.page_size);
                z
            },
        }
    }

    fn write_page(&mut self, id: PageId, bytes: &[u8]) {
        let v = to_vec(bytes);
        self.pages.insert(id, v);
        proof {
            assert(self.disk() =~= old(self).disk().insert(id, bytes@));
        }
    }

    fn sync(&self) {
    }
}

} // verus!
