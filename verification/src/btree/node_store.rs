//! Where a `BTree` keeps its nodes: any store that hands out fresh
//! non-zero pointers, reads back what it stored, and forgets what it is
//! told to delete.
use std::collections::HashMap;
use vstd::prelude::*;

use crate::btree::BNode;
use crate::node::format::node_wf;

verus! {

broadcast use vstd::std_specs::hash::group_hash_axioms;

/// A page store for `BTree` nodes.
pub trait NodeStore: Sized {
    /// The pages held, by pointer.
    spec fn pages(&self) -> Map<u64, Seq<u8>>;

    /// How many more pages `new` can hand out.
    spec fn room(&self) -> nat;

    /// Pointer 0 stands for no page: the store never holds a page there.
    proof fn lemma_no_null(&self)
        ensures
            !self.pages().contains_key(0),
    ;

    /// The node stored at `ptr`.
    fn get(&self, ptr: u64) -> (r: BNode)
        requires
            self.pages().contains_key(ptr),
        ensures
            r@ == self.pages()[ptr],
    ;

    /// Stores `node` under a fresh, non-zero pointer.
    fn new(&mut self, node: BNode) -> (ptr: u64)
        requires
            old(self).room() > 0,
        ensures
            ptr != 0,
            !old(self).pages().contains_key(ptr),
            final(self).pages() == old(self).pages().insert(ptr, node@),
            final(self).room() == old(self).room() - 1,
    ;

    /// Forgets the node at `ptr`.
    fn del(&mut self, ptr: u64)
        requires
            old(self).pages().contains_key(ptr),
        ensures
            final(self).pages() == old(self).pages().remove(ptr),
            final(self).room() >= old(self).room(),
    ;
}

/// An in-memory node store: a map from pointer to node, pointers handed
/// out by an incrementing counter.
pub struct MemNodeStore {
    pages: HashMap<u64, BNode>,
    next_id: u64,
}

impl MemNodeStore {
    /// Every stored pointer is below the next one to hand out.
    pub closed spec fn wf(&self) -> bool {
        &&& 1 <= self.next_id
        &&& forall|k: u64| #[trigger] self.pages@.contains_key(k) ==> 1 <= k < self.next_id
    }

    /// An empty store.
    pub fn new() -> (r: Self)
        ensures
            r.pages() == Map::<u64, Seq<u8>>::empty(),
            r.room() == u64::MAX - 1,
    {
        let r = MemNodeStore { pages: HashMap::new(), next_id: 1 };
        proof {
            assert(r.pages() =~= Map::<u64, Seq<u8>>::empty());
        }
        r
    }
}

impl NodeStore for MemNodeStore {
    closed spec fn pages(&self) -> Map<u64, Seq<u8>> {
        Map::new(|k: u64| k != 0 && self.pages@.contains_key(k), |k: u64| self.pages@[k]@)
    }

    closed spec fn room(&self) -> nat {
        if self.wf() {
            (u64::MAX - self.next_id) as nat
        } else {
            0
        }
    }

    proof fn lemma_no_null(&self) {
    }

    fn get(&self, ptr: u64) -> (r: BNode) {
        match self.pages.get(&ptr) {
            Some(node) => node.copy(),
            None => {
                proof {
                    assert(self.pages@.contains_key(ptr));
                }
                vstd::pervasive::unreached()
            },
        }
    }

    fn new(&mut self, node: BNode) -> (ptr: u64) {
        let ptr = self.next_id;
        self.next_id = self.next_id + 1;
        self.pages.insert(ptr, node);
        proof {
            assert(self.pages() =~= old(self).pages().insert(ptr, node@));
        }
        ptr
    }

    fn del(&mut self, ptr: u64) {
        self.pages.remove(&ptr);
        proof {
            assert(self.pages() =~= old(self).pages().remove(ptr));
        }
    }
}

} // verus!
