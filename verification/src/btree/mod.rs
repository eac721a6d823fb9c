//! A copy-on-write B+Tree over a node store of fixed-size pages: every
//! insert or delete copies the nodes on its root-to-leaf path, splitting
//! nodes that grow past a page and merging nodes that shrink below a
//! quarter of one.
pub mod model;
pub mod node_store;
pub mod removal;
pub mod shape;

use vstd::prelude::*;

use crate::btree::model::{
    agree_on, below, bound_le, found_at, leaf_get, lemma_leaf_get_at, lemma_list_concat,
    lemma_list_frame, lemma_list_get_range, lemma_list_pages, lemma_list_sub, lemma_list_weaken,
    lemma_pages_in_store, lemma_slot, lemma_sub_frame, lemma_sub_get_range, lemma_sub_weaken,
    list_get, list_ok, list_pages, max_key, max_val, next_bound, node_ok, page_size, pages_of,
    slot, slot_ok, sorted, sub_get, sub_ok, type_at, Pages,
};
use crate::btree::node_store::NodeStore;
use crate::btree::shape::{concat_entries, kid_entries, kids_ok};
use crate::node::format::{
    append_kv as fmt_append_kv, append_range as fmt_append_range, cut_to, entries_fit,
    entry_size, fill_leaf_delete, fill_leaf_insert, fill_leaf_update, fill_merge,
    fill_replace_2kid, kv_base, lemma_built_filled, lemma_built_offset, lemma_built_sizes,
    lemma_holds_wf, node_size, node_wf, off_slot, prefix_size, ptr_slot, read_btype, read_key,
    read_kv_pos, read_nbytes, read_nkeys, read_offset, read_ptr_wf, read_val, spec_btype,
    spec_entries, spec_nbytes, spec_nkeys, split_in_three, split_in_two, split_result, splice,
    total_size, write_header, write_offset, write_ptr, Entry, built, lemma_same_sizes,
    lemma_size_concat2, lemma_built_empty, holds, start_node,
};
use crate::page::codec::{le16, le64, push_zeros, to_vec, zero_bytes};
use crate::page::keys::{compare_keys, lemma_lex_order, lex_le, lex_lt, KeyOrder};

verus! {

/// Internal nodes with pointers.
pub const BNODE_NODE: u16 = 1;

/// Leaf nodes with values.
pub const BNODE_LEAF: u16 = 2;

/// 2B type + 2B nkeys.
pub const HEADER: u16 = 4;

pub const BTREE_PAGE_SIZE: usize = 4096;

pub const BTREE_MAX_KEY_SIZE: usize = 1000;

pub const BTREE_MAX_VAL_SIZE: usize = 3000;

/// A B+Tree page, dumped to disk as-is.
///
/// Layout:
/// | type | nkeys | pointers | offsets  | key-values | unused |
/// |  2B  |  2B   | nkeys*8B | nkeys*2B |    ...     |        |
///
/// Each key-value entry: | key_size | val_size | key | val |, 2B/2B/../..
/// The first KV's offset is always 0 and is not stored.
#[derive(Clone)]
pub struct BNode(Vec<u8>);

impl BNode {
    /// The bytes of the page.
    pub closed spec fn view(&self) -> Seq<u8> {
        self.0@
    }

    pub fn new(size: usize) -> (r: Self)
        ensures
            r@ == zero_bytes(size as nat),
    {
        let mut v: Vec<u8> = Vec::new();
        push_zeros(&mut v, size);
        BNode(v)
    }

    /// A node holding the same bytes.
    pub(crate) fn copy(&self) -> (r: Self)
        ensures
            r@ == self@,
    {
        BNode(to_vec(self.0.as_slice()))
    }

    /// The page's bytes.
    pub fn as_bytes(&self) -> (r: &[u8])
        ensures
            r@ == self@,
    {
        self.0.as_slice()
    }

    /// Whether the buffer is empty: how a "not found" result is told
    /// apart from a node.
    pub fn is_empty(&self) -> (r: bool)
        ensures
            r == (self@.len() == 0),
    {
        self.0.len() == 0
    }

    pub fn truncate(&mut self, len: usize)
        ensures
            len <= old(self)@.len() ==> final(self)@ == old(self)@.subrange(0, len as int),
            len > old(self)@.len() ==> final(self)@ == old(self)@,
    {
        cut_to(&mut self.0, len);
    }

    pub fn btype(&self) -> (r: u16)
        requires
            self@.len() >= 2,
        ensures
            r == spec_btype(self@),
    {
        read_btype(self.0.as_slice())
    }

    pub fn nkeys(&self) -> (r: u16)
        requires
            self@.len() >= 4,
        ensures
            r == spec_nkeys(self@),
    {
        read_nkeys(self.0.as_slice())
    }

    pub fn get_ptr(&self, idx: u16) -> (r: u64)
        requires
            node_wf(self@),
            idx < spec_nkeys(self@),
        ensures
            r == spec_entries(self@)[idx as int].0,
    {
        read_ptr_wf(self.0.as_slice(), idx)
    }

    pub fn get_offset(&self, idx: u16) -> (r: u16)
        requires
            node_wf(self@),
            idx <= spec_nkeys(self@),
        ensures
            r == prefix_size(spec_entries(self@), idx as int),
    {
        proof {
            let b = self@;
            lemma_built_sizes(b, spec_btype(b), spec_nkeys(b) as nat, spec_entries(b));
            lemma_built_offset(b, spec_btype(b), spec_nkeys(b) as nat, spec_entries(b), idx as int);
        }
        read_offset(self.0.as_slice(), idx)
    }

    pub fn kv_pos(&self, idx: u16) -> (r: u16)
        requires
            node_wf(self@),
            idx <= spec_nkeys(self@),
        ensures
            r == kv_base(spec_nkeys(self@) as nat) + prefix_size(spec_entries(self@), idx as int),
    {
        proof {
            let b = self@;
            lemma_built_sizes(b, spec_btype(b), spec_nkeys(b) as nat, spec_entries(b));
            lemma_built_offset(b, spec_btype(b), spec_nkeys(b) as nat, spec_entries(b), idx as int);
        }
        read_kv_pos(self.0.as_slice(), idx)
    }

    pub fn get_key(&self, idx: u16) -> (r: &[u8])
        requires
            node_wf(self@),
            idx < spec_nkeys(self@),
        ensures
            r@ == spec_entries(self@)[idx as int].1,
    {
        read_key(self.0.as_slice(), idx)
    }

    pub fn get_val(&self, idx: u16) -> (r: &[u8])
        requires
            node_wf(self@),
            idx < spec_nkeys(self@),
        ensures
            r@ == spec_entries(self@)[idx as int].2,
    {
        read_val(self.0.as_slice(), idx)
    }

    pub fn nbytes(&self) -> (r: u16)
        requires
            node_wf(self@),
        ensures
            r == spec_nbytes(self@),
            r == node_size(spec_entries(self@)),
    {
        read_nbytes(self.0.as_slice())
    }

    pub fn set_header(&mut self, btype: u16, nkeys: u16)
        requires
            old(self)@.len() >= 4,
        ensures
            final(self)@ == le16(btype as nat) + le16(nkeys as nat) + old(self)@.subrange(
                4,
                old(self)@.len() as int,
            ),
    {
        write_header(&mut self.0, btype, nkeys);
    }

    pub fn set_ptr(&mut self, idx: u16, val: u64)
        requires
            old(self)@.len() >= 4,
            idx < spec_nkeys(old(self)@),
            ptr_slot(idx as int) + 8 <= old(self)@.len(),
            ptr_slot(idx as int) <= u16::MAX,
        ensures
            final(self)@ == splice(old(self)@, ptr_slot(idx as int), le64(val)),
    {
        write_ptr(&mut self.0, idx, val);
    }

    pub fn set_offset(&mut self, idx: u16, val: u16)
        requires
            old(self)@.len() >= 4,
            idx >= 1,
            off_slot(spec_nkeys(old(self)@) as nat, idx as int) + 2 <= old(self)@.len(),
            off_slot(spec_nkeys(old(self)@) as nat, idx as int) <= u16::MAX,
        ensures
            final(self)@ == splice(
                old(self)@,
                off_slot(spec_nkeys(old(self)@) as nat, idx as int),
                le16(val as nat),
            ),
    {
        write_offset(&mut self.0, idx, val);
    }
}

/// Linear scan for the largest index whose key is <= `key` (an exact
/// match returns immediately).
fn node_lookup_le(node: &BNode, key: &[u8]) -> (r: u16)
    requires
        node_wf(node@),
        spec_entries(node@).len() >= 1,
        sorted(spec_entries(node@)),
        lex_le(spec_entries(node@)[0].1, key@),
    ensures
        r == slot(spec_entries(node@), key@),
{
    let ghost es = spec_entries(node@);
    proof {
        lemma_lex_order();
        lemma_slot(es, key@);
    }
    let nkeys = node.nkeys();
    let mut i: u16 = 0;
    while i < nkeys
        invariant
            node_wf(node@),
            es == spec_entries(node@),
            nkeys == es.len(),
            nkeys >= 1,
            sorted(es),
            lex_le(es[0].1, key@),
            i <= nkeys,
            forall|j: int| 0 <= j < i ==> lex_lt(#[trigger] es[j].1, key@),
        decreases nkeys - i,
    {
        match compare_keys(node.get_key(i), key) {
            KeyOrder::Equal => {
                proof {
                    if i + 1 < nkeys {
                        assert(lex_lt(es[i as int].1, es[i + 1].1));
                    }
                    assert(slot_ok(es, key@, i as int));
                    lemma_slot(es, key@);
                }
                return i;
            },
            KeyOrder::Greater => {
                proof {
                    if i == 0 {
                        assert(false);
                    }
                    assert(slot_ok(es, key@, i - 1));
                    lemma_slot(es, key@);
                }
                return i - 1;
            },
            KeyOrder::Less => {},
        }
        i += 1;
    }
    proof {
        assert(slot_ok(es, key@, nkeys - 1));
        lemma_slot(es, key@);
    }
    i - 1
}

/// `new` becomes a leaf holding `old`'s entries with `(0, key, val)`
/// inserted at `idx`.
fn leaf_insert(new: &mut BNode, src: &BNode, idx: u16, key: &[u8], val: &[u8])
    requires
        node_wf(src@),
        idx <= spec_nkeys(src@),
        spec_nkeys(src@) < u16::MAX,
        old(new)@.len() >= 4,
        node_size(spec_entries(src@).insert(idx as int, (0u64, key@, val@))) <= old(new)@.len(),
        node_size(spec_entries(src@).insert(idx as int, (0u64, key@, val@))) <= u16::MAX,
    ensures
        node_wf(final(new)@),
        spec_btype(final(new)@) == BNODE_LEAF,
        spec_entries(final(new)@) == spec_entries(src@).insert(idx as int, (0u64, key@, val@)),
{
    fill_leaf_insert(&mut new.0, src.0.as_slice(), idx, key, val);
    proof {
        lemma_holds_wf(new@, BNODE_LEAF, spec_entries(src@).insert(idx as int, (0u64, key@, val@)));
    }
}

/// `new` becomes a leaf holding `old`'s entries with entry `idx`
/// replaced by `(0, key, val)`.
fn leaf_update(new: &mut BNode, src: &BNode, idx: u16, key: &[u8], val: &[u8])
    requires
        node_wf(src@),
        idx < spec_nkeys(src@),
        old(new)@.len() >= 4,
        node_size(spec_entries(src@).update(idx as int, (0u64, key@, val@))) <= old(new)@.len(),
        node_size(spec_entries(src@).update(idx as int, (0u64, key@, val@))) <= u16::MAX,
    ensures
        node_wf(final(new)@),
        spec_btype(final(new)@) == BNODE_LEAF,
        spec_entries(final(new)@) == spec_entries(src@).update(idx as int, (0u64, key@, val@)),
{
    fill_leaf_update(&mut new.0, src.0.as_slice(), idx, key, val);
    proof {
        lemma_holds_wf(new@, BNODE_LEAF, spec_entries(src@).update(idx as int, (0u64, key@, val@)));
    }
}

/// Removes the entry at `idx` from a leaf.
fn leaf_delete(new: &mut BNode, src: &BNode, idx: u16)
    requires
        node_wf(src@),
        idx < spec_nkeys(src@),
        old(new)@.len() >= 4,
        node_size(spec_entries(src@).remove(idx as int)) <= old(new)@.len(),
    ensures
        node_wf(final(new)@),
        spec_btype(final(new)@) == BNODE_LEAF,
        spec_entries(final(new)@) == spec_entries(src@).remove(idx as int),
{
    fill_leaf_delete(&mut new.0, src.0.as_slice(), idx);
    proof {
        lemma_holds_wf(new@, BNODE_LEAF, spec_entries(src@).remove(idx as int));
    }
}

/// Merges `left` and `right` (assumed siblings) into one node: left's
/// entries then right's.
fn node_merge(new: &mut BNode, left: &BNode, right: &BNode)
    requires
        node_wf(left@),
        node_wf(right@),
        old(new)@.len() >= 4,
        node_size(spec_entries(left@) + spec_entries(right@)) <= old(new)@.len(),
        node_size(spec_entries(left@) + spec_entries(right@)) <= u16::MAX,
    ensures
        node_wf(final(new)@),
        spec_btype(final(new)@) == spec_btype(left@),
        spec_entries(final(new)@) == spec_entries(left@) + spec_entries(right@),
{
    fill_merge(&mut new.0, left.0.as_slice(), right.0.as_slice());
    proof {
        lemma_holds_wf(new@, spec_btype(left@), spec_entries(left@) + spec_entries(right@));
    }
}

/// Replaces the 2 adjacent children at `idx` and `idx+1` with a single
/// merged child (`ptr`, `key`).
fn node_replace_2kid(new: &mut BNode, src: &BNode, idx: u16, ptr: u64, key: &[u8])
    requires
        node_wf(src@),
        idx + 1 < spec_nkeys(src@),
        old(new)@.len() >= 4,
        node_size(
            spec_entries(src@).subrange(0, idx as int).push((ptr, key@, Seq::<u8>::empty()))
                + spec_entries(src@).subrange(idx + 2, spec_nkeys(src@) as int),
        ) <= old(new)@.len(),
        node_size(
            spec_entries(src@).subrange(0, idx as int).push((ptr, key@, Seq::<u8>::empty()))
                + spec_entries(src@).subrange(idx + 2, spec_nkeys(src@) as int),
        ) <= u16::MAX,
    ensures
        node_wf(final(new)@),
        spec_btype(final(new)@) == BNODE_NODE,
        spec_entries(final(new)@) == spec_entries(src@).subrange(0, idx as int).push(
            (ptr, key@, Seq::<u8>::empty()),
        ) + spec_entries(src@).subrange(idx + 2, spec_nkeys(src@) as int),
{
    fill_replace_2kid(&mut new.0, src.0.as_slice(), idx, ptr, key);
    proof {
        lemma_holds_wf(
            new@,
            BNODE_NODE,
            spec_entries(src@).subrange(0, idx as int).push((ptr, key@, Seq::<u8>::empty()))
                + spec_entries(src@).subrange(idx + 2, spec_nkeys(src@) as int),
        );
    }
}

/// Splits `old` into 1-3 pages that each fit within BTREE_PAGE_SIZE.
/// Only the first `count` (the returned u16) pieces are meaningful; the
/// rest are unused empty placeholders.
fn node_split3(old: BNode) -> (r: (u16, BNode, BNode, BNode))
    requires
        node_wf(old@),
        entries_fit(spec_entries(old@), BTREE_PAGE_SIZE as nat),
        node_size(spec_entries(old@)) + 3 <= 2 * BTREE_PAGE_SIZE,
    ensures
        split_result(
            r.0,
            r.1@,
            r.2@,
            r.3@,
            spec_btype(old@),
            spec_entries(old@),
            BTREE_PAGE_SIZE as nat,
        ),
{
    let (count, a, b, c) = split_in_three(old.0, BTREE_PAGE_SIZE as u16);
    (count, BNode(a), BNode(b), BNode(c))
}

/// A copy-on-write B+Tree whose nodes live in a `NodeStore`. Pointer 0
/// means the tree is empty.
pub struct BTree<S: NodeStore> {
    root: u64,
    store: S,
    height: Ghost<nat>,
}

/// The pages stored for `kids` under `ptrs`, added to `p`: fresh
/// pointers, all different, nothing else changed.
pub open spec fn stored_kids(p: Pages, p2: Pages, ptrs: Seq<u64>, kids: Seq<Seq<u8>>) -> bool {
    &&& ptrs.len() == kids.len()
    &&& forall|j: int| 0 <= j < ptrs.len() ==> #[trigger] ptrs[j] != 0 && !p.contains_key(ptrs[j])
    &&& forall|i: int, j: int| 0 <= i < j < ptrs.len() ==> #[trigger] ptrs[i] != #[trigger] ptrs[j]
    &&& forall|j: int| 0 <= j < ptrs.len() ==> p2.contains_key(#[trigger] ptrs[j]) && p2[ptrs[j]] == kids[j]
    &&& forall|q: u64| #[trigger] p2.contains_key(q) <==> p.contains_key(q) || ptrs.contains(q)
    &&& forall|q: u64| #[trigger] p.contains_key(q) ==> p2[q] == p[q]
}

/// The bytes of each of `kids`.
pub open spec fn kid_bytes(kids: Seq<BNode>) -> Seq<Seq<u8>> {
    Seq::new(kids.len(), |j: int| kids[j]@)
}

/// Stores each of `kids` and appends an entry pointing at it, keyed by
/// its first key, to `new` (whose first `dst` entries are in place).
fn push_kids<S: NodeStore>(
    store: &mut S,
    new: &mut BNode,
    dst: u16,
    kids: &Vec<BNode>,
    Ghost(t): Ghost<u16>,
    Ghost(n): Ghost<nat>,
    Ghost(es): Ghost<Seq<Entry>>,
) -> (ptrs: Ghost<Seq<u64>>)
    requires
        built(old(new)@, t, n, es),
        es.len() == dst,
        dst + kids@.len() <= n,
        forall|j: int| 0 <= j < kids@.len() ==> node_wf(#[trigger] kids@[j]@) && spec_entries(kids@[j]@).len() >= 1,
        old(store).room() >= kids@.len(),
        kv_base(n) + total_size(es + kid_entries(kid_bytes(kids@), Seq::new(kids@.len(), |j: int| 0u64)))
            <= old(new)@.len(),
        kv_base(n) + total_size(es + kid_entries(kid_bytes(kids@), Seq::new(kids@.len(), |j: int| 0u64)))
            <= u16::MAX,
    ensures
        built(final(new)@, t, n, es + kid_entries(kid_bytes(kids@), ptrs@)),
        final(new)@.len() == old(new)@.len(),
        stored_kids(old(store).pages(), final(store).pages(), ptrs@, kid_bytes(kids@)),
        final(store).room() + kids@.len() == old(store).room(),
{
    let ghost kb = kid_bytes(kids@);
    let ghost zeros = Seq::new(kids@.len(), |j: int| 0u64);
    let ghost p0 = store.pages();
    let ghost mut ptrs: Seq<u64> = Seq::empty();
    let empty: [u8; 0] = [];
    proof {
        assert(empty@ =~= Seq::<u8>::empty());
        assert(es + kid_entries(kb.subrange(0, 0), ptrs) =~= es);
        assert(stored_kids(p0, store.pages(), ptrs, kb.subrange(0, 0))) by {
            assert forall|q: u64| #[trigger] store.pages().contains_key(q) <==> p0.contains_key(q) || ptrs.contains(q) by {}
        }
    }
    let nk = kids.len();
    let mut i: usize = 0;
    while i < nk
        invariant
            nk == kids@.len(),
            kb == kid_bytes(kids@),
            zeros == Seq::new(kids@.len(), |j: int| 0u64),
            i <= nk,
            ptrs.len() == i,
            es.len() == dst,
            dst + nk <= n,
            empty@ == Seq::<u8>::empty(),
            forall|j: int| 0 <= j < kids@.len() ==> node_wf(#[trigger] kids@[j]@) && spec_entries(kids@[j]@).len() >= 1,
            built(new@, t, n, es + kid_entries(kb.subrange(0, i as int), ptrs)),
            new@.len() == old(new)@.len(),
            stored_kids(p0, store.pages(), ptrs, kb.subrange(0, i as int)),
            store.room() + i == old(store).room(),
            old(store).room() >= nk,
            p0 == old(store).pages(),
            kv_base(n) + total_size(es + kid_entries(kb, zeros)) <= new@.len(),
            kv_base(n) + total_size(es + kid_entries(kb, zeros)) <= u16::MAX,
        decreases nk - i,
    {
        let kid = &kids[i];
        let ghost before = store.pages();
        let ghost cur = es + kid_entries(kb.subrange(0, i as int), ptrs);
        let ptr = store.new(kid.copy());
        proof {
            lemma_built_sizes_for_kid(es, kb, zeros, ptrs, i as int, ptr);
            crate::node::format::lemma_built_sizes(new@, t, n, cur);
        }
        fmt_append_kv(
            &mut new.0,
            dst + i as u16,
            ptr,
            kid.get_key(0),
            empty.as_slice(),
            Ghost(t),
            Ghost(n),
            Ghost(cur),
        );
        proof {
            let ptrs2 = ptrs.push(ptr);
            assert(kid_entries(kb.subrange(0, i + 1), ptrs2) =~= kid_entries(kb.subrange(0, i as int), ptrs).push(
                (ptr, spec_entries(kb[i as int])[0].1, Seq::<u8>::empty()),
            ));
            assert(cur.push((ptr, spec_entries(kb[i as int])[0].1, Seq::<u8>::empty())) =~= es + kid_entries(
                kb.subrange(0, i + 1),
                ptrs2,
            ));
            assert(stored_kids(p0, store.pages(), ptrs2, kb.subrange(0, i + 1))) by {
                assert forall|j: int| 0 <= j < ptrs2.len() implies #[trigger] ptrs2[j] != 0 && !p0.contains_key(ptrs2[j]) by {
                    if j < i {
                        assert(ptrs2[j] == ptrs[j]);
                    } else {
                        assert(!before.contains_key(ptr));
                    }
                }
                assert forall|a: int, b: int| 0 <= a < b < ptrs2.len() implies #[trigger] ptrs2[a] != #[trigger] ptrs2[b] by {
                    assert(ptrs2[a] == ptrs[a]);
                    if b < i {
                        assert(ptrs2[b] == ptrs[b]);
                    } else {
                        assert(before.contains_key(ptrs[a]));
                    }
                }
                assert forall|j: int| 0 <= j < ptrs2.len() implies store.pages().contains_key(#[trigger] ptrs2[j])
                    && store.pages()[ptrs2[j]] == kb.subrange(0, i + 1)[j] by {
                    if j < i {
                        assert(ptrs2[j] == ptrs[j]);
                        assert(before.contains_key(ptrs[j]));
                        assert(ptrs[j] != ptr);
                    }
                }
                assert forall|q: u64| #[trigger] store.pages().contains_key(q) <==> p0.contains_key(q) || ptrs2.contains(q) by {
                    if ptrs.contains(q) {
                        let j = choose|j: int| 0 <= j < ptrs.len() && ptrs[j] == q;
                        assert(ptrs2[j] == q);
                    }
                    if ptrs2.contains(q) && q != ptr {
                        let j = choose|j: int| 0 <= j < ptrs2.len() && ptrs2[j] == q;
                        assert(ptrs[j] == q);
                    }
                    if q == ptr {
                        assert(ptrs2[i as int] == q);
                    }
                }
            }
            ptrs = ptrs2;
        }
        i = i + 1;
    }
    proof {
        assert(kb.subrange(0, nk as int) =~= kb);
    }
    Ghost(ptrs)
}

/// The room the next kid's entry takes stays within the room of all of
/// them.
proof fn lemma_built_sizes_for_kid(
    es: Seq<Entry>,
    kb: Seq<Seq<u8>>,
    zeros: Seq<u64>,
    ptrs: Seq<u64>,
    i: int,
    ptr: u64,
)
    requires
        0 <= i < kb.len(),
        zeros.len() == kb.len(),
        ptrs.len() == i,
    ensures
        total_size(es + kid_entries(kb.subrange(0, i), ptrs)) + entry_size(
            (ptr, spec_entries(kb[i])[0].1, Seq::<u8>::empty()),
        ) <= total_size(es + kid_entries(kb, zeros)),
{
    let pre = kid_entries(kb.subrange(0, i), ptrs);
    let all = kid_entries(kb, zeros);
    let e: Entry = (ptr, spec_entries(kb[i])[0].1, Seq::<u8>::empty());
    let z = all.subrange(0, i + 1);
    assert forall|j: int| 0 <= j < i + 1 implies entry_size(#[trigger] pre.push(e)[j]) == entry_size(z[j]) by {
        if j < i {
            assert(pre[j].1 == spec_entries(kb[j])[0].1);
        }
    }
    lemma_same_sizes(pre.push(e), z);
    crate::node::format::lemma_prefix_push(pre, e, pre.len() as int);
    crate::node::format::lemma_total_concat(es, pre);
    crate::node::format::lemma_total_concat(es, all);
    crate::node::format::lemma_prefix_subrange(all, 0, i + 1, i + 1);
    crate::node::format::lemma_prefix_mono(all, i + 1, all.len() as int);
}

/// Replaces child `idx` of `src` with one child per node of `kids`, each
/// stored afresh and keyed by its first key.
#[verifier::rlimit(50)]
fn node_replace_kid_n<S: NodeStore>(
    store: &mut S,
    new: &mut BNode,
    src: &BNode,
    idx: u16,
    kids: &Vec<BNode>,
) -> (ptrs: Ghost<Seq<u64>>)
    requires
        node_wf(src@),
        idx < spec_nkeys(src@),
        old(new)@.len() >= 4,
        kids@.len() >= 1,
        forall|j: int| 0 <= j < kids@.len() ==> node_wf(#[trigger] kids@[j]@) && spec_entries(kids@[j]@).len() >= 1,
        old(store).room() >= kids@.len(),
        node_size(
            spec_entries(src@).subrange(0, idx as int) + kid_entries(
                kid_bytes(kids@),
                Seq::new(kids@.len(), |j: int| 0u64),
            ) + spec_entries(src@).subrange(idx + 1, spec_nkeys(src@) as int),
        ) <= old(new)@.len(),
        node_size(
            spec_entries(src@).subrange(0, idx as int) + kid_entries(
                kid_bytes(kids@),
                Seq::new(kids@.len(), |j: int| 0u64),
            ) + spec_entries(src@).subrange(idx + 1, spec_nkeys(src@) as int),
        ) <= u16::MAX,
    ensures
        node_wf(final(new)@),
        spec_btype(final(new)@) == BNODE_NODE,
        spec_entries(final(new)@) == spec_entries(src@).subrange(0, idx as int) + kid_entries(
            kid_bytes(kids@),
            ptrs@,
        ) + spec_entries(src@).subrange(idx + 1, spec_nkeys(src@) as int),
        stored_kids(old(store).pages(), final(store).pages(), ptrs@, kid_bytes(kids@)),
        final(store).room() + kids@.len() == old(store).room(),
        node_size(spec_entries(final(new)@)) == node_size(
            spec_entries(src@).subrange(0, idx as int) + kid_entries(
                kid_bytes(kids@),
                Seq::new(kids@.len(), |j: int| 0u64),
            ) + spec_entries(src@).subrange(idx + 1, spec_nkeys(src@) as int),
        ),
{
    let ghost es = spec_entries(src@);
    let ghost kb = kid_bytes(kids@);
    let ghost zeros = Seq::new(kids@.len(), |j: int| 0u64);
    let ghost a = es.subrange(0, idx as int);
    let ghost c = es.subrange(idx + 1, es.len() as int);
    let ghost kz = kid_entries(kb, zeros);
    let ghost total_n = (es.len() + kids@.len() - 1) as nat;
    proof {
        crate::node::format::lemma_wf_reads(src@);
        lemma_size_concat2(a + kz, c);
        lemma_size_concat2(a, kz);
        crate::node::format::lemma_total_concat(a + kz, c);
        crate::node::format::lemma_total_concat(a, kz);
        assert(Seq::<Entry>::empty() + a =~= a);
        assert(es.subrange(0, idx as int) == a);
    }
    let inc = kids.len() as u16;
    let n = src.nkeys();
    start_node(&mut new.0, BNODE_NODE, n + inc - 1, Ghost(total_size(a + kz + c)));
    fmt_append_range(
        &mut new.0,
        src.0.as_slice(),
        0,
        0,
        idx,
        Ghost(BNODE_NODE),
        Ghost(total_n),
        Ghost(Seq::empty()),
    );
    let ptrs = push_kids(store, new, idx, kids, Ghost(BNODE_NODE), Ghost(total_n), Ghost(a));
    let ghost m = kid_entries(kb, ptrs@);
    proof {
        assert forall|j: int| 0 <= j < m.len() implies entry_size(#[trigger] m[j]) == entry_size(kz[j]) by {}
        lemma_same_sizes(m, kz);
        crate::node::format::lemma_total_concat(a, m);
        crate::node::format::lemma_total_concat(a + m, c);
    }
    fmt_append_range(
        &mut new.0,
        src.0.as_slice(),
        idx + inc,
        idx + 1,
        n - (idx + 1),
        Ghost(BNODE_NODE),
        Ghost(total_n),
        Ghost(a + m),
    );
    proof {
        lemma_holds_wf(new@, BNODE_NODE, a + m + c);
    }
    ptrs
}

impl<S: NodeStore> BTree<S> {
    /// The root pointer (0: empty tree).
    pub closed spec fn spec_root(&self) -> u64 {
        self.root
    }

    /// Height of the tree: 0 when the root is a leaf.
    pub closed spec fn height(&self) -> nat {
        self.height@
    }

    /// The node store.
    pub closed spec fn spec_store(&self) -> S {
        self.store
    }

    /// The tree is empty, or its root heads a well-shaped tree whose
    /// first key is the empty sentinel.
    pub closed spec fn wf(&self) -> bool {
        self.root == 0 || sub_ok(self.store.pages(), self.root, self.height@, Seq::empty(), None)
    }

    /// What a lookup of `key` finds, the sentinel included.
    pub closed spec fn lookup(&self, key: Seq<u8>) -> Option<Seq<u8>> {
        if self.root == 0 {
            None
        } else {
            sub_get(self.store.pages(), self.root, self.height@, key)
        }
    }

    /// The key-value map the tree holds (the empty sentinel key aside).
    pub open spec fn view(&self) -> Map<Seq<u8>, Seq<u8>> {
        Map::new(|k: Seq<u8>| k.len() > 0 && self.lookup(k) is Some, |k: Seq<u8>| self.lookup(k).unwrap())
    }

    /// A lookup of a non-empty key finds exactly what the tree's map
    /// holds under it: what `insert` wrote last, nothing once `delete`
    /// removed it.
    pub proof fn lemma_lookup_view(&self, key: Seq<u8>)
        requires
            key.len() > 0,
        ensures
            self.lookup(key) == if self.view().contains_key(key) {
                Some(self.view()[key])
            } else {
                None
            },
    {
    }
}

/// Every entry of a valid node fits a page on its own.
proof fn lemma_entries_fit(p: Pages, es: Seq<Entry>, h: nat, hi: Option<Seq<u8>>)
    requires
        list_ok(p, es, h, hi),
    ensures
        entries_fit(es, BTREE_PAGE_SIZE as nat),
        forall|i: int| 0 <= i < es.len() ==> entry_size(#[trigger] es[i]) <= 4 + max_key() + max_val(),
{
    crate::btree::model::lemma_list_ok_facts(p, es, h, hi);
}

/// Inserts `key` into the subtree headed by `node` (of height `h`,
/// covering `[lo, hi)`), copying the nodes on the path: returns the new
/// node for `node`'s place, possibly too big for one page.
#[verifier::rlimit(60)]
fn tree_insert<S: NodeStore>(
    tree: &mut BTree<S>,
    node: &BNode,
    key: &[u8],
    val: &[u8],
    Ghost(h): Ghost<nat>,
    Ghost(lo): Ghost<Seq<u8>>,
    Ghost(hi): Ghost<Option<Seq<u8>>>,
) -> (r: BNode)
    requires
        node_ok(old(tree).store.pages(), node@, h, lo, hi),
        spec_nbytes(node@) <= page_size(),
        lex_le(lo, key@),
        below(key@, hi),
        key@.len() <= max_key(),
        val@.len() <= max_val(),
        old(tree).store.room() >= 3 * h,
    ensures
        final(tree).root == old(tree).root,
        final(tree).height == old(tree).height,
        node_wf(r@),
        spec_btype(r@) == type_at(h),
        spec_entries(r@).len() >= 1,
        spec_entries(r@)[0].1 == lo,
        list_ok(final(tree).store.pages(), spec_entries(r@), h, hi),
        node_size(spec_entries(r@)) + 3 <= 2 * BTREE_PAGE_SIZE,
        forall|k: Seq<u8>|
            #[trigger] list_get(final(tree).store.pages(), spec_entries(r@), h, k) == if k == key@ {
                Some(val@)
            } else {
                list_get(old(tree).store.pages(), spec_entries(node@), h, k)
            },
        forall|q: u64|
            #[trigger] old(tree).store.pages().contains_key(q) && !list_pages(
                old(tree).store.pages(),
                spec_entries(node@),
                h,
            ).contains(q) ==> final(tree).store.pages().contains_key(q) && final(tree).store.pages()[q]
                == old(tree).store.pages()[q],
        forall|q: u64| #[trigger]
            list_pages(final(tree).store.pages(), spec_entries(r@), h).contains(q) ==> list_pages(
                old(tree).store.pages(),
                spec_entries(node@),
                h,
            ).contains(q) || !old(tree).store.pages().contains_key(q),
        final(tree).store.room() + 3 * h >= old(tree).store.room(),
    decreases h,
{
    let ghost p = tree.store.pages();
    let ghost es = spec_entries(node@);
    proof {
        crate::btree::model::lemma_list_sorted(p, es, h, hi);
        lemma_holds_wf(node@, spec_btype(node@), es);
    }
    let mut new = BNode::new(2 * BTREE_PAGE_SIZE);
    let idx = node_lookup_le(node, key);
    proof {
        lemma_slot(es, key@);
    }
    if node.btype() == BNODE_LEAF {
        if crate::page::codec::bytes_eq(node.get_key(idx), key) {
            proof {
                crate::node::format::lemma_size_edits(es, idx as int, (0u64, key@, val@));
                crate::btree::shape::lemma_leaf_update(p, es, hi, key@, val@, idx as int);
            }
            leaf_update(&mut new, node, idx, key, val);
        } else {
            proof {
                crate::node::format::lemma_size_edits(es, idx + 1, (0u64, key@, val@));
                crate::btree::shape::lemma_leaf_insert(p, es, hi, key@, val@, idx as int);
                crate::btree::model::lemma_list_empty(p, 0, hi);
            }
            leaf_insert(&mut new, node, idx + 1, key, val);
        }
        proof {
            assert(list_pages(p, spec_entries(new@), 0) =~= Set::<u64>::empty());
        }
        new
    } else {
        let kptr = node.get_ptr(idx);
        let ghost hc = (h - 1) as nat;
        let ghost clo = es[idx as int].1;
        let ghost chi = next_bound(es, idx as int, hi);
        proof {
            crate::btree::model::lemma_list_child(p, es, h, hi, idx as int);
        }
        let child = tree.store.get(kptr);
        let knode = tree_insert(tree, &child, key, val, Ghost(hc), Ghost(clo), Ghost(chi));
        let ghost p1 = tree.store.pages();
        let ghost ke = spec_entries(knode@);
        proof {
            lemma_entries_fit(p1, ke, hc, chi);
        }
        let (nsplit, s0, s1, s2) = node_split3(knode);
        tree.store.del(kptr);
        let mut kids: Vec<BNode> = Vec::new();
        kids.push(s0);
        if nsplit > 1 {
            kids.push(s1);
        }
        if nsplit > 2 {
            kids.push(s2);
        }
        let ghost p2 = tree.store.pages();
        proof {
            assert(kid_bytes(kids@) =~= pieces(nsplit, s0@, s1@, s2@));
            lemma_split_kids(nsplit, s0@, s1@, s2@, type_at(hc), ke, hc, p1, chi);
            lemma_kids_room(p, es, h, hi, idx as int, kid_bytes(kids@), kids@.len() as int);
        }
        let ptrs = node_replace_kid_n(&mut tree.store, &mut new, node, idx, &kids);
        proof {
            assert(rebuilt_pre(p, p1, p2, tree.store.pages(), es, h, hi, idx as int, kptr, ke, kid_bytes(kids@), ptrs@));
            lemma_insert_rebuilt(p, p1, p2, tree.store.pages(), es, h, lo, hi, idx as int, kptr, ke, kid_bytes(kids@), ptrs@, key@, val@);
        }
        new
    }
}

/// The first `count` of three pieces.
pub open spec fn pieces(count: u16, b0: Seq<u8>, b1: Seq<u8>, b2: Seq<u8>) -> Seq<Seq<u8>> {
    if count == 1 {
        seq![b0]
    } else if count == 2 {
        seq![b0, b1]
    } else {
        seq![b0, b1, b2]
    }
}

/// The pieces of a split are valid kids holding the split node's entries.
proof fn lemma_split_kids(
    count: u16,
    b0: Seq<u8>,
    b1: Seq<u8>,
    b2: Seq<u8>,
    t: u16,
    ke: Seq<Entry>,
    hc: nat,
    p1: Pages,
    chi: Option<Seq<u8>>,
)
    requires
        split_result(count, b0, b1, b2, t, ke, BTREE_PAGE_SIZE as nat),
        t == type_at(hc),
        ke.len() >= 1,
        list_ok(p1, ke, hc, chi),
    ensures
        1 <= pieces(count, b0, b1, b2).len() <= 3,
        pieces(count, b0, b1, b2).len() == count,
        kids_ok(pieces(count, b0, b1, b2), hc),
        concat_entries(pieces(count, b0, b1, b2)) == ke,
        forall|j: int|
            0 <= j < count ==> spec_entries(#[trigger] pieces(count, b0, b1, b2)[j])[0].1.len() <= max_key(),
{
    let kb = pieces(count, b0, b1, b2);
    if count == 1 {
        lemma_split_kids1(b0, t, ke, hc);
        crate::btree::model::lemma_list_key_len(p1, ke, hc, chi, 0);
        assert(kb =~= seq![b0]);
    } else if count == 2 {
        lemma_split_kids2(b0, b1, t, ke, hc);
        crate::btree::model::lemma_list_key_len(p1, ke, hc, chi, 0);
        crate::btree::model::lemma_list_key_len(p1, ke, hc, chi, spec_entries(b0).len() as int);
        assert(kb =~= seq![b0, b1]);
    } else {
        lemma_split_kids3(b0, b1, b2, t, ke, hc);
        crate::btree::model::lemma_list_key_len(p1, ke, hc, chi, 0);
        crate::btree::model::lemma_list_key_len(p1, ke, hc, chi, spec_entries(b0).len() as int);
        crate::btree::model::lemma_list_key_len(
            p1,
            ke,
            hc,
            chi,
            spec_entries(b0).len() + spec_entries(b1).len() as int,
        );
        assert(kb =~= seq![b0, b1, b2]);
    }
}

proof fn lemma_split_kids1(b0: Seq<u8>, t: u16, ke: Seq<Entry>, hc: nat)
    requires
        crate::node::format::piece_fits(b0, t, BTREE_PAGE_SIZE as nat),
        spec_entries(b0) == ke,
        t == type_at(hc),
        ke.len() >= 1,
    ensures
        kids_ok(seq![b0], hc),
        concat_entries(seq![b0]) == ke,
        spec_entries(seq![b0][0])[0] == ke[0],
{
    let kb = seq![b0];
    assert(kb.drop_last() =~= Seq::<Seq<u8>>::empty());
    assert(concat_entries(kb.drop_last()) =~= Seq::<Entry>::empty());
    assert(concat_entries(kb) =~= spec_entries(b0));
}

proof fn lemma_split_kids2(b0: Seq<u8>, b1: Seq<u8>, t: u16, ke: Seq<Entry>, hc: nat)
    requires
        crate::node::format::piece_fits(b0, t, BTREE_PAGE_SIZE as nat),
        crate::node::format::piece_fits(b1, t, BTREE_PAGE_SIZE as nat),
        spec_entries(b0) + spec_entries(b1) == ke,
        spec_nkeys(b0) >= 1,
        spec_nkeys(b1) >= 1,
        t == type_at(hc),
    ensures
        kids_ok(seq![b0, b1], hc),
        concat_entries(seq![b0, b1]) == ke,
        spec_entries(b0)[0] == ke[0],
        spec_entries(b1)[0] == ke[spec_entries(b0).len() as int],
{
    let kb = seq![b0, b1];
    let k1 = seq![b0];
    assert(kb.drop_last() =~= k1);
    assert(k1.drop_last() =~= Seq::<Seq<u8>>::empty());
    assert(concat_entries(k1.drop_last()) =~= Seq::<Entry>::empty());
    assert(concat_entries(k1) =~= spec_entries(b0));
    assert(concat_entries(kb) =~= spec_entries(b0) + spec_entries(b1));
}

proof fn lemma_split_kids3(b0: Seq<u8>, b1: Seq<u8>, b2: Seq<u8>, t: u16, ke: Seq<Entry>, hc: nat)
    requires
        crate::node::format::piece_fits(b0, t, BTREE_PAGE_SIZE as nat),
        crate::node::format::piece_fits(b1, t, BTREE_PAGE_SIZE as nat),
        crate::node::format::piece_fits(b2, t, BTREE_PAGE_SIZE as nat),
        spec_entries(b0) + spec_entries(b1) + spec_entries(b2) == ke,
        spec_nkeys(b0) >= 1,
        spec_nkeys(b1) >= 1,
        spec_nkeys(b2) >= 1,
        t == type_at(hc),
    ensures
        kids_ok(seq![b0, b1, b2], hc),
        concat_entries(seq![b0, b1, b2]) == ke,
        spec_entries(b0)[0] == ke[0],
        spec_entries(b1)[0] == ke[spec_entries(b0).len() as int],
        spec_entries(b2)[0] == ke[spec_entries(b0).len() + spec_entries(b1).len() as int],
{
    let kb = seq![b0, b1, b2];
    let k1 = seq![b0];
    let k2 = seq![b0, b1];
    assert(kb.drop_last() =~= k2);
    assert(k2.drop_last() =~= k1);
    assert(k1.drop_last() =~= Seq::<Seq<u8>>::empty());
    assert(concat_entries(k1.drop_last()) =~= Seq::<Entry>::empty());
    assert(concat_entries(k1) =~= spec_entries(b0));
    assert(concat_entries(k2) =~= spec_entries(b0) + spec_entries(b1));
    assert(concat_entries(kb) =~= spec_entries(b0) + spec_entries(b1) + spec_entries(b2));
}

/// Replacing one entry of a page-sized node by up to three separators
/// leaves a node of less than two pages.
proof fn lemma_kids_room(
    p: Pages,
    es: Seq<Entry>,
    h: nat,
    hi: Option<Seq<u8>>,
    idx: int,
    kb: Seq<Seq<u8>>,
    count: int,
)
    requires
        list_ok(p, es, h, hi),
        node_size(es) <= page_size(),
        0 <= idx < es.len(),
        kb.len() == count,
        1 <= count <= 3,
        forall|j: int| 0 <= j < count ==> spec_entries(#[trigger] kb[j])[0].1.len() <= max_key(),
    ensures
        node_size(
            es.subrange(0, idx) + kid_entries(kb, Seq::new(kb.len(), |j: int| 0u64)) + es.subrange(
                idx + 1,
                es.len() as int,
            ),
        ) + 3 <= 2 * BTREE_PAGE_SIZE,
{
    let a = es.subrange(0, idx);
    let c = es.subrange(idx + 1, es.len() as int);
    let kz = kid_entries(kb, Seq::new(kb.len(), |j: int| 0u64));
    let one = seq![es[idx]];
    assert(es =~= a + one + c);
    lemma_size_concat2(a + one, c);
    lemma_size_concat2(a, one);
    lemma_size_concat2(a + kz, c);
    lemma_size_concat2(a, kz);
    assert(crate::node::format::prefix_size(one, 0) == 0);
    assert(crate::node::format::prefix_size(kz, 0) == 0);
    assert(crate::node::format::prefix_size(kz, 1) <= 4 + max_key()) by {
        assert(kz[0].1 == spec_entries(kb[0])[0].1);
    }
    if count >= 2 {
        assert(crate::node::format::prefix_size(kz, 2) <= 2 * (4 + max_key())) by {
            assert(kz[1].1 == spec_entries(kb[1])[0].1);
        }
    }
    if count >= 3 {
        assert(crate::node::format::prefix_size(kz, 3) <= 3 * (4 + max_key())) by {
            assert(kz[2].1 == spec_entries(kb[2])[0].1);
        }
    }
}

/// The facts shared by the steps of `lemma_insert_rebuilt`.
pub open spec fn rebuilt_pre(
    p: Pages,
    p1: Pages,
    p2: Pages,
    p3: Pages,
    es: Seq<Entry>,
    h: nat,
    hi: Option<Seq<u8>>,
    idx: int,
    kptr: u64,
    ke: Seq<Entry>,
    kb: Seq<Seq<u8>>,
    ptrs: Seq<u64>,
) -> bool {
    &&& h >= 1
    &&& list_ok(p, es, h, hi)
    &&& 0 <= idx < es.len()
    &&& es[idx].0 == kptr
    &&& sub_ok(p, kptr, (h - 1) as nat, es[idx].1, next_bound(es, idx, hi))
    &&& list_ok(p1, ke, (h - 1) as nat, next_bound(es, idx, hi))
    &&& ke.len() >= 1
    &&& lex_le(es[idx].1, ke[0].1)
    &&& forall|q: u64|
        #[trigger] p.contains_key(q) && !list_pages(p, spec_entries(p[kptr]), (h - 1) as nat).contains(q)
            ==> p1.contains_key(q) && p1[q] == p[q]
    &&& forall|q: u64| #[trigger]
        list_pages(p1, ke, (h - 1) as nat).contains(q) ==> list_pages(p, spec_entries(p[kptr]), (h - 1) as nat).contains(q)
            || !p.contains_key(q)
    &&& p2 == p1.remove(kptr)
    &&& stored_kids(p2, p3, ptrs, kb)
    &&& kb.len() >= 1
    &&& kids_ok(kb, (h - 1) as nat)
    &&& concat_entries(kb) == ke
}

/// The new kids form a valid run one level up, on pages that are the
/// old child's or new.
proof fn lemma_rebuilt_kids(
    p: Pages,
    p1: Pages,
    p2: Pages,
    p3: Pages,
    es: Seq<Entry>,
    h: nat,
    hi: Option<Seq<u8>>,
    idx: int,
    kptr: u64,
    ke: Seq<Entry>,
    kb: Seq<Seq<u8>>,
    ptrs: Seq<u64>,
)
    requires
        rebuilt_pre(p, p1, p2, p3, es, h, hi, idx, kptr, ke, kb, ptrs),
    ensures
        list_ok(p3, kid_entries(kb, ptrs), h, next_bound(es, idx, hi)),
        kid_entries(kb, ptrs)[0].1 == ke[0].1,
        kid_entries(kb, ptrs).len() >= 1,
        forall|k: Seq<u8>|
            #[trigger] list_get(p3, kid_entries(kb, ptrs), h, k) == list_get(p1, ke, (h - 1) as nat, k),
        forall|q: u64| #[trigger]
            list_pages(p3, kid_entries(kb, ptrs), h).contains(q) ==> pages_of(p, kptr, (h - 1) as nat).contains(q)
                || !p.contains_key(q),
{
    let hc = (h - 1) as nat;
    let ce = spec_entries(p[kptr]);
    let chi = next_bound(es, idx, hi);
    let m = kid_entries(kb, ptrs);
    crate::btree::shape::lemma_list_pages_in_store(p1, ke, hc, chi);
    assert(!list_pages(p, ce, hc).contains(kptr));
    assert(p.contains_key(kptr));
    assert(pages_of(p, kptr, hc) == set![kptr].union(list_pages(p, ce, hc)));
    assert forall|j: int| 0 <= j < kb.len() implies !list_pages(p1, ke, hc).contains(#[trigger] ptrs[j]) by {
        if list_pages(p1, ke, hc).contains(ptrs[j]) {
            assert(p1.contains_key(ptrs[j]));
            if ptrs[j] == kptr {
                assert(list_pages(p, ce, hc).contains(kptr) || !p.contains_key(kptr));
            } else {
                assert(p2.contains_key(ptrs[j]));
            }
        }
    }
    assert forall|j: int| 0 <= j < kb.len() implies p3.contains_key(#[trigger] ptrs[j]) && p3[ptrs[j]] == kb[j] by {}
    assert(agree_on(p1, p3, list_pages(p1, ke, hc))) by {
        assert forall|q: u64| #[trigger] list_pages(p1, ke, hc).contains(q) implies p1.contains_key(q)
            == p3.contains_key(q) && p1[q] == p3[q] by {
            assert(p1.contains_key(q));
            if q == kptr {
                assert(list_pages(p, ce, hc).contains(kptr) || !p.contains_key(kptr));
            }
            assert(p2.contains_key(q));
        }
    }
    crate::btree::shape::lemma_kids(p1, p3, kb, ptrs, hc, chi);
    assert forall|q: u64| #[trigger] list_pages(p3, m, h).contains(q) implies pages_of(p, kptr, hc).contains(q)
        || !p.contains_key(q) by {
        if list_pages(p1, ke, hc).contains(q) {
        } else {
            assert(ptrs.contains(q));
            let j = choose|j: int| 0 <= j < ptrs.len() && ptrs[j] == q;
            assert(!p2.contains_key(ptrs[j]));
            if p.contains_key(q) && q != kptr {
                if !list_pages(p, ce, hc).contains(q) {
                    assert(p1.contains_key(q));
                }
            }
        }
    }
}

/// Off the rebuilt child, the store is as before.
proof fn lemma_rebuilt_frame(
    p: Pages,
    p1: Pages,
    p2: Pages,
    p3: Pages,
    es: Seq<Entry>,
    h: nat,
    hi: Option<Seq<u8>>,
    idx: int,
    kptr: u64,
    ke: Seq<Entry>,
    kb: Seq<Seq<u8>>,
    ptrs: Seq<u64>,
)
    requires
        rebuilt_pre(p, p1, p2, p3, es, h, hi, idx, kptr, ke, kb, ptrs),
    ensures
        forall|q: u64| #[trigger] p.contains_key(q) && !pages_of(p, kptr, (h - 1) as nat).contains(q) ==> p3.contains_key(q)
            && p3[q] == p[q],
        list_pages(p, es.subrange(idx, idx + 1), h) == pages_of(p, kptr, (h - 1) as nat),
        agree_on(p, p3, list_pages(p, es.subrange(0, idx), h)),
        agree_on(p, p3, list_pages(p, es.subrange(idx + 1, es.len() as int), h)),
{
    let hc = (h - 1) as nat;
    let ce = spec_entries(p[kptr]);
    assert(!list_pages(p, ce, hc).contains(kptr));
    assert(pages_of(p, kptr, hc) == set![kptr].union(list_pages(p, ce, hc)));
    assert(list_pages(p, es.subrange(idx, idx + 1), h) == pages_of(p, kptr, hc)) by {
        let one = es.subrange(idx, idx + 1);
        assert(one.drop_last() =~= Seq::<Entry>::empty());
        assert(one.last() == es[idx]);
        assert(list_pages(p, one.drop_last(), h) =~= Set::<u64>::empty());
        assert(list_pages(p, one, h) =~= pages_of(p, kptr, hc));
    }
    crate::btree::shape::lemma_runs3(p, es, h, hi, idx, idx + 1);
    crate::btree::shape::lemma_list_pages_in_store(p, es, h, hi);
    assert forall|q: u64| #[trigger] p.contains_key(q) && !pages_of(p, kptr, hc).contains(q) implies p3.contains_key(q)
        && p3[q] == p[q] by {
        assert(!list_pages(p, ce, hc).contains(q));
        assert(q != kptr);
        assert(p2.contains_key(q));
    }
    assert(agree_on(p, p3, list_pages(p, es.subrange(0, idx), h))) by {
        assert forall|q: u64| #[trigger] list_pages(p, es.subrange(0, idx), h).contains(q) implies p.contains_key(q)
            == p3.contains_key(q) && p[q] == p3[q] by {
            assert(list_pages(p, es, h).contains(q));
            assert(!list_pages(p, es.subrange(idx, idx + 1), h).contains(q));
        }
    }
    assert(agree_on(p, p3, list_pages(p, es.subrange(idx + 1, es.len() as int), h))) by {
        assert forall|q: u64| #[trigger] list_pages(p, es.subrange(idx + 1, es.len() as int), h).contains(q) implies p.contains_key(
            q,
        ) == p3.contains_key(q) && p[q] == p3[q] by {
            assert(list_pages(p, es, h).contains(q));
            assert(!list_pages(p, es.subrange(idx, idx + 1), h).contains(q));
        }
    }
}

/// A node rebuilt after its child `idx` was replaced by the pieces
/// `kb`, which hold what the child held with `key` mapped to `res`:
/// valid, holding the old contents with `key` mapped to `res`, on pages
/// that are the old node's or new.
pub(crate) proof fn lemma_rebuilt(
    p: Pages,
    p1: Pages,
    p2: Pages,
    p3: Pages,
    es: Seq<Entry>,
    h: nat,
    hi: Option<Seq<u8>>,
    idx: int,
    kptr: u64,
    ke: Seq<Entry>,
    kb: Seq<Seq<u8>>,
    ptrs: Seq<u64>,
    key: Seq<u8>,
    res: Option<Seq<u8>>,
)
    requires
        rebuilt_pre(p, p1, p2, p3, es, h, hi, idx, kptr, ke, kb, ptrs),
        slot_ok(es, key, idx),
        below(key, hi),
        forall|k: Seq<u8>|
            #[trigger] list_get(p1, ke, (h - 1) as nat, k) == if k == key {
                res
            } else {
                list_get(p, spec_entries(p[kptr]), (h - 1) as nat, k)
            },
    ensures
        list_ok(p3, es.subrange(0, idx) + kid_entries(kb, ptrs) + es.subrange(idx + 1, es.len() as int), h, hi),
        (es.subrange(0, idx) + kid_entries(kb, ptrs) + es.subrange(idx + 1, es.len() as int))[0].1 == if idx > 0 {
            es[0].1
        } else {
            ke[0].1
        },
        forall|k: Seq<u8>|
            #[trigger] list_get(
                p3,
                es.subrange(0, idx) + kid_entries(kb, ptrs) + es.subrange(idx + 1, es.len() as int),
                h,
                k,
            ) == if k == key {
                res
            } else {
                list_get(p, es, h, k)
            },
        forall|q: u64|
            #[trigger] p.contains_key(q) && !list_pages(p, es, h).contains(q) ==> p3.contains_key(q) && p3[q]
                == p[q],
        forall|q: u64| #[trigger]
            list_pages(p3, es.subrange(0, idx) + kid_entries(kb, ptrs) + es.subrange(idx + 1, es.len() as int), h).contains(q)
                ==> list_pages(p, es, h).contains(q) || !p.contains_key(q),
{
    let hc = (h - 1) as nat;
    let chi = next_bound(es, idx, hi);
    let m = kid_entries(kb, ptrs);
    lemma_rebuilt_kids(p, p1, p2, p3, es, h, hi, idx, kptr, ke, kb, ptrs);
    lemma_rebuilt_frame(p, p1, p2, p3, es, h, hi, idx, kptr, ke, kb, ptrs);
    crate::btree::shape::lemma_splice(p, p3, es, h, hi, idx, idx + 1, m);
    let nn = es.subrange(0, idx) + m + es.subrange(idx + 1, es.len() as int);
    crate::btree::model::lemma_list_ok_facts(p, es, h, hi);
    assert forall|k: Seq<u8>| #[trigger] list_get(p3, nn, h, k) == if k == key {
        res
    } else {
        list_get(p, es, h, k)
    } by {
        if lex_le(es[idx].1, k) && below(k, chi) {
            crate::btree::model::lemma_list_sorted(p, es, h, hi);
            if idx > 0 {
                assert(lex_lt(es[0].1, es[idx].1));
                if es[idx].1 != k {
                    crate::page::keys::lemma_lex_transitive(es[0].1, es[idx].1, k);
                }
            }
            lemma_slot(es, k);
            assert(slot_ok(es, k, idx));
            assert(list_get(p, es, h, k) == sub_get(p, kptr, hc, k));
        } else if k == key {
            assert(false);
        }
    }
    lemma_list_pages(p, es, h);
    assert forall|q: u64| #[trigger] p.contains_key(q) && !list_pages(p, es, h).contains(q) implies p3.contains_key(q)
        && p3[q] == p[q] by {
        if pages_of(p, kptr, hc).contains(q) {
            assert(list_pages(p, es, h).contains(q));
        }
    }
}

/// The node rebuilt by `tree_insert` after its child `idx` was replaced
/// by the pieces `kb`: valid, holding the old contents with `key` set,
/// on pages that are the old node's or new.
proof fn lemma_insert_rebuilt(
    p: Pages,
    p1: Pages,
    p2: Pages,
    p3: Pages,
    es: Seq<Entry>,
    h: nat,
    lo: Seq<u8>,
    hi: Option<Seq<u8>>,
    idx: int,
    kptr: u64,
    ke: Seq<Entry>,
    kb: Seq<Seq<u8>>,
    ptrs: Seq<u64>,
    key: Seq<u8>,
    val: Seq<u8>,
)
    requires
        rebuilt_pre(p, p1, p2, p3, es, h, hi, idx, kptr, ke, kb, ptrs),
        ke[0].1 == es[idx].1,
        es[0].1 == lo,
        slot_ok(es, key, idx),
        below(key, hi),
        forall|k: Seq<u8>|
            #[trigger] list_get(p1, ke, (h - 1) as nat, k) == if k == key {
                Some(val)
            } else {
                list_get(p, spec_entries(p[kptr]), (h - 1) as nat, k)
            },
    ensures
        list_ok(p3, es.subrange(0, idx) + kid_entries(kb, ptrs) + es.subrange(idx + 1, es.len() as int), h, hi),
        (es.subrange(0, idx) + kid_entries(kb, ptrs) + es.subrange(idx + 1, es.len() as int))[0].1 == lo,
        forall|k: Seq<u8>|
            #[trigger] list_get(
                p3,
                es.subrange(0, idx) + kid_entries(kb, ptrs) + es.subrange(idx + 1, es.len() as int),
                h,
                k,
            ) == if k == key {
                Some(val)
            } else {
                list_get(p, es, h, k)
            },
        forall|q: u64|
            #[trigger] p.contains_key(q) && !list_pages(p, es, h).contains(q) ==> p3.contains_key(q) && p3[q]
                == p[q],
        forall|q: u64| #[trigger]
            list_pages(p3, es.subrange(0, idx) + kid_entries(kb, ptrs) + es.subrange(idx + 1, es.len() as int), h).contains(q)
                ==> list_pages(p, es, h).contains(q) || !p.contains_key(q),
{
    lemma_rebuilt(p, p1, p2, p3, es, h, hi, idx, kptr, ke, kb, ptrs, key, Some(val));
}

/// A message for a key or value over its limit.
#[verifier::external_body]
fn too_long(what: &str, len: usize, max: usize) -> String {
    format!("{what} too long: {len} > {max}")
}

/// Validates a key/value pair against the node format's size limits:
/// the only way `insert`/`delete` can fail.
fn check_limit(key: &[u8], val: &[u8]) -> (r: Result<(), String>)
    ensures
        r is Ok <==> key@.len() <= BTREE_MAX_KEY_SIZE && val@.len() <= BTREE_MAX_VAL_SIZE,
{
    if key.len() > BTREE_MAX_KEY_SIZE {
        return Err(too_long("key", key.len(), BTREE_MAX_KEY_SIZE));
    }
    if val.len() > BTREE_MAX_VAL_SIZE {
        return Err(too_long("value", val.len(), BTREE_MAX_VAL_SIZE));
    }
    Ok(())
}

/// The first leaf: the empty sentinel key, which covers the whole key
/// space so that a lookup always finds a containing node, and `key`.
proof fn lemma_first_leaf(p: Pages, r: u64, b: Seq<u8>, key: Seq<u8>, val: Seq<u8>)
    requires
        holds_first_leaf(b, key, val),
        key.len() > 0,
        key.len() <= max_key(),
        val.len() <= max_val(),
        p.contains_key(r),
        p[r] == b,
    ensures
        sub_ok(p, r, 0, Seq::empty(), None),
        forall|k: Seq<u8>|
            k.len() > 0 ==> #[trigger] sub_get(p, r, 0, k) == if k == key {
                Some(val)
            } else {
                None::<Seq<u8>>
            },
{
    let es = seq![(0u64, Seq::<u8>::empty(), Seq::<u8>::empty()), (0u64, key, val)];
    lemma_holds_wf(b, BNODE_LEAF, es);
    assert(crate::page::keys::lex_lt(Seq::<u8>::empty(), key));
    assert(sorted(es));
    assert forall|i: int| 0 <= i < es.len() implies (#[trigger] es[i]).1.len() <= max_key() && if 0nat == 0 {
        es[i].2.len() <= max_val()
    } else {
        es[i].2.len() == 0
    } by {}
    assert forall|i: int| 0 <= i < es.len() implies below(#[trigger] es[i].1, None) by {}
    crate::btree::model::lemma_list_ok_intro(p, es, 0, None);
    assert(list_pages(p, es, 0) =~= Set::<u64>::empty());
    assert(crate::node::format::prefix_size(es, 0) == 0);
    assert(crate::node::format::prefix_size(es, 1) == 4);
    assert(crate::node::format::prefix_size(es, 2) == 8 + key.len() + val.len());
    assert(node_ok(p, b, 0, Seq::empty(), None));
    assert forall|k: Seq<u8>| k.len() > 0 implies #[trigger] sub_get(p, r, 0, k) == if k == key {
        Some(val)
    } else {
        None::<Seq<u8>>
    } by {
        if k == key {
            lemma_leaf_get_at(es, k, 1);
        } else {
            if exists|i: int| found_at(es, k, i) {
                let i = choose|i: int| found_at(es, k, i);
                assert(i == 0 || i == 1);
            }
        }
    }
}

/// A first leaf holding only the sentinel, with `val`: what putting the
/// empty key into an empty tree makes.
proof fn lemma_sentinel_leaf(p: Pages, r: u64, b: Seq<u8>, val: Seq<u8>)
    requires
        holds(b, BNODE_LEAF, seq![(0u64, Seq::<u8>::empty(), val)]),
        val.len() <= max_val(),
        p.contains_key(r),
        p[r] == b,
    ensures
        sub_ok(p, r, 0, Seq::empty(), None),
        sub_get(p, r, 0, Seq::empty()) == Some(val),
        forall|k: Seq<u8>| k.len() > 0 ==> #[trigger] sub_get(p, r, 0, k) == None::<Seq<u8>>,
{
    let es = seq![(0u64, Seq::<u8>::empty(), val)];
    lemma_holds_wf(b, BNODE_LEAF, es);
    assert(sorted(es));
    assert forall|i: int| 0 <= i < es.len() implies (#[trigger] es[i]).1.len() <= max_key() && if 0nat == 0 {
        es[i].2.len() <= max_val()
    } else {
        es[i].2.len() == 0
    } by {}
    assert forall|i: int| 0 <= i < es.len() implies below(#[trigger] es[i].1, None) by {}
    crate::btree::model::lemma_list_ok_intro(p, es, 0, None);
    assert(list_pages(p, es, 0) =~= Set::<u64>::empty());
    assert(crate::node::format::prefix_size(es, 0) == 0);
    assert(crate::node::format::prefix_size(es, 1) == 4 + val.len());
    assert(node_ok(p, b, 0, Seq::empty(), None));
    lemma_leaf_get_at(es, Seq::empty(), 0);
    assert forall|k: Seq<u8>| k.len() > 0 implies #[trigger] sub_get(p, r, 0, k) == None::<Seq<u8>> by {
        if exists|i: int| found_at(es, k, i) {
            let i = choose|i: int| found_at(es, k, i);
            assert(i == 0);
        }
    }
}

/// The bytes of the first leaf.
pub open spec fn holds_first_leaf(b: Seq<u8>, key: Seq<u8>, val: Seq<u8>) -> bool {
    holds(b, BNODE_LEAF, seq![(0u64, Seq::<u8>::empty(), Seq::<u8>::empty()), (0u64, key, val)])
}

impl<S: NodeStore> BTree<S> {
    /// An empty tree over `store`.
    pub fn new(store: S) -> (r: Self)
        ensures
            r.wf(),
            r.spec_root() == 0,
            r.height() == 0,
            r.spec_store() == store,
            r.view() == Map::<Seq<u8>, Seq<u8>>::empty(),
    {
        let r = BTree { root: 0, store, height: Ghost(0) };
        proof {
            assert(r.view() =~= Map::<Seq<u8>, Seq<u8>>::empty());
        }
        r
    }

    /// Inserts `key` with `val`, replacing any earlier value.
    #[verifier::rlimit(60)]
    #[verifier::spinoff_prover]
    pub fn insert(&mut self, key: &[u8], val: &[u8]) -> (r: Result<(), String>)
        requires
            old(self).wf(),
            old(self).spec_store().room() >= 3 * old(self).height() + 4,
        ensures
            final(self).wf(),
            r is Ok <==> key@.len() <= BTREE_MAX_KEY_SIZE && val@.len() <= BTREE_MAX_VAL_SIZE,
            r is Ok && key@.len() > 0 ==> final(self).view() == old(self).view().insert(key@, val@),
            r is Ok && key@.len() == 0 ==> final(self).view() == old(self).view(),
            r is Ok ==> final(self).lookup(key@) == Some(val@),
            r is Ok ==> final(self).spec_root() != 0,
            r is Ok && old(self).spec_root() == 0 ==> final(self).height() == 0,
            r is Err ==> *final(self) == *old(self),
            final(self).height() <= old(self).height() + 1,
            final(self).spec_store().room() + 3 * old(self).height() + 4 >= old(self).spec_store().room(),
    {
        match check_limit(key, val) {
            Ok(()) => {},
            Err(e) => {
                return Err(e);
            },
        }
        let ghost p = self.store.pages();
        let ghost h = self.height@;
        let empty: [u8; 0] = [];
        proof {
            assert(empty@ =~= Seq::<u8>::empty());
        }
        if self.root == 0 && key.len() == 0 {
            // the empty key is the sentinel itself: the first node holds
            // just the sentinel, carrying `val`
            let mut root = BNode::new(BTREE_PAGE_SIZE);
            start_node(&mut root.0, BNODE_LEAF, 1, Ghost(4 + val@.len()));
            let ghost e0: Entry = (0u64, Seq::<u8>::empty(), val@);
            proof {
                crate::node::format::lemma_prefix_push(Seq::<Entry>::empty(), e0, 0);
                assert(seq![e0] =~= Seq::<Entry>::empty().push(e0));
            }
            fmt_append_kv(&mut root.0, 0, 0, empty.as_slice(), val, Ghost(BNODE_LEAF), Ghost(1), Ghost(Seq::empty()));
            proof {
                assert(Seq::<Entry>::empty().push(e0) =~= seq![e0]);
                lemma_holds_wf(root@, BNODE_LEAF, seq![e0]);
            }
            self.root = self.store.new(root);
            self.height = Ghost(0);
            proof {
                lemma_sentinel_leaf(self.store.pages(), self.root, root@, val@);
                assert(key@ =~= Seq::<u8>::empty());
                assert(self.view() =~= old(self).view());
            }
            return Ok(());
        }
        if self.root == 0 {
            // create the first node: a dummy empty key covers the whole
            // key space, so a lookup can always find a containing node.
            let mut root = BNode::new(BTREE_PAGE_SIZE);
            start_node(&mut root.0, BNODE_LEAF, 2, Ghost(8 + key@.len() + val@.len()));
            let ghost e0: Entry = (0u64, Seq::<u8>::empty(), Seq::<u8>::empty());
            let ghost e1: Entry = (0u64, key@, val@);
            proof {
                crate::node::format::lemma_prefix_push(Seq::<Entry>::empty(), e0, 0);
                assert(seq![e0] =~= Seq::<Entry>::empty().push(e0));
                crate::node::format::lemma_prefix_push(seq![e0], e1, 1);
                assert(seq![e0, e1] =~= seq![e0].push(e1));
            }
            let ghost first_entries = seq![e0];
            fmt_append_kv(&mut root.0, 0, 0, empty.as_slice(), empty.as_slice(), Ghost(BNODE_LEAF), Ghost(2), Ghost(Seq::empty()));
            fmt_append_kv(&mut root.0, 1, 0, key, val, Ghost(BNODE_LEAF), Ghost(2), Ghost(first_entries));
            proof {
                assert(Seq::<Entry>::empty().push(e0) =~= seq![e0]);
                assert(seq![e0].push(e1) =~= seq![e0, e1]);
                lemma_holds_wf(root@, BNODE_LEAF, seq![e0, e1]);
            }
            self.root = self.store.new(root);
            self.height = Ghost(0);
            proof {
                lemma_first_leaf(self.store.pages(), self.root, root@, key@, val@);
                assert(self.view() =~= old(self).view().insert(key@, val@));
            }
            return Ok(());
        }
        let root_node = self.store.get(self.root);
        let ghost ce = spec_entries(root_node@);
        proof {
            crate::page::keys::lemma_lex_total(Seq::<u8>::empty(), key@);
        }
        let node = tree_insert(self, &root_node, key, val, Ghost(h), Ghost(Seq::empty()), Ghost(None));
        let ghost p1 = self.store.pages();
        let ghost ke = spec_entries(node@);
        proof {
            lemma_entries_fit(p1, ke, h, None);
        }
        let (nsplit, s0, s1, s2) = node_split3(node);
        let ghost old_root = self.root;
        self.store.del(self.root);
        let ghost p2 = self.store.pages();
        proof {
            lemma_split_kids(nsplit, s0@, s1@, s2@, type_at(h), ke, h, p1, None);
            crate::btree::shape::lemma_list_pages_in_store(p1, ke, h, None);
            assert forall|q: u64| #[trigger] list_pages(p1, ke, h).contains(q) implies p2.contains_key(q) by {
                assert(p1.contains_key(q));
                if q == old_root {
                    assert(!list_pages(p, ce, h).contains(old_root));
                }
            }
        }
        if nsplit > 1 {
            // the root split: grow the tree by adding a new root level
            let mut kids: Vec<BNode> = Vec::new();
            kids.push(s0);
            kids.push(s1);
            if nsplit > 2 {
                kids.push(s2);
            }
            let ghost kb = kid_bytes(kids@);
            proof {
                assert(kb =~= pieces(nsplit, s0@, s1@, s2@));
                lemma_root_room(kb);
                assert(Seq::<Entry>::empty() + kid_entries(kb, Seq::new(kb.len(), |j: int| 0u64)) =~= kid_entries(
                    kb,
                    Seq::new(kb.len(), |j: int| 0u64),
                ));
            }
            let mut root = BNode::new(BTREE_PAGE_SIZE);
            start_node(&mut root.0, BNODE_NODE, nsplit, Ghost(total_size(kid_entries(kb, Seq::new(kb.len(), |j: int| 0u64)))));
            let ptrs = push_kids(&mut self.store, &mut root, 0, &kids, Ghost(BNODE_NODE), Ghost(nsplit as nat), Ghost(Seq::empty()));
            let ghost p3 = self.store.pages();
            let ghost m = kid_entries(kb, ptrs@);
            proof {
                assert(Seq::<Entry>::empty() + m =~= m);
                lemma_holds_wf(root@, BNODE_NODE, m);
                assert forall|j: int| 0 <= j < m.len() implies entry_size(#[trigger] m[j]) == entry_size(
                    kid_entries(kb, Seq::new(kb.len(), |j: int| 0u64))[j],
                ) by {}
                lemma_same_sizes(m, kid_entries(kb, Seq::new(kb.len(), |j: int| 0u64)));
            }
            self.root = self.store.new(root);
            self.height = Ghost(h + 1);
            proof {
                lemma_root_grown(p, p1, p2, p3, self.store.pages(), self.root, root@, h, ce, ke, kb, ptrs@, key@, val@);
                if key@.len() > 0 {
                    assert(self.view() =~= old(self).view().insert(key@, val@));
                } else {
                    assert(self.view() =~= old(self).view());
                }
            }
        } else {
            self.root = self.store.new(s0);
            proof {
                lemma_root_same(p, p1, p2, self.store.pages(), self.root, s0@, h, ce, ke, key@, Some(val@));
                if key@.len() > 0 {
                    assert(self.view() =~= old(self).view().insert(key@, val@));
                } else {
                    assert(self.view() =~= old(self).view());
                }
            }
        }
        Ok(())
    }
}

/// A root of up to three separators fits one page.
proof fn lemma_root_room(kb: Seq<Seq<u8>>)
    requires
        1 <= kb.len() <= 3,
        forall|j: int| 0 <= j < kb.len() ==> spec_entries(#[trigger] kb[j])[0].1.len() <= max_key(),
    ensures
        node_size(kid_entries(kb, Seq::new(kb.len(), |j: int| 0u64))) <= page_size(),
{
    let kz = kid_entries(kb, Seq::new(kb.len(), |j: int| 0u64));
    assert(crate::node::format::prefix_size(kz, 0) == 0);
    assert(crate::node::format::prefix_size(kz, 1) <= 4 + max_key()) by {
        assert(kz[0].1 == spec_entries(kb[0])[0].1);
    }
    if kb.len() >= 2 {
        assert(crate::node::format::prefix_size(kz, 2) <= 2 * (4 + max_key())) by {
            assert(kz[1].1 == spec_entries(kb[1])[0].1);
        }
    }
    if kb.len() >= 3 {
        assert(crate::node::format::prefix_size(kz, 3) <= 3 * (4 + max_key())) by {
            assert(kz[2].1 == spec_entries(kb[2])[0].1);
        }
    }
}

/// The root, rebuilt without splitting and holding what it held with
/// `key` mapped to `res`, stored under a new pointer.
proof fn lemma_root_same(
    p: Pages,
    p1: Pages,
    p2: Pages,
    p3: Pages,
    r: u64,
    b: Seq<u8>,
    h: nat,
    ce: Seq<Entry>,
    ke: Seq<Entry>,
    key: Seq<u8>,
    res: Option<Seq<u8>>,
)
    requires
        list_ok(p1, ke, h, None),
        ke.len() >= 1,
        ke[0].1 == Seq::<u8>::empty(),
        node_wf(b),
        spec_btype(b) == type_at(h),
        spec_nbytes(b) <= page_size(),
        spec_entries(b) == ke,
        forall|q: u64| #[trigger] list_pages(p1, ke, h).contains(q) ==> p2.contains_key(q),
        forall|q: u64| #[trigger] p2.contains_key(q) ==> p1.contains_key(q) && p2[q] == p1[q],
        !p2.contains_key(r),
        p3 == p2.insert(r, b),
        forall|k: Seq<u8>|
            #[trigger] list_get(p1, ke, h, k) == if k == key {
                res
            } else {
                list_get(p, ce, h, k)
            },
    ensures
        sub_ok(p3, r, h, Seq::empty(), None),
        forall|k: Seq<u8>|
            #[trigger] sub_get(p3, r, h, k) == if k == key {
                res
            } else {
                list_get(p, ce, h, k)
            },
{
    assert(agree_on(p1, p3, list_pages(p1, ke, h))) by {
        assert forall|q: u64| #[trigger] list_pages(p1, ke, h).contains(q) implies p1.contains_key(q)
            == p3.contains_key(q) && p1[q] == p3[q] by {
            assert(p2.contains_key(q));
        }
    }
    lemma_list_frame(p1, p3, ke, h, None);
    assert(!list_pages(p3, ke, h).contains(r)) by {
        if list_pages(p3, ke, h).contains(r) {
            assert(list_pages(p1, ke, h).contains(r));
        }
    }
    assert forall|k: Seq<u8>| #[trigger] sub_get(p3, r, h, k) == if k == key {
        res
    } else {
        list_get(p, ce, h, k)
    } by {
        assert(list_get(p3, ke, h, k) == list_get(p1, ke, h, k));
    }
}

/// The root split: a new root one level up over the pieces.
#[verifier::rlimit(40)]
proof fn lemma_root_grown(
    p: Pages,
    p1: Pages,
    p2: Pages,
    p3: Pages,
    p4: Pages,
    r: u64,
    b: Seq<u8>,
    h: nat,
    ce: Seq<Entry>,
    ke: Seq<Entry>,
    kb: Seq<Seq<u8>>,
    ptrs: Seq<u64>,
    key: Seq<u8>,
    val: Seq<u8>,
)
    requires
        list_ok(p1, ke, h, None),
        ke.len() >= 1,
        ke[0].1 == Seq::<u8>::empty(),
        kb.len() >= 1,
        kids_ok(kb, h),
        concat_entries(kb) == ke,
        forall|q: u64| #[trigger] list_pages(p1, ke, h).contains(q) ==> p2.contains_key(q),
        forall|q: u64| #[trigger] p2.contains_key(q) ==> p1.contains_key(q) && p2[q] == p1[q],
        stored_kids(p2, p3, ptrs, kb),
        node_wf(b),
        spec_btype(b) == BNODE_NODE,
        spec_entries(b) == kid_entries(kb, ptrs),
        spec_nbytes(b) <= page_size(),
        !p3.contains_key(r),
        p4 == p3.insert(r, b),
        forall|k: Seq<u8>|
            #[trigger] list_get(p1, ke, h, k) == if k == key {
                Some(val)
            } else {
                list_get(p, ce, h, k)
            },
    ensures
        sub_ok(p4, r, h + 1, Seq::empty(), None),
        forall|k: Seq<u8>|
            #[trigger] sub_get(p4, r, h + 1, k) == if k == key {
                Some(val)
            } else {
                list_get(p, ce, h, k)
            },
{
    let m = kid_entries(kb, ptrs);
    assert forall|j: int| 0 <= j < kb.len() implies !list_pages(p1, ke, h).contains(#[trigger] ptrs[j]) by {
        if list_pages(p1, ke, h).contains(ptrs[j]) {
            assert(p2.contains_key(ptrs[j]));
        }
    }
    assert forall|j: int| 0 <= j < kb.len() implies p3.contains_key(#[trigger] ptrs[j]) && p3[ptrs[j]] == kb[j] by {}
    assert(agree_on(p1, p3, list_pages(p1, ke, h))) by {
        assert forall|q: u64| #[trigger] list_pages(p1, ke, h).contains(q) implies p1.contains_key(q)
            == p3.contains_key(q) && p1[q] == p3[q] by {
            assert(p2.contains_key(q));
        }
    }
    crate::btree::shape::lemma_kids(p1, p3, kb, ptrs, h, None);
    crate::btree::shape::lemma_list_pages_in_store(p3, m, h + 1, None);
    assert(agree_on(p3, p4, list_pages(p3, m, h + 1))) by {
        assert forall|q: u64| #[trigger] list_pages(p3, m, h + 1).contains(q) implies p3.contains_key(q)
            == p4.contains_key(q) && p3[q] == p4[q] by {
            assert(p3.contains_key(q));
        }
    }
    lemma_list_frame(p3, p4, m, h + 1, None);
    assert(!list_pages(p4, m, h + 1).contains(r));
    assert forall|k: Seq<u8>| #[trigger] sub_get(p4, r, h + 1, k) == if k == key {
        Some(val)
    } else {
        list_get(p, ce, h, k)
    } by {
        assert(list_get(p4, m, h + 1, k) == list_get(p3, m, h + 1, k));
    }
}

/// Walks the tree from the root to find `key`.
pub fn tree_get<S: NodeStore>(tree: &BTree<S>, key: &[u8]) -> (r: Option<Vec<u8>>)
    requires
        tree.wf(),
    ensures
        match r {
            Some(v) => tree.lookup(key@) == Some(v@),
            None => tree.lookup(key@) is None,
        },
        key@.len() > 0 ==> match r {
            Some(v) => tree.view().contains_key(key@) && tree.view()[key@] == v@,
            None => !tree.view().contains_key(key@),
        },
{
    if tree.root == 0 {
        return None;
    }
    let ghost p = tree.store.pages();
    let ghost mut h: nat = tree.height@;
    let ghost mut lo: Seq<u8> = Seq::empty();
    let ghost mut hi: Option<Seq<u8>> = None;
    let mut node = tree.store.get(tree.root);
    proof {
        crate::page::keys::lemma_lex_total(Seq::<u8>::empty(), key@);
    }
    loop
        invariant
            p == tree.store.pages(),
            node_ok(p, node@, h, lo, hi),
            lex_le(lo, key@),
            tree.lookup(key@) == list_get(p, spec_entries(node@), h, key@),
        decreases h,
    {
        let ghost es = spec_entries(node@);
        proof {
            crate::btree::model::lemma_list_sorted(p, es, h, hi);
        }
        let idx = node_lookup_le(&node, key);
        proof {
            lemma_slot(es, key@);
        }
        if node.btype() == BNODE_LEAF {
            if crate::page::codec::bytes_eq(node.get_key(idx), key) {
                proof {
                    lemma_leaf_get_at(es, key@, idx as int);
                }
                return Some(to_vec(node.get_val(idx)));
            } else {
                proof {
                    crate::page::keys::lemma_lex_order();
                    if exists|i: int| found_at(es, key@, i) {
                        let i = choose|i: int| found_at(es, key@, i);
                        if i < idx {
                            assert(lex_lt(es[i].1, es[idx as int].1));
                        } else if i > idx + 1 {
                            assert(lex_lt(es[idx + 1].1, es[i].1));
                        }
                    }
                }
                return None;
            }
        } else {
            let kptr = node.get_ptr(idx);
            proof {
                crate::btree::model::lemma_list_child(p, es, h, hi, idx as int);
                lo = es[idx as int].1;
                hi = next_bound(es, idx as int, hi);
                h = (h - 1) as nat;
            }
            node = tree.store.get(kptr);
        }
    }
}

/// `k` is the smallest key above `key` held below the entries `es` of a
/// node at height `h`.
pub open spec fn is_next_key(p: Pages, es: Seq<Entry>, h: nat, key: Seq<u8>, k: Seq<u8>) -> bool {
    &&& lex_lt(key, k)
    &&& list_get(p, es, h, k) is Some
    &&& forall|k2: Seq<u8>| lex_lt(key, k2) && #[trigger] list_get(p, es, h, k2) is Some ==> lex_le(k, k2)
}

/// Length of the smallest key above `key` held below the entries `es`
/// of a node at height `h` (0 if there is none).
pub open spec fn next_key_len(p: Pages, es: Seq<Entry>, h: nat, key: Seq<u8>) -> nat {
    if exists|k: Seq<u8>| is_next_key(p, es, h, key, k) {
        (choose|k: Seq<u8>| is_next_key(p, es, h, key, k)).len()
    } else {
        0
    }
}

/// The node `d` levels below `b` on the search path of `key`.
pub open spec fn path_node(p: Pages, b: Seq<u8>, key: Seq<u8>, d: nat) -> Seq<u8>
    decreases d,
{
    if d == 0 {
        b
    } else {
        let es = spec_entries(b);
        path_node(p, p[es[slot(es, key)].0], key, (d - 1) as nat)
    }
}

/// Deleting `key` below `b` (of height `h`) would make the node `d`
/// levels down the search path of `key` outgrow a page: `key` is the
/// separator the search takes there, and the next larger key below it,
/// which replaces `key` as that separator, would not fit the node.
pub open spec fn overflows_at(p: Pages, b: Seq<u8>, h: nat, key: Seq<u8>, d: nat) -> bool {
    &&& d < h
    &&& spec_entries(path_node(p, b, key, d))[slot(spec_entries(path_node(p, b, key, d)), key)].1 == key
    &&& node_size(spec_entries(path_node(p, b, key, d))) + next_key_len(
        p,
        spec_entries(p[spec_entries(path_node(p, b, key, d))[slot(spec_entries(path_node(p, b, key, d)), key)].0]),
        (h - d - 1) as nat,
        key,
    ) > page_size() + key.len()
}

/// A delete has room exactly when no node on the search path of `key`
/// would outgrow a page by taking the next larger key as its separator.
pub proof fn lemma_del_room_path(p: Pages, b: Seq<u8>, h: nat, key: Seq<u8>)
    ensures
        del_room(p, b, h, key) <==> !exists|d: nat| #[trigger] overflows_at(p, b, h, key, d),
    decreases h,
{
    if h > 0 {
        let es = spec_entries(b);
        let i = slot(es, key);
        let c = p[es[i].0];
        let hc = (h - 1) as nat;
        lemma_del_room_path(p, c, hc, key);
        assert forall|d: nat| d >= 1 implies #[trigger] overflows_at(p, b, h, key, d) == overflows_at(
            p,
            c,
            hc,
            key,
            (d - 1) as nat,
        ) by {
            assert(path_node(p, b, key, d) == path_node(p, c, key, (d - 1) as nat));
            assert((h - d - 1) as nat == (hc - (d - 1) as nat - 1) as nat);
        }
        assert(path_node(p, b, key, 0) == b);
        if exists|d: nat| #[trigger] overflows_at(p, b, h, key, d) {
            let d = choose|d: nat| #[trigger] overflows_at(p, b, h, key, d);
            if d >= 1 {
                assert(overflows_at(p, c, hc, key, (d - 1) as nat));
            }
        }
        if !del_room(p, b, h, key) {
            if !del_room(p, c, hc, key) {
                let d2 = choose|d: nat| #[trigger] overflows_at(p, c, hc, key, d);
                assert(overflows_at(p, b, h, key, d2 + 1));
            } else {
                assert(overflows_at(p, b, h, key, 0));
            }
        }
    }
}

/// Deleting `key` below the node `b` of height `h` never has to grow a
/// node past a page: wherever the search for `key` takes the separator
/// equal to `key`, the next key of that child's subtree, which becomes
/// the new separator, still fits the node.
pub open spec fn del_room(p: Pages, b: Seq<u8>, h: nat, key: Seq<u8>) -> bool
    decreases h,
{
    if h == 0 {
        true
    } else {
        let es = spec_entries(b);
        let i = slot(es, key);
        &&& (es[i].1 == key ==> node_size(es) + next_key_len(p, spec_entries(p[es[i].0]), (h - 1) as nat, key)
            <= page_size() + key.len())
        &&& del_room(p, p[es[i].0], (h - 1) as nat, key)
    }
}

/// What deleting `key` below the entries `es` (of a node of height `h`,
/// covering `[lo, hi)`, on store `p`) produced: the node `b` on store
/// `p2`, holding everything but `key`, on the old node's pages or new
/// ones.
pub open spec fn del_result(
    p: Pages,
    p2: Pages,
    b: Seq<u8>,
    es: Seq<Entry>,
    h: nat,
    lo: Seq<u8>,
    hi: Option<Seq<u8>>,
    key: Seq<u8>,
) -> bool {
    let ns = spec_entries(b);
    &&& node_wf(b)
    &&& spec_btype(b) == type_at(h)
    &&& spec_nbytes(b) <= page_size()
    &&& list_ok(p2, ns, h, hi)
    &&& ns.len() >= 1 ==> lex_le(lo, ns[0].1)
    &&& key != lo ==> ns.len() >= 1 && ns[0].1 == lo
    &&& forall|k: Seq<u8>| #[trigger] list_get(p2, ns, h, k) == if k == key {
        None
    } else {
        list_get(p, es, h, k)
    }
    &&& forall|q: u64|
        #[trigger] p.contains_key(q) && !list_pages(p, es, h).contains(q) ==> p2.contains_key(q) && p2[q] == p[q]
    &&& forall|q: u64| #[trigger]
        list_pages(p2, ns, h).contains(q) ==> list_pages(p, es, h).contains(q) || !p.contains_key(q)
}

/// Decides whether `updated` (a node whose child just shrank) should be
/// merged with a sibling: returns (-1, left sibling), (+1, right
/// sibling), or (0, unused placeholder) if no merge is needed.
///
/// BTREE_PAGE_SIZE/4 is a soft minimum: nodes smaller than a quarter
/// page are eagerly merged with a sibling if the combined result still
/// fits one page, keeping the tree from accumulating many near-empty
/// nodes after repeated deletes.
fn should_merge<S: NodeStore>(store: &S, node: &BNode, idx: u16, updated: &BNode) -> (r: (i8, BNode))
    requires
        node_wf(node@),
        idx < spec_nkeys(node@),
        node_wf(updated@),
        spec_nbytes(updated@) <= page_size(),
        forall|i: int|
            0 <= i < spec_nkeys(node@) && i != idx ==> store.pages().contains_key(
                (#[trigger] spec_entries(node@)[i]).0,
            ) && node_wf(store.pages()[spec_entries(node@)[i].0]) && spec_nbytes(
                store.pages()[spec_entries(node@)[i].0],
            ) <= page_size(),
    ensures
        r.0 == -1 || r.0 == 0 || r.0 == 1,
        r.0 == -1 ==> idx > 0 && r.1@ == store.pages()[spec_entries(node@)[idx - 1].0] && node_size(
            spec_entries(r.1@) + spec_entries(updated@),
        ) <= page_size() && spec_nbytes(updated@) <= page_size() / 4,
        r.0 == 1 ==> idx + 1 < spec_nkeys(node@) && r.1@ == store.pages()[spec_entries(node@)[idx + 1].0]
            && node_size(spec_entries(updated@) + spec_entries(r.1@)) <= page_size() && spec_nbytes(updated@)
            <= page_size() / 4,
        r.0 == 0 ==> spec_nbytes(updated@) > page_size() / 4 || ((idx == 0 || node_size(
            spec_entries(store.pages()[spec_entries(node@)[idx - 1].0]) + spec_entries(updated@),
        ) > page_size()) && (idx + 1 >= spec_nkeys(node@) || node_size(
            spec_entries(updated@) + spec_entries(store.pages()[spec_entries(node@)[idx + 1].0]),
        ) > page_size())),
{
    let ghost es = spec_entries(node@);
    proof {
        crate::node::format::lemma_wf_reads(updated@);
    }
    if updated.nbytes() > (BTREE_PAGE_SIZE / 4) as u16 {
        return (0, BNode(Vec::new()));
    }
    if idx > 0 {
        let sibling = store.get(node.get_ptr(idx - 1));
        proof {
            crate::node::format::lemma_wf_reads(sibling@);
            lemma_size_concat2(spec_entries(sibling@), spec_entries(updated@));
        }
        let merged = sibling.nbytes() + updated.nbytes() - HEADER;
        if merged <= BTREE_PAGE_SIZE as u16 {
            return (-1, sibling);  // left
        }
    }
    if idx + 1 < node.nkeys() {
        let sibling = store.get(node.get_ptr(idx + 1));
        proof {
            crate::node::format::lemma_wf_reads(sibling@);
            lemma_size_concat2(spec_entries(updated@), spec_entries(sibling@));
        }
        let merged = sibling.nbytes() + updated.nbytes() - HEADER;
        if merged <= BTREE_PAGE_SIZE as u16 {
            return (1, sibling);  // right
        }
    }
    (0, BNode(Vec::new()))
}

/// Deletes `key` below the internal node `node` (of height `h`,
/// covering `[lo, hi)`), whose child `idx` covers `key`: recurses into
/// that child, then merges what is left of it with a sibling when it got
/// small. An empty result means `key` was not found.
fn node_delete<S: NodeStore>(
    tree: &mut BTree<S>,
    node: &BNode,
    idx: u16,
    key: &[u8],
    Ghost(h): Ghost<nat>,
    Ghost(lo): Ghost<Seq<u8>>,
    Ghost(hi): Ghost<Option<Seq<u8>>>,
) -> (r: BNode)
    requires
        h >= 1,
        node_ok(old(tree).store.pages(), node@, h, lo, hi),
        spec_nbytes(node@) <= page_size(),
        idx == slot(spec_entries(node@), key@),
        lex_le(lo, key@),
        below(key@, hi),
        key@.len() <= max_key(),
        old(tree).store.room() >= h,
        del_room(old(tree).store.pages(), node@, h, key@),
    ensures
        final(tree).root == old(tree).root,
        final(tree).height == old(tree).height,
        (r@.len() == 0) == (list_get(old(tree).store.pages(), spec_entries(node@), h, key@) is None),
        r@.len() == 0 ==> final(tree).store.pages() == old(tree).store.pages(),
        r@.len() > 0 ==> del_result(
            old(tree).store.pages(),
            final(tree).store.pages(),
            r@,
            spec_entries(node@),
            h,
            lo,
            hi,
            key@,
        ),
        final(tree).store.room() + h >= old(tree).store.room(),
    decreases h, 0nat,
{
    let ghost p = tree.store.pages();
    let ghost es = spec_entries(node@);
    let ghost hc = (h - 1) as nat;
    let ghost chi = next_bound(es, idx as int, hi);
    proof {
        crate::btree::model::lemma_list_sorted(p, es, h, hi);
        lemma_slot(es, key@);
        crate::btree::model::lemma_list_child(p, es, h, hi, idx as int);
        lemma_holds_wf(node@, spec_btype(node@), es);
    }
    // recurse into the kid
    let kptr = node.get_ptr(idx);
    let child = tree.store.get(kptr);
    let updated = tree_delete(tree, &child, key, Ghost(hc), Ghost(es[idx as int].1), Ghost(chi));
    if updated.is_empty() {
        proof {
            removal::lemma_child_get(p, es, h, hi, idx as int, key@);
        }
        return BNode(Vec::new());  // not found
    }
    let ghost p1 = tree.store.pages();
    proof {
        removal::lemma_del_siblings(p, p1, es, h, hi, idx as int);
        assert(removal::del_ctx(p, p1, es, h, lo, hi, idx as int, key@, updated@));
    }
    tree.store.del(kptr);
    let ghost p2 = tree.store.pages();
    let mut new = BNode::new(BTREE_PAGE_SIZE);
    let (merge_dir, sibling) = should_merge(&tree.store, node, idx, &updated);
    if merge_dir < 0 {
        let mut merged = BNode::new(BTREE_PAGE_SIZE);
        node_merge(&mut merged, &sibling, &updated);
        let sptr = node.get_ptr(idx - 1);
        tree.store.del(sptr);
        let ghost p3 = tree.store.pages();
        let key0 = to_vec(merged.get_key(0));
        let ghost mb = merged@;
        let ptr = tree.store.new(merged);
        proof {
            removal::lemma_merge_left_room(p, p1, p2, es, h, lo, hi, idx as int, key@, updated@, sibling@, ptr, key0@);
        }
        node_replace_2kid(&mut new, node, idx - 1, ptr, key0.as_slice());
        proof {
            removal::lemma_merge_left(
                p, p1, p2, p3, tree.store.pages(), es, h, lo, hi, idx as int, key@, updated@, sibling@, mb, ptr, new@,
            );
        }
    } else if merge_dir > 0 {
        let mut merged = BNode::new(BTREE_PAGE_SIZE);
        node_merge(&mut merged, &updated, &sibling);
        let sptr = node.get_ptr(idx + 1);
        tree.store.del(sptr);
        let ghost p3 = tree.store.pages();
        let key0 = to_vec(merged.get_key(0));
        let ghost mb = merged@;
        let ptr = tree.store.new(merged);
        proof {
            removal::lemma_merge_right_room(p, p1, p2, es, h, lo, hi, idx as int, key@, updated@, sibling@, ptr, key0@);
        }
        node_replace_2kid(&mut new, node, idx, ptr, key0.as_slice());
        proof {
            removal::lemma_merge_right(
                p, p1, p2, p3, tree.store.pages(), es, h, lo, hi, idx as int, key@, updated@, sibling@, mb, ptr, new@,
            );
        }
    } else if updated.nkeys() == 0 {
        // the parent becomes empty too
        start_node(&mut new.0, BNODE_NODE, 0, Ghost(0));
        proof {
            lemma_holds_wf(new@, BNODE_NODE, Seq::empty());
            removal::lemma_del_empty_parent(p, p1, p2, es, h, lo, hi, idx as int, key@, updated@, new@);
        }
    } else {
        let mut kids: Vec<BNode> = Vec::new();
        kids.push(updated);
        let ghost kb = kid_bytes(kids@);
        proof {
            assert(kb =~= seq![kids@[0]@]);
            removal::lemma_replace_kid_room(p, p1, es, h, lo, hi, idx as int, key@, kb);
        }
        let ptrs = node_replace_kid_n(&mut tree.store, &mut new, node, idx, &kids);
        proof {
            removal::lemma_del_replaced(p, p1, p2, tree.store.pages(), es, h, lo, hi, idx as int, key@, kb, ptrs@, new@);
        }
    }
    new
}

/// Recursive delete, mirroring `tree_insert`'s structure with merging
/// in place of splitting. An empty result means `key` was not found.
fn tree_delete<S: NodeStore>(
    tree: &mut BTree<S>,
    node: &BNode,
    key: &[u8],
    Ghost(h): Ghost<nat>,
    Ghost(lo): Ghost<Seq<u8>>,
    Ghost(hi): Ghost<Option<Seq<u8>>>,
) -> (r: BNode)
    requires
        node_ok(old(tree).store.pages(), node@, h, lo, hi),
        spec_nbytes(node@) <= page_size(),
        lex_le(lo, key@),
        below(key@, hi),
        key@.len() <= max_key(),
        old(tree).store.room() >= h,
        del_room(old(tree).store.pages(), node@, h, key@),
    ensures
        final(tree).root == old(tree).root,
        final(tree).height == old(tree).height,
        (r@.len() == 0) == (list_get(old(tree).store.pages(), spec_entries(node@), h, key@) is None),
        r@.len() == 0 ==> final(tree).store.pages() == old(tree).store.pages(),
        r@.len() > 0 ==> del_result(
            old(tree).store.pages(),
            final(tree).store.pages(),
            r@,
            spec_entries(node@),
            h,
            lo,
            hi,
            key@,
        ),
        final(tree).store.room() + h >= old(tree).store.room(),
    decreases h, 1nat,
{
    let ghost p = tree.store.pages();
    let ghost es = spec_entries(node@);
    proof {
        crate::btree::model::lemma_list_sorted(p, es, h, hi);
        lemma_holds_wf(node@, spec_btype(node@), es);
    }
    let idx = node_lookup_le(node, key);
    proof {
        lemma_slot(es, key@);
    }
    if node.btype() == BNODE_LEAF {
        if !crate::page::codec::bytes_eq(node.get_key(idx), key) {
            proof {
                removal::lemma_leaf_missing(p, es, hi, key@, idx as int);
            }
            return BNode(Vec::new());  // not found
        }
        let mut new = BNode::new(BTREE_PAGE_SIZE);
        proof {
            crate::node::format::lemma_size_edits(es, idx as int, es[idx as int]);
        }
        leaf_delete(&mut new, node, idx);
        proof {
            removal::lemma_leaf_removed(p, es, lo, hi, key@, idx as int, new@);
            lemma_leaf_get_at(es, key@, idx as int);
        }
        new
    } else {
        node_delete(tree, node, idx, key, Ghost(h), Ghost(lo), Ghost(hi))
    }
}

/// A root left with a single child: that child, one level down, is the
/// new root, holding what the old root held with `key` deleted.
proof fn lemma_root_collapse(
    p: Pages,
    p1: Pages,
    p2: Pages,
    h: nat,
    ce: Seq<Entry>,
    ke: Seq<Entry>,
    key: Seq<u8>,
)
    requires
        h >= 1,
        list_ok(p1, ke, h, None),
        ke.len() == 1,
        ke[0].1 == Seq::<u8>::empty(),
        forall|q: u64| #[trigger] list_pages(p1, ke, h).contains(q) ==> p2.contains_key(q),
        forall|q: u64| #[trigger] p2.contains_key(q) ==> p1.contains_key(q) && p2[q] == p1[q],
        forall|k: Seq<u8>|
            #[trigger] list_get(p1, ke, h, k) == if k == key {
                None
            } else {
                list_get(p, ce, h, k)
            },
    ensures
        sub_ok(p2, ke[0].0, (h - 1) as nat, Seq::empty(), None),
        forall|k: Seq<u8>|
            #[trigger] sub_get(p2, ke[0].0, (h - 1) as nat, k) == if k == key {
                None::<Seq<u8>>
            } else {
                list_get(p, ce, h, k)
            },
{
    let hc = (h - 1) as nat;
    crate::btree::model::lemma_list_child(p1, ke, h, None, 0);
    lemma_list_pages(p1, ke, h);
    crate::btree::model::lemma_pages_in_store(p1, ke[0].0, hc, Seq::empty(), None);
    assert(agree_on(p1, p2, pages_of(p1, ke[0].0, hc))) by {
        assert forall|q: u64| #[trigger] pages_of(p1, ke[0].0, hc).contains(q) implies p1.contains_key(q)
            == p2.contains_key(q) && p1[q] == p2[q] by {
            assert(list_pages(p1, ke, h).contains(q));
        }
    }
    lemma_sub_frame(p1, p2, ke[0].0, hc, Seq::empty(), None);
    assert forall|k: Seq<u8>| #[trigger] sub_get(p2, ke[0].0, hc, k) == if k == key {
        None::<Seq<u8>>
    } else {
        list_get(p, ce, h, k)
    } by {
        crate::page::keys::lemma_lex_total(Seq::<u8>::empty(), k);
        assert(!lex_lt(k, Seq::<u8>::empty()));
        lemma_slot(ke, k);
        assert(list_get(p1, ke, h, k) == sub_get(p1, ke[0].0, hc, k));
    }
}

impl<S: NodeStore> BTree<S> {
    /// Deleting `key` never has to grow a node past a page: wherever
    /// `key` is a separator, the node holding it has room for the next
    /// key below it, which takes its place.
    pub open spec fn delete_fits(&self, key: Seq<u8>) -> bool {
        self.spec_root() == 0 || del_room(
            self.spec_store().pages(),
            self.spec_store().pages()[self.spec_root()],
            self.height(),
            key,
        )
    }

    /// A delete of `key` fits exactly when no node on its search path,
    /// where `key` is the separator taken, would outgrow a page once the
    /// next larger key replaces it: node bytes + next key's length >
    /// page size + `key`'s length.
    pub proof fn lemma_delete_fits_path(&self, key: Seq<u8>)
        ensures
            self.delete_fits(key) <==> (self.spec_root() == 0 || !exists|d: nat|
                #[trigger] overflows_at(
                    self.spec_store().pages(),
                    self.spec_store().pages()[self.spec_root()],
                    self.height(),
                    key,
                    d,
                )),
    {
        lemma_del_room_path(self.spec_store().pages(), self.spec_store().pages()[self.spec_root()], self.height(), key);
    }

    /// Deletes `key`: `Ok(true)` if it was there, `Ok(false)` if not.
    pub fn delete(&mut self, key: &[u8]) -> (r: Result<bool, String>)
        requires
            old(self).wf(),
            key@.len() > 0,
            old(self).delete_fits(key@),
            old(self).spec_store().room() >= old(self).height() + 1,
        ensures
            final(self).wf(),
            r is Ok <==> key@.len() <= BTREE_MAX_KEY_SIZE,
            r is Err ==> *final(self) == *old(self),
            r matches Ok(found) ==> found == old(self).view().contains_key(key@) && final(self).view()
                == old(self).view().remove(key@),
            final(self).height() <= old(self).height(),
            final(self).spec_store().room() + old(self).height() + 1 >= old(self).spec_store().room(),
    {
        let empty: [u8; 0] = [];
        proof {
            assert(empty@ =~= Seq::<u8>::empty());
        }
        match check_limit(key, empty.as_slice()) {
            Ok(()) => {},
            Err(e) => {
                return Err(e);
            },
        }
        if self.root == 0 {
            proof {
                assert(self.view() =~= old(self).view().remove(key@));
            }
            return Ok(false);
        }
        let ghost p = self.store.pages();
        let ghost h = self.height@;
        let root_node = self.store.get(self.root);
        let ghost ce = spec_entries(root_node@);
        proof {
            crate::page::keys::lemma_lex_total(Seq::<u8>::empty(), key@);
        }
        let updated = tree_delete(self, &root_node, key, Ghost(h), Ghost(Seq::empty()), Ghost(None));
        if updated.is_empty() {
            proof {
                assert(self.view() =~= old(self).view().remove(key@));
            }
            return Ok(false);  // not found
        }
        let ghost p1 = self.store.pages();
        let ghost ke = spec_entries(updated@);
        let ghost old_root = self.root;
        proof {
            assert(!list_pages(p, ce, h).contains(old_root));
            crate::btree::shape::lemma_list_pages_in_store(p1, ke, h, None);
            self.store.lemma_no_null();
        }
        self.store.del(self.root);
        let ghost p2 = self.store.pages();
        proof {
            assert forall|q: u64| #[trigger] list_pages(p1, ke, h).contains(q) implies p2.contains_key(q) by {
                assert(p1.contains_key(q));
                if q == old_root {
                    assert(list_pages(p, ce, h).contains(old_root) || !p.contains_key(old_root));
                }
            }
            crate::node::format::lemma_wf_reads(updated@);
        }
        if updated.btype() == BNODE_NODE && updated.nkeys() == 1 {
            // the root has a single child left: remove a tree level
            proof {
                crate::btree::model::lemma_list_child(p1, ke, h, None, 0);
            }
            self.root = updated.get_ptr(0);
            self.height = Ghost((h - 1) as nat);
            proof {
                lemma_root_collapse(p, p1, p2, h, ce, ke, key@);
                assert(self.view() =~= old(self).view().remove(key@));
            }
        } else {
            self.root = self.store.new(updated);
            proof {
                lemma_root_same(p, p1, p2, self.store.pages(), self.root, updated@, h, ce, ke, key@, None);
                assert(self.view() =~= old(self).view().remove(key@));
            }
        }
        Ok(true)
    }
}

impl<S: NodeStore> BTree<S> {
    /// The length of the smallest key above `key` held below `node` (of
    /// height `h`, first key `key`, keys below `hi`), or `None` if no key
    /// above `key` is held there.
    fn next_key_size(&self, node: &BNode, key: &[u8], Ghost(h): Ghost<nat>, Ghost(hi): Ghost<Option<Seq<u8>>>) -> (r:
        Option<usize>)
        requires
            node_ok(self.store.pages(), node@, h, key@, hi),
        ensures
            match r {
                Some(n) => exists|k: Seq<u8>|
                    is_next_key(self.store.pages(), spec_entries(node@), h, key@, k) && k.len() == n,
                None => removal::no_key_above(self.store.pages(), spec_entries(node@), h, key@),
            },
        decreases h,
    {
        let ghost p = self.store.pages();
        let ghost es = spec_entries(node@);
        proof {
            lemma_holds_wf(node@, spec_btype(node@), es);
        }
        if node.btype() == BNODE_LEAF {
            proof {
                removal::lemma_next_key_leaf(p, es, hi, key@);
            }
            if node.nkeys() >= 2 {
                return Some(node.get_key(1).len());
            }
            return None;
        }
        proof {
            removal::lemma_next_key_inner(p, es, h, hi, key@);
        }
        let child = self.store.get(node.get_ptr(0));
        match self.next_key_size(&child, key, Ghost((h - 1) as nat), Ghost(next_bound(es, 0, hi))) {
            Some(n) => Some(n),
            None => {
                if node.nkeys() >= 2 {
                    Some(node.get_key(1).len())
                } else {
                    None
                }
            },
        }
    }

    /// Walks the search path of `key`, checking at each node where `key`
    /// is the separator that the next key, which replaces it, fits.
    fn delete_path_fits(&self, key: &[u8]) -> (r: bool)
        requires
            self.wf(),
            self.spec_root() != 0,
        ensures
            r == del_room(self.store.pages(), self.store.pages()[self.root], self.height@, key@),
    {
        let ghost p = self.store.pages();
        let ghost mut h: nat = self.height@;
        let ghost mut lo: Seq<u8> = Seq::empty();
        let ghost mut hi: Option<Seq<u8>> = None;
        let mut node = self.store.get(self.root);
        proof {
            crate::page::keys::lemma_lex_total(Seq::<u8>::empty(), key@);
        }
        loop
            invariant
                p == self.store.pages(),
                node_ok(p, node@, h, lo, hi),
                lex_le(lo, key@),
                del_room(p, p[self.root], self.height@, key@) == del_room(p, node@, h, key@),
            decreases h,
        {
            let ghost es = spec_entries(node@);
            proof {
                crate::btree::model::lemma_list_sorted(p, es, h, hi);
                lemma_holds_wf(node@, spec_btype(node@), es);
            }
            if node.btype() == BNODE_LEAF {
                return true;
            }
            let idx = node_lookup_le(&node, key);
            proof {
                lemma_slot(es, key@);
                crate::btree::model::lemma_list_child(p, es, h, hi, idx as int);
            }
            let kptr = node.get_ptr(idx);
            let child = self.store.get(kptr);
            if crate::page::codec::bytes_eq(node.get_key(idx), key) {
                let ghost ce = spec_entries(child@);
                let ghost hc = (h - 1) as nat;
                let next = self.next_key_size(&child, key, Ghost(hc), Ghost(next_bound(es, idx as int, hi)));
                let nk: usize = match next {
                    Some(n) => n,
                    None => 0,
                };
                proof {
                    match next {
                        Some(n) => {
                            let k = choose|k: Seq<u8>| is_next_key(p, ce, hc, key@, k) && k.len() == n;
                            let c = choose|k: Seq<u8>| is_next_key(p, ce, hc, key@, k);
                            removal::lemma_next_key_unique(p, ce, hc, key@, k, c);
                            removal::lemma_get_key_len(p, ce, hc, next_bound(es, idx as int, hi), k);
                        },
                        None => {
                            if exists|k: Seq<u8>| is_next_key(p, ce, hc, key@, k) {
                                let k = choose|k: Seq<u8>| is_next_key(p, ce, hc, key@, k);
                                assert(list_get(p, ce, hc, k) is Some);
                            }
                        },
                    }
                    assert(nk == next_key_len(p, ce, hc, key@));
                }
                if node.nbytes() as usize + nk > BTREE_PAGE_SIZE + key.len() {
                    return false;
                }
            }
            proof {
                lo = es[idx as int].1;
                hi = next_bound(es, idx as int, hi);
                h = (h - 1) as nat;
            }
            node = child;
        }
    }

    /// Deletes `key` where doing so keeps every node within a page (see
    /// `delete_fits`); `None`, with nothing changed, where it would not.
    pub fn try_delete(&mut self, key: &[u8]) -> (r: Option<Result<bool, String>>)
        requires
            old(self).wf(),
            key@.len() > 0,
            old(self).spec_store().room() >= old(self).height() + 1,
        ensures
            final(self).wf(),
            r is None <==> key@.len() <= BTREE_MAX_KEY_SIZE && !old(self).delete_fits(key@),
            r is None <==> key@.len() <= BTREE_MAX_KEY_SIZE && old(self).spec_root() != 0 && exists|d: nat|
                #[trigger] overflows_at(
                    old(self).spec_store().pages(),
                    old(self).spec_store().pages()[old(self).spec_root()],
                    old(self).height(),
                    key@,
                    d,
                ),
            r is None ==> *final(self) == *old(self),
            r matches Some(d) ==> (d is Ok <==> key@.len() <= BTREE_MAX_KEY_SIZE),
            r matches Some(Err(_)) ==> *final(self) == *old(self),
            r matches Some(Ok(found)) ==> found == old(self).view().contains_key(key@) && final(self).view()
                == old(self).view().remove(key@),
            final(self).height() <= old(self).height(),
            final(self).spec_store().room() + old(self).height() + 1 >= old(self).spec_store().room(),
    {
        let empty: [u8; 0] = [];
        proof {
            assert(empty@ =~= Seq::<u8>::empty());
            self.lemma_delete_fits_path(key@);
        }
        match check_limit(key, empty.as_slice()) {
            Ok(()) => {},
            Err(e) => {
                return Some(Err(e));
            },
        }
        if self.root != 0 {
            if !self.delete_path_fits(key) {
                return None;
            }
        }
        Some(self.delete(key))
    }
}

} // verus!
