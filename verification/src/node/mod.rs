//! A B+Tree node in the pointer-and-offset page format (see `format`),
//! with the size limits of the store built on it.
pub mod format;

use vstd::prelude::*;

use crate::node::format::{
    append_kv as fmt_append_kv, append_range as fmt_append_range, cut_to, entries_fit,
    entry_size, fill_leaf_insert, fill_leaf_update, filled, holds, kv_base, lemma_built_filled,
    lemma_built_offset, lemma_built_sizes, lemma_holds_truncate, lemma_holds_wf, node_size,
    node_wf, prefix_size, ptr_slot, off_slot, read_btype, read_key, read_kv_pos, read_nbytes,
    read_nkeys, read_offset, read_ptr_wf, read_val, spec_btype, spec_entries, spec_nbytes,
    spec_nkeys, spec_prefix, split_in_three, split_in_two, split_result, splice, total_size,
    write_header, write_offset, write_ptr, zeroed, Entry,
};
use crate::page::codec::{le16, le64, push_zeros, zero_bytes};

pub use crate::node::format::{HEADER, NODE_INTERNAL, NODE_LEAF};

verus! {

/// Fixed per-entry overhead: 8B child pointer + 2B offset + 4B
/// (key_len + val_len) header.
const ENTRY_OVERHEAD: usize = 14;

/// Why an entry was refused.
#[derive(Debug, PartialEq, Eq, Structural, Clone, Copy)]
pub enum Error {
    EntryTooLarge { len: usize, max: usize },
}

/// The largest combined key+value size that is always safe to insert:
/// `(page_size - HEADER - 3 * ENTRY_OVERHEAD) / 3`, or 0 for tiny pages,
/// so that three maximum-size keys, as bare separators, plus the
/// header, fit one page.
pub open spec fn spec_max_kv_size(page_size: nat) -> nat {
    if page_size >= 46 {
        ((page_size - 46) / 3) as nat
    } else {
        0
    }
}

/// The largest combined key+value size that's always safe to insert.
///
/// This has to satisfy a tighter bound than "fits alone in a page": when
/// a root splits (via `split3`, which caps at 3 pieces), `put` builds a
/// brand-new root holding up to 3 separator keys copied from those
/// pieces — and, unlike every other internal node update, that specific
/// new-root page is never itself re-checked/re-split afterward. So the
/// binding constraint is "3 max-size keys, as bare separators (empty
/// value), must still fit in one page alongside the fixed header."
pub fn max_kv_size(page_size: usize) -> (r: usize)
    ensures
        r == spec_max_kv_size(page_size as nat),
{
    page_size.saturating_sub(HEADER as usize + 3 * ENTRY_OVERHEAD) / 3
}

/// Accepts a key/value pair exactly when their combined size is at most
/// `max_kv_size(page_size)`.
pub fn check_limits(page_size: usize, key: &[u8], val: &[u8]) -> (r: Result<(), Error>)
    requires
        key@.len() + val@.len() <= usize::MAX,
    ensures
        r is Ok <==> key@.len() + val@.len() <= spec_max_kv_size(page_size as nat),
        r matches Err(Error::EntryTooLarge { len, max }) ==> len == key@.len() + val@.len()
            && max == spec_max_kv_size(page_size as nat),
{
    let max = max_kv_size(page_size);
    let len = key.len() + val.len();
    if len > max {
        return Err(Error::EntryTooLarge { len, max });
    }
    Ok(())
}

/// A B+Tree node, serialized as a page.
///
/// Layout:
/// | type | nkeys | pointers | offsets  | key-values | unused |
/// |  2B  |  2B   | nkeys*8B | nkeys*2B |    ...     |        |
///
/// Each key-value entry: | key_size | val_size | key | val |, 2B/2B/../..
/// The first KV's offset is always 0 and is not stored.
pub struct Node(Vec<u8>);

impl Node {
    /// The bytes of the page.
    pub closed spec fn view(&self) -> Seq<u8> {
        self.0@
    }

    pub fn new(size: usize) -> (r: Self)
        ensures
            r@ == zero_bytes(size as nat),
    {
        let mut v: Vec<u8> = Vec::new();
        push_zeros(&mut v, size);
        proof {
            assert(v@ =~= zero_bytes(size as nat));
        }
        Node(v)
    }

    pub fn truncate(&mut self, len: usize)
        ensures
            len <= old(self)@.len() ==> final(self)@ == old(self)@.subrange(0, len as int),
            len > old(self)@.len() ==> final(self)@ == old(self)@,
    {
        cut_to(&mut self.0, len);
    }

    /// Serializes into a fixed `page_size`-byte page, zero-padded — the
    /// boundary at which a `Node` becomes the bytes a `PageIo` stores.
    pub fn into_bytes(self, page_size: usize) -> (r: Vec<u8>)
        requires
            node_wf(self@),
            spec_nbytes(self@) <= page_size,
        ensures
            r@.len() == page_size,
            spec_nbytes(self@) <= self@.len(),
            r@.subrange(0, spec_nbytes(self@) as int) == self@.subrange(0, spec_nbytes(self@) as int),
            page_size <= self@.len() ==> r@ == self@.subrange(0, page_size as int),
            page_size > self@.len() ==> r@ == self@ + zero_bytes((page_size - self@.len()) as nat),
            node_wf(r@),
            spec_btype(r@) == spec_btype(self@),
            spec_entries(r@) == spec_entries(self@),
    {
        let ghost b = self@;
        let ghost t = spec_btype(b);
        let ghost es = spec_entries(b);
        proof {
            lemma_holds_wf(b, t, es);
        }
        let mut v = self.0;
        let len = v.len();
        if page_size <= len {
            v.truncate(page_size);
            proof {
                lemma_holds_truncate(b, t, es, page_size as int);
            }
        } else {
            push_zeros(&mut v, page_size - len);
            proof {
                let n = es.len() as int;
                let e: int = (kv_base(es.len()) + total_size(es)) as int;
                lemma_built_sizes(b, t, es.len(), es);
                assert(v@.subrange(0, 4 + 8 * n) =~= b.subrange(0, 4 + 8 * n));
                assert(v@.subrange(4 + 8 * n, 4 + 10 * n) =~= b.subrange(4 + 8 * n, 4 + 10 * n));
                assert(v@.subrange(4 + 10 * n, e) =~= b.subrange(4 + 10 * n, e));
                crate::node::format::lemma_built_frame(b, v@, t, es.len(), es);
            }
        }
        proof {
            lemma_holds_wf(v@, t, es);
        }
        v
    }

    pub fn from_bytes(bytes: Vec<u8>) -> (r: Self)
        ensures
            r@ == bytes@,
    {
        Node(bytes)
    }

    /// The page's bytes.
    pub fn as_bytes(&self) -> (r: &[u8])
        ensures
            r@ == self@,
    {
        self.0.as_slice()
    }

    pub fn btype(&self) -> (r: u16)
        requires
            self@.len() >= 2,
        ensures
            r == spec_btype(self@),
    {
        read_btype(self.0.as_slice())
    }

    pub fn nkeys(&self) -> (r: u16)
        requires
            self@.len() >= 4,
        ensures
            r == spec_nkeys(self@),
    {
        read_nkeys(self.0.as_slice())
    }

    /// The name of the node's type.
    pub fn kind_name(&self) -> (r: &'static str)
        requires
            self@.len() >= 2,
        ensures
            r@ == (if spec_btype(self@) == NODE_LEAF {
                "LEAF"@
            } else if spec_btype(self@) == NODE_INTERNAL {
                "INTERNAL"@
            } else {
                "UNKNOWN"@
            }),
    {
        let t = self.btype();
        if t == NODE_LEAF {
            "LEAF"
        } else if t == NODE_INTERNAL {
            "INTERNAL"
        } else {
            "UNKNOWN"
        }
    }

    pub fn get_ptr(&self, idx: u16) -> (r: u64)
        requires
            node_wf(self@),
            idx < spec_nkeys(self@),
        ensures
            r == spec_entries(self@)[idx as int].0,
    {
        read_ptr_wf(self.0.as_slice(), idx)
    }

    pub fn get_offset(&self, idx: u16) -> (r: u16)
        requires
            node_wf(self@),
            idx <= spec_nkeys(self@),
        ensures
            r == prefix_size(spec_entries(self@), idx as int),
    {
        proof {
            self.lemma_wf_offset(idx as int);
        }
        read_offset(self.0.as_slice(), idx)
    }

    pub fn kv_pos(&self, idx: u16) -> (r: u16)
        requires
            node_wf(self@),
            idx <= spec_nkeys(self@),
        ensures
            r == kv_base(spec_nkeys(self@) as nat) + prefix_size(spec_entries(self@), idx as int),
    {
        proof {
            self.lemma_wf_offset(idx as int);
        }
        read_kv_pos(self.0.as_slice(), idx)
    }

    pub fn get_key(&self, idx: u16) -> (r: &[u8])
        requires
            node_wf(self@),
            idx < spec_nkeys(self@),
        ensures
            r@ == spec_entries(self@)[idx as int].1,
    {
        read_key(self.0.as_slice(), idx)
    }

    pub fn get_val(&self, idx: u16) -> (r: &[u8])
        requires
            node_wf(self@),
            idx < spec_nkeys(self@),
        ensures
            r@ == spec_entries(self@)[idx as int].2,
    {
        read_val(self.0.as_slice(), idx)
    }

    pub fn nbytes(&self) -> (r: u16)
        requires
            node_wf(self@),
        ensures
            r == spec_nbytes(self@),
            r == node_size(spec_entries(self@)),
    {
        read_nbytes(self.0.as_slice())
    }

    pub fn set_header(&mut self, btype: u16, nkeys: u16)
        requires
            old(self)@.len() >= 4,
        ensures
            final(self)@ == le16(btype as nat) + le16(nkeys as nat) + old(self)@.subrange(
                4,
                old(self)@.len() as int,
            ),
    {
        write_header(&mut self.0, btype, nkeys);
    }

    pub fn set_ptr(&mut self, idx: u16, val: u64)
        requires
            old(self)@.len() >= 4,
            idx < spec_nkeys(old(self)@),
            ptr_slot(idx as int) + 8 <= old(self)@.len(),
            ptr_slot(idx as int) <= u16::MAX,
        ensures
            final(self)@ == splice(old(self)@, ptr_slot(idx as int), le64(val)),
    {
        write_ptr(&mut self.0, idx, val);
    }

    pub fn set_offset(&mut self, idx: u16, val: u16)
        requires
            old(self)@.len() >= 4,
            idx >= 1,
            off_slot(spec_nkeys(old(self)@) as nat, idx as int) + 2 <= old(self)@.len(),
            off_slot(spec_nkeys(old(self)@) as nat, idx as int) <= u16::MAX,
        ensures
            final(self)@ == splice(
                old(self)@,
                off_slot(spec_nkeys(old(self)@) as nat, idx as int),
                le16(val as nat),
            ),
    {
        write_offset(&mut self.0, idx, val);
    }

    proof fn lemma_wf_offset(&self, i: int)
        requires
            node_wf(self@),
            0 <= i <= spec_nkeys(self@),
        ensures
            i >= 1 ==> off_slot(spec_nkeys(self@) as nat, i) + 2 <= self@.len(),
            kv_base(spec_nkeys(self@) as nat) + prefix_size(spec_entries(self@), i) <= u16::MAX,
            crate::node::format::spec_offset(self@, i) == prefix_size(spec_entries(self@), i),
    {
        let b = self@;
        lemma_built_sizes(b, spec_btype(b), spec_nkeys(b) as nat, spec_entries(b));
        lemma_built_offset(b, spec_btype(b), spec_nkeys(b) as nat, spec_entries(b), i);
    }
}

/// Writes entry `idx` of `new` (whose first `idx` entries are in place)
/// and the offset after it.
pub fn append_kv(new: &mut Node, idx: u16, ptr: u64, key: &[u8], val: &[u8])
    requires
        filled(old(new)@, idx as nat),
        idx < spec_nkeys(old(new)@),
        kv_base(spec_nkeys(old(new)@) as nat) + total_size(spec_prefix(old(new)@, idx as nat)) + 4
            + key@.len() + val@.len() <= old(new)@.len(),
        kv_base(spec_nkeys(old(new)@) as nat) + total_size(spec_prefix(old(new)@, idx as nat)) + 4
            + key@.len() + val@.len() <= u16::MAX,
    ensures
        filled(final(new)@, (idx + 1) as nat),
        spec_prefix(final(new)@, (idx + 1) as nat) == spec_prefix(old(new)@, idx as nat).push((ptr, key@, val@)),
        spec_btype(final(new)@) == spec_btype(old(new)@),
        spec_nkeys(final(new)@) == spec_nkeys(old(new)@),
        final(new)@.len() == old(new)@.len(),
{
    let ghost b = new@;
    let ghost es = spec_prefix(b, idx as nat);
    fmt_append_kv(
        &mut new.0,
        idx,
        ptr,
        key,
        val,
        Ghost(spec_btype(b)),
        Ghost(spec_nkeys(b) as nat),
        Ghost(es),
    );
    proof {
        lemma_built_filled(new@, spec_btype(b), spec_nkeys(b) as nat, es.push((ptr, key@, val@)));
    }
}

/// Copies entries `src_old..src_old + n` of `src` into `new` (whose
/// first `dst_new` entries are in place) as its next entries.
pub fn append_range(new: &mut Node, src: &Node, dst_new: u16, src_old: u16, n: u16)
    requires
        filled(old(new)@, dst_new as nat),
        dst_new + n <= spec_nkeys(old(new)@),
        node_wf(src@),
        src_old + n <= spec_nkeys(src@),
        kv_base(spec_nkeys(old(new)@) as nat) + total_size(
            spec_prefix(old(new)@, dst_new as nat) + spec_entries(src@).subrange(
                src_old as int,
                src_old + n,
            ),
        ) <= old(new)@.len(),
        kv_base(spec_nkeys(old(new)@) as nat) + total_size(
            spec_prefix(old(new)@, dst_new as nat) + spec_entries(src@).subrange(
                src_old as int,
                src_old + n,
            ),
        ) <= u16::MAX,
    ensures
        filled(final(new)@, (dst_new + n) as nat),
        spec_prefix(final(new)@, (dst_new + n) as nat) == spec_prefix(old(new)@, dst_new as nat)
            + spec_entries(src@).subrange(src_old as int, src_old + n),
        spec_btype(final(new)@) == spec_btype(old(new)@),
        spec_nkeys(final(new)@) == spec_nkeys(old(new)@),
        final(new)@.len() == old(new)@.len(),
{
    let ghost b = new@;
    let ghost es = spec_prefix(b, dst_new as nat);
    let ghost all = es + spec_entries(src@).subrange(src_old as int, src_old + n);
    fmt_append_range(
        &mut new.0,
        src.0.as_slice(),
        dst_new,
        src_old,
        n,
        Ghost(spec_btype(b)),
        Ghost(spec_nkeys(b) as nat),
        Ghost(es),
    );
    proof {
        lemma_built_filled(new@, spec_btype(b), spec_nkeys(b) as nat, all);
    }
}

/// `new` becomes a leaf holding `src`'s entries with `(0, key, val)`
/// inserted at `idx`.
pub fn leaf_insert(new: &mut Node, src: &Node, idx: u16, key: &[u8], val: &[u8])
    requires
        node_wf(src@),
        idx <= spec_nkeys(src@),
        spec_nkeys(src@) < u16::MAX,
        old(new)@.len() >= 4,
        node_size(spec_entries(src@).insert(idx as int, (0u64, key@, val@))) <= old(new)@.len(),
        node_size(spec_entries(src@).insert(idx as int, (0u64, key@, val@))) <= u16::MAX,
    ensures
        node_wf(final(new)@),
        spec_btype(final(new)@) == NODE_LEAF,
        spec_entries(final(new)@) == spec_entries(src@).insert(idx as int, (0u64, key@, val@)),
        final(new)@.len() == old(new)@.len(),
{
    fill_leaf_insert(&mut new.0, src.0.as_slice(), idx, key, val);
    proof {
        lemma_holds_wf(new@, NODE_LEAF, spec_entries(src@).insert(idx as int, (0u64, key@, val@)));
    }
}

/// `new` becomes a leaf holding `src`'s entries with entry `idx`
/// replaced by `(0, key, val)`.
pub fn leaf_update(new: &mut Node, src: &Node, idx: u16, key: &[u8], val: &[u8])
    requires
        node_wf(src@),
        idx < spec_nkeys(src@),
        old(new)@.len() >= 4,
        node_size(spec_entries(src@).update(idx as int, (0u64, key@, val@))) <= old(new)@.len(),
        node_size(spec_entries(src@).update(idx as int, (0u64, key@, val@))) <= u16::MAX,
    ensures
        node_wf(final(new)@),
        spec_btype(final(new)@) == NODE_LEAF,
        spec_entries(final(new)@) == spec_entries(src@).update(idx as int, (0u64, key@, val@)),
        final(new)@.len() == old(new)@.len(),
{
    fill_leaf_update(&mut new.0, src.0.as_slice(), idx, key, val);
    proof {
        lemma_holds_wf(new@, NODE_LEAF, spec_entries(src@).update(idx as int, (0u64, key@, val@)));
    }
}

/// Splits `src` into `left` and `right`, of its type: `right` fits
/// `page_size`, and `left`, if it does not, is over only by its last
/// entry.
pub fn split2(left: &mut Node, right: &mut Node, src: &Node, page_size: usize)
    requires
        page_size <= u16::MAX,
        node_wf(src@),
        spec_nkeys(src@) >= 2,
        kv_base(1) + entry_size(spec_entries(src@)[0]) <= page_size,
        kv_base(1) + entry_size(spec_entries(src@)[spec_nkeys(src@) - 1]) <= page_size,
        spec_nbytes(src@) + HEADER <= u16::MAX,
        old(left)@.len() >= 4,
        old(right)@.len() >= 4,
        node_size(spec_entries(src@).drop_last()) <= old(left)@.len(),
        page_size <= old(right)@.len(),
    ensures
        1 <= spec_nkeys(final(left)@) < spec_nkeys(src@),
        node_wf(final(left)@),
        node_wf(final(right)@),
        spec_btype(final(left)@) == spec_btype(src@),
        spec_btype(final(right)@) == spec_btype(src@),
        spec_entries(final(left)@) + spec_entries(final(right)@) == spec_entries(src@),
        spec_nbytes(final(right)@) <= page_size,
        spec_nbytes(final(left)@) <= page_size || node_size(spec_entries(final(left)@).drop_last())
            + page_size < spec_nbytes(src@) + HEADER,
        final(left)@.len() == old(left)@.len(),
        final(right)@.len() == old(right)@.len(),
{
    let ghost es = spec_entries(src@);
    let ghost t = spec_btype(src@);
    proof {
        crate::node::format::lemma_wf_reads(src@);
    }
    split_in_two(&mut left.0, &mut right.0, src.0.as_slice(), page_size as u16);
    proof {
        let k = spec_nkeys(left@) as int;
        let n = es.len() as int;
        lemma_holds_wf(left@, t, es.subrange(0, k));
        lemma_holds_wf(right@, t, es.subrange(k, n));
        assert(es.subrange(0, k) + es.subrange(k, n) =~= es);
        assert(es.subrange(0, k).drop_last() =~= es.subrange(0, k - 1));
    }
}

/// Splits `src` into 1-3 pages that each fit within `page_size`. Only
/// the first `count` (the returned u16) entries of the array are
/// meaningful; the rest are unused empty placeholders.
///
/// Three pieces are enough for nodes of up to `2 * page_size - 3` bytes.
/// From `2 * page_size - 2` bytes on, the two-way cut can leave a left
/// piece whose own cut puts more than a page into its first part (on
/// 100-byte pages: six entries with key and value lengths 0, 0, 0, 41,
/// 34 and 35 give a 198-byte node whose first piece takes 101 bytes).
pub fn split3(src: Node, page_size: usize) -> (r: (u16, [Node; 3]))
    requires
        HEADER <= page_size <= u16::MAX,
        node_wf(src@),
        entries_fit(spec_entries(src@), page_size as nat),
        spec_nbytes(src@) + 3 <= 2 * page_size,
        spec_nbytes(src@) + HEADER <= u16::MAX,
    ensures
        split_result(
            r.0,
            r.1@[0]@,
            r.1@[1]@,
            r.1@[2]@,
            spec_btype(src@),
            spec_entries(src@),
            page_size as nat,
        ),
{
    proof {
        crate::node::format::lemma_wf_reads(src@);
    }
    let (count, a, b, c) = split_in_three(src.0, page_size as u16);
    (count, [Node(a), Node(b), Node(c)])
}

} // verus!
