use vstd::prelude::*;
use vstd::bytes::*;
use vstd::slice::*;

use crate::io::PageId;
use crate::page::codec::{
    le16, le64, lemma_le16_roundtrip, lemma_le64_roundtrip, push_slice, push_u16, push_u64,
    push_zeros, read_u16, read_u64, u16_at, u64_at, zero_bytes,
};
use crate::page::keys::{compare_keys, lemma_lex_order, lemma_lex_transitive, lex_lt, KeyOrder};
use crate::page::PAGE_TYPE_LEAF;

verus! {

/// 1B type tag + 8B page id + 2B key count.
pub const LEAF_HEADER: u16 = 11;

/// One leaf entry: a key and its value.
pub type LeafEntry = (Seq<u8>, Seq<u8>);

/// On-disk form of one entry: `key_len(2B) | key | val_len(2B) | val`.
pub open spec fn enc_entry(e: LeafEntry) -> Seq<u8> {
    le16(e.0.len()) + e.0 + le16(e.1.len()) + e.1
}

/// The entries of a leaf, back to back.
pub open spec fn enc_entries(m: Seq<LeafEntry>) -> Seq<u8>
    decreases m.len(),
{
    if m.len() == 0 {
        Seq::empty()
    } else {
        enc_entries(m.drop_last()) + enc_entry(m.last())
    }
}

/// Every key and value length fits the 2-byte length fields.
pub open spec fn entries_fit_u16(m: Seq<LeafEntry>) -> bool {
    forall|i: int| 0 <= i < m.len() ==> #[trigger] m[i].0.len() <= u16::MAX && m[i].1.len() <= u16::MAX
}

/// Keys are strictly increasing.
pub open spec fn entries_sorted(m: Seq<LeafEntry>) -> bool {
    forall|i: int, j: int| 0 <= i < j < m.len() ==> lex_lt(#[trigger] m[i].0, #[trigger] m[j].0)
}

/// Parses `n` entries from the front of `b`.
pub open spec fn parse_entries(b: Seq<u8>, n: nat) -> Option<Seq<LeafEntry>>
    decreases n,
{
    if n == 0 {
        Some(Seq::empty())
    } else if b.len() < 2 {
        None
    } else {
        let kl = u16_at(b, 0) as int;
        if b.len() < 4 + kl {
            None
        } else {
            let vl = u16_at(b, 2 + kl) as int;
            if b.len() < 4 + kl + vl {
                None
            } else {
                let e = (b.subrange(2, 2 + kl), b.subrange(4 + kl, 4 + kl + vl));
                match parse_entries(b.subrange(4 + kl + vl, b.len() as int), (n - 1) as nat) {
                    Some(rest) => Some(seq![e] + rest),
                    None => None,
                }
            }
        }
    }
}

/// Bytes of a leaf page of `page_size` bytes with page id `id`.
pub open spec fn leaf_page_bytes(id: PageId, m: Seq<LeafEntry>, page_size: nat) -> Seq<u8> {
    seq![PAGE_TYPE_LEAF] + le64(id) + le16(m.len()) + enc_entries(m) + zero_bytes(
        (page_size - 11 - enc_entries(m).len()) as nat,
    )
}

/// Parses a leaf page: its stored page id and its entries.
pub open spec fn parse_leaf_page(b: Seq<u8>) -> Option<(PageId, Seq<LeafEntry>)> {
    if b.len() >= 11 && b[0] == PAGE_TYPE_LEAF {
        match parse_entries(b.subrange(11, b.len() as int), u16_at(b, 9) as nat) {
            Some(m) => Some((u64_at(b, 1), m)),
            None => None,
        }
    } else {
        None
    }
}

pub proof fn lemma_enc_entries_single(e: LeafEntry)
    ensures
        enc_entries(seq![e]) == enc_entry(e),
{
    assert(seq![e].drop_last() =~= Seq::<LeafEntry>::empty());
    assert(enc_entries(Seq::<LeafEntry>::empty()) == Seq::<u8>::empty());
    assert(enc_entries(seq![e]) =~= enc_entry(e));
}

/// Slicing inside a known prefix.
pub proof fn lemma_subrange_in_prefix(a: Seq<u8>, b: Seq<u8>, i: int, j: int)
    requires
        b.len() <= a.len(),
        a.subrange(0, b.len() as int) == b,
        0 <= i <= j <= b.len(),
    ensures
        a.subrange(i, j) == b.subrange(i, j),
{
    assert(a.subrange(i, j) =~= a.subrange(0, b.len() as int).subrange(i, j));
}

pub proof fn lemma_enc_entry_len(e: LeafEntry)
    ensures
        enc_entry(e).len() == 4 + e.0.len() + e.1.len(),
{
    lemma_auto_spec_u16_to_from_le_bytes();
    assert(spec_u16_to_le_bytes(e.0.len() as u16).len() == 2);
    assert(spec_u16_to_le_bytes(e.1.len() as u16).len() == 2);
}

/// Encoded size of a sequence of entries.
pub open spec fn entries_size(m: Seq<LeafEntry>) -> nat
    decreases m.len(),
{
    if m.len() == 0 {
        0
    } else {
        entries_size(m.drop_last()) + 4 + m.last().0.len() + m.last().1.len()
    }
}

pub proof fn lemma_enc_entries_len(m: Seq<LeafEntry>)
    ensures
        enc_entries(m).len() == entries_size(m),
        entries_size(m) >= 4 * m.len(),
    decreases m.len(),
{
    if m.len() > 0 {
        lemma_enc_entries_len(m.drop_last());
        lemma_enc_entry_len(m.last());
    }
}

pub proof fn lemma_enc_entries_push(m: Seq<LeafEntry>, e: LeafEntry)
    ensures
        enc_entries(m.push(e)) == enc_entries(m) + enc_entry(e),
        entries_size(m.push(e)) == entries_size(m) + 4 + e.0.len() + e.1.len(),
{
    assert(m.push(e).drop_last() =~= m);
}

pub proof fn lemma_enc_entries_append(a: Seq<LeafEntry>, b: Seq<LeafEntry>)
    ensures
        enc_entries(a + b) == enc_entries(a) + enc_entries(b),
        entries_size(a + b) == entries_size(a) + entries_size(b),
    decreases b.len(),
{
    if b.len() == 0 {
        assert(a + b =~= a);
        assert(enc_entries(a) + enc_entries(b) =~= enc_entries(a));
    } else {
        lemma_enc_entries_append(a, b.drop_last());
        assert((a + b).drop_last() =~= a + b.drop_last());
        assert((a + b).last() == b.last());
        assert(enc_entries(a + b) =~= enc_entries(a) + enc_entries(b.drop_last()) + enc_entry(b.last()));
    }
}

/// The encoding of a prefix is a prefix of the encoding.
pub proof fn lemma_enc_entries_take(m: Seq<LeafEntry>, j: int)
    requires
        0 <= j <= m.len(),
    ensures
        enc_entries(m) == enc_entries(m.take(j)) + enc_entries(m.skip(j)),
        entries_size(m) == entries_size(m.take(j)) + entries_size(m.skip(j)),
{
    assert(m =~= m.take(j) + m.skip(j));
    lemma_enc_entries_append(m.take(j), m.skip(j));
}

/// Position of entry `i` and the layout of its bytes inside the encoding.
pub proof fn lemma_entry_at(m: Seq<LeafEntry>, i: int)
    requires
        0 <= i < m.len(),
        entries_fit_u16(m),
    ensures
        ({
            let s = entries_size(m.take(i)) as int;
            let k = m[i].0;
            let v = m[i].1;
            let b = enc_entries(m);
            &&& s + 4 + k.len() + v.len() <= b.len()
            &&& entries_size(m.take(i + 1)) == s + 4 + k.len() + v.len()
            &&& u16_at(b, s) == k.len()
            &&& b.subrange(s + 2, s + 2 + k.len()) == k
            &&& u16_at(b, s + 2 + k.len()) == v.len()
            &&& b.subrange(s + 4 + k.len(), s + 4 + k.len() + v.len()) == v
        }),
{
    let s = entries_size(m.take(i)) as int;
    let k = m[i].0;
    let v = m[i].1;
    let b = enc_entries(m);
    lemma_enc_entries_take(m, i + 1);
    lemma_enc_entries_len(m);
    lemma_enc_entries_len(m.take(i));
    lemma_enc_entries_len(m.take(i + 1));
    lemma_enc_entries_len(m.skip(i + 1));
    assert(m.take(i + 1).drop_last() =~= m.take(i));
    assert(m.take(i + 1).last() == m[i]);
    let t = enc_entries(m.take(i));
    let e = enc_entry(m[i]);
    lemma_enc_entry_len(m[i]);
    lemma_le16_roundtrip(k.len());
    lemma_le16_roundtrip(v.len());
    assert(b =~= t + e + enc_entries(m.skip(i + 1)));
    assert(b.subrange(s, s + 2) =~= le16(k.len()));
    assert(b.subrange(s + 2, s + 2 + k.len()) =~= k);
    assert(b.subrange(s + 2 + k.len(), s + 4 + k.len()) =~= le16(v.len()));
    assert(b.subrange(s + 4 + k.len(), s + 4 + k.len() + v.len()) =~= v);
}

/// Parsing the encoding of `m`, followed by anything, gives back `m`.
pub proof fn lemma_parse_enc_entries(m: Seq<LeafEntry>, t: Seq<u8>)
    requires
        entries_fit_u16(m),
    ensures
        parse_entries(enc_entries(m) + t, m.len()) == Some(m),
    decreases m.len(),
{
    if m.len() > 0 {
        let e = m[0];
        let rest = m.drop_first();
        assert(m =~= seq![e] + rest);
        lemma_enc_entries_append(seq![e], rest);
        lemma_enc_entries_single(e);
        assert(entries_fit_u16(rest)) by {
            assert forall|i: int| 0 <= i < rest.len() implies #[trigger] rest[i].0.len() <= u16::MAX
                && rest[i].1.len() <= u16::MAX by {
                assert(rest[i] == m[i + 1]);
            }
        }
        lemma_parse_enc_entries(rest, t);
        let b = enc_entries(m) + t;
        let kl = e.0.len() as int;
        let vl = e.1.len() as int;
        assert(m[0] == e);
        lemma_le16_roundtrip(e.0.len());
        lemma_le16_roundtrip(e.1.len());
        assert(b =~= le16(e.0.len()) + e.0 + le16(e.1.len()) + e.1 + (enc_entries(rest) + t));
        assert(b.subrange(0, 2) =~= le16(e.0.len()));
        assert(b.subrange(2 + kl, 4 + kl) =~= le16(e.1.len()));
        assert(b.subrange(2, 2 + kl) =~= e.0);
        assert(b.subrange(4 + kl, 4 + kl + vl) =~= e.1);
        assert(b.subrange(4 + kl + vl, b.len() as int) =~= enc_entries(rest) + t);
    }
}

/// A parsed run of entries is exactly what encodes the front of the input.
pub proof fn lemma_parse_entries_prefix(b: Seq<u8>, n: nat)
    requires
        parse_entries(b, n) is Some,
    ensures
        ({
            let m = parse_entries(b, n).unwrap();
            &&& m.len() == n
            &&& entries_fit_u16(m)
            &&& enc_entries(m).len() <= b.len()
            &&& b.subrange(0, enc_entries(m).len() as int) == enc_entries(m)
        }),
    decreases n,
{
    let m = parse_entries(b, n).unwrap();
    if n == 0 {
        assert(b.subrange(0, 0) =~= Seq::<u8>::empty());
    } else {
        let kl = u16_at(b, 0) as int;
        let vl = u16_at(b, 2 + kl) as int;
        let e = (b.subrange(2, 2 + kl), b.subrange(4 + kl, 4 + kl + vl));
        let tail = b.subrange(4 + kl + vl, b.len() as int);
        lemma_parse_entries_prefix(tail, (n - 1) as nat);
        let rest = parse_entries(tail, (n - 1) as nat).unwrap();
        assert(m == seq![e] + rest);
        lemma_enc_entries_append(seq![e], rest);
        lemma_enc_entries_single(e);
        lemma_auto_spec_u16_to_from_le_bytes();
        assert(b.subrange(0, 2).len() == 2);
        assert(spec_u16_to_le_bytes(spec_u16_from_le_bytes(b.subrange(0, 2))) == b.subrange(0, 2));
        assert(b.subrange(2 + kl, 4 + kl).len() == 2);
        assert(spec_u16_to_le_bytes(spec_u16_from_le_bytes(b.subrange(2 + kl, 4 + kl))) == b.subrange(
            2 + kl,
            4 + kl,
        ));
        assert(le16(e.0.len()) == b.subrange(0, 2));
        assert(le16(e.1.len()) == b.subrange(2 + kl, 4 + kl));
        let ee = enc_entries(rest);
        assert(b.subrange(0, enc_entries(m).len() as int) =~= b.subrange(0, 2) + b.subrange(2, 2 + kl)
            + b.subrange(2 + kl, 4 + kl) + b.subrange(4 + kl, 4 + kl + vl) + tail.subrange(
            0,
            ee.len() as int,
        ));
        assert forall|i: int| 0 <= i < m.len() implies #[trigger] m[i].0.len() <= u16::MAX
            && m[i].1.len() <= u16::MAX by {
            if i > 0 {
                assert(m[i] == rest[i - 1]);
            }
        }
    }
}

/// Parsing a leaf page that this module wrote gives back what was written.
pub proof fn lemma_parse_leaf_page_bytes(id: PageId, m: Seq<LeafEntry>, page_size: nat)
    requires
        entries_fit_u16(m),
        m.len() <= u16::MAX,
        11 + entries_size(m) <= page_size,
    ensures
        leaf_page_bytes(id, m, page_size).len() == page_size,
        parse_leaf_page(leaf_page_bytes(id, m, page_size)) == Some((id, m)),
{
    lemma_enc_entries_len(m);
    lemma_le16_roundtrip(m.len());
    lemma_le64_roundtrip(id);
    let b = leaf_page_bytes(id, m, page_size);
    let z = zero_bytes((page_size - 11 - enc_entries(m).len()) as nat);
    assert(b.subrange(1, 9) =~= le64(id));
    assert(b.subrange(9, 11) =~= le16(m.len()));
    assert(b.subrange(11, b.len() as int) =~= enc_entries(m) + z);
    lemma_parse_enc_entries(m, z);
}

/// A leaf page — values live only here. On-disk layout:
///
/// | tag(1B)=0x01 | page id(8B) | key count(2B) | entries... | unused |
///
/// Each entry: `key_len(2B) | key | val_len(2B) | val`, back to back —
/// no offsets/pointer index table. `entry_start` is an in-memory-only
/// cache built once at decode time, so lookups still get O(1) random
/// access / binary search without persisting an index on disk.
pub struct LeafNode {
    id: PageId,
    entries: Vec<u8>,
    entry_start: Vec<u16>,
    model: Ghost<Seq<LeafEntry>>,
}

impl LeafNode {
    /// The entries held, in key order.
    pub closed spec fn view_entries(&self) -> Seq<LeafEntry> {
        self.model@
    }

    /// The page id recorded in the node.
    pub closed spec fn spec_id(&self) -> PageId {
        self.id
    }

    /// Bytes the node occupies when serialized (header + entries).
    pub open spec fn spec_nbytes(&self) -> nat {
        11 + entries_size(self.view_entries())
    }

    /// Internal consistency: the byte buffer encodes the entries, the
    /// offset cache indexes them, and every size fits 16 bits. Key order
    /// is not part of it: `entries_sorted` states it where it is needed.
    pub closed spec fn wf(&self) -> bool {
        let m = self.model@;
        &&& self.entries@ == enc_entries(m)
        &&& self.entry_start@.len() == m.len() + 1
        &&& forall|i: int| 0 <= i <= m.len() ==> #[trigger] self.entry_start@[i] == entries_size(m.take(i))
        &&& self.entries@.len() <= u16::MAX
        &&& entries_fit_u16(m)
    }

    pub proof fn lemma_wf_facts(&self)
        requires
            self.wf(),
        ensures
            entries_fit_u16(self.view_entries()),
            self.spec_nbytes() <= u16::MAX + 11,
            self.view_entries().len() * 4 <= u16::MAX,
    {
        lemma_enc_entries_len(self.model@);
    }

    /// A fresh, empty node under construction.
    /// `capacity_hint` sizes the backing buffer up front.
    pub fn empty(capacity_hint: usize) -> (r: Self)
        ensures
            r.wf(),
            r.view_entries() == Seq::<LeafEntry>::empty(),
            r.spec_id() == 0,
    {
        let mut entry_start: Vec<u16> = Vec::new();
        entry_start.push(0);
        let r = LeafNode {
            id: 0,
            entries: Vec::with_capacity(capacity_hint),
            entry_start,
            model: Ghost(Seq::empty()),
        };
        proof {
            assert forall|i: int| 0 <= i <= 0 implies #[trigger] r.entry_start@[i] == entries_size(
                Seq::<LeafEntry>::empty().take(i),
            ) by {
                assert(Seq::<LeafEntry>::empty().take(i) =~= Seq::<LeafEntry>::empty());
            }
        }
        r
    }

    /// Decodes a leaf page written by `to_bytes`.
    pub fn decode(expected_id: PageId, bytes: Vec<u8>) -> (r: Self)
        requires
            parse_leaf_page(bytes@) is Some,
            parse_leaf_page(bytes@).unwrap().0 == expected_id,
            bytes@.len() <= u16::MAX,
        ensures
            r.wf(),
            r.spec_id() == expected_id,
            r.view_entries() == parse_leaf_page(bytes@).unwrap().1,
    {
        let ghost full = parse_leaf_page(bytes@).unwrap().1;
        let blen = bytes.len();
        let id = read_u64(bytes.as_slice(), 1);
        let nkeys = read_u16(bytes.as_slice(), 9);
        let ghost body = bytes@.subrange(11, blen as int);
        proof {
            lemma_parse_entries_prefix(body, nkeys as nat);
            lemma_enc_entries_len(full);
        }
        let mut entries: Vec<u8> = Vec::new();
        let mut entry_start: Vec<u16> = Vec::new();
        entry_start.push(0u16);
        let mut pos: usize = 11;
        let mut i: u16 = 0;
        while i < nkeys
            invariant
                blen == bytes@.len(),
                11 <= blen <= u16::MAX,
                body == bytes@.subrange(11, blen as int),
                full == parse_entries(body, nkeys as nat).unwrap(),
                full.len() == nkeys,
                entries_fit_u16(full),
                enc_entries(full).len() <= body.len(),
                body.subrange(0, enc_entries(full).len() as int) == enc_entries(full),
                enc_entries(full).len() == entries_size(full),
                i <= nkeys,
                pos == 11 + entries_size(full.take(i as int)),
                entries@ == enc_entries(full.take(i as int)),
                entry_start@.len() == i + 1,
                forall|j: int| 0 <= j <= i ==> #[trigger] entry_start@[j] == entries_size(full.take(j)),
            decreases nkeys - i,
        {
            proof {
                lemma_entry_at(full, i as int);
                lemma_enc_entries_take(full, i + 1);
                lemma_enc_entries_len(full.take(i + 1));
                lemma_enc_entries_len(full.take(i as int));
                let s = entries_size(full.take(i as int)) as int;
                let eb = enc_entries(full);
                lemma_subrange_in_prefix(body, eb, s, s + 2);
                assert(bytes@.subrange(pos as int, pos + 2) =~= body.subrange(s, s + 2));
            }
            let klen = read_u16(bytes.as_slice(), pos) as usize;
            proof {
                let s = entries_size(full.take(i as int)) as int;
                let eb = enc_entries(full);
                let k = full[i as int].0;
                assert(bytes@.subrange(pos + 2 + klen, pos + 4 + klen) =~= body.subrange(s + 2 + klen, s + 4 + klen));
                lemma_subrange_in_prefix(body, eb, s + 2 + klen, s + 4 + klen);
            }
            let vlen = read_u16(bytes.as_slice(), pos + 2 + klen) as usize;
            let end = pos + 4 + klen + vlen;
            let mut p = pos;
            let ghost before = entries@;
            while p < end
                invariant
                    blen == bytes@.len(),
                    pos <= p <= end,
                    end <= blen,
                    entries@ == before + bytes@.subrange(pos as int, p as int),
                decreases end - p,
            {
                entries.push(bytes[p]);
                p = p + 1;
                proof {
                    assert(bytes@.subrange(pos as int, p as int) =~= bytes@.subrange(pos as int, p - 1).push(bytes@[p - 1]));
                }
            }
            proof {
                let s = entries_size(full.take(i as int)) as int;
                let eb = enc_entries(full);
                let e = full[i as int];
                assert(full.take(i + 1).drop_last() =~= full.take(i as int));
                assert(full.take(i + 1).last() == e);
                assert(bytes@.subrange(pos as int, end as int) =~= body.subrange(s, s + 4 + klen + vlen));
                lemma_subrange_in_prefix(body, eb, s, s + 4 + klen + vlen);
                lemma_enc_entry_len(e);
                assert(eb.subrange(s, s + 4 + klen + vlen) =~= enc_entry(e)) by {
                    assert(eb =~= enc_entries(full.take(i as int)) + enc_entry(e) + enc_entries(full.skip(i + 1))) by {
                        lemma_enc_entries_take(full, i as int);
                        assert(full.skip(i as int) =~= seq![e] + full.skip(i + 1));
                        lemma_enc_entries_append(seq![e], full.skip(i + 1));
                        lemma_enc_entries_single(e);
                    }
                }
            }
            pos = end;
            entry_start.push((pos - 11) as u16);
            i = i + 1;
            proof {
                assert forall|j: int| 0 <= j <= i implies #[trigger] entry_start@[j] == entries_size(full.take(j)) by {
                }
            }
        }
        proof {
            assert(full.take(nkeys as int) =~= full);
            lemma_le64_roundtrip(id);
        }
        LeafNode { id, entries, entry_start, model: Ghost(full) }
    }

    pub fn id(&self) -> (r: PageId)
        ensures
            r == self.spec_id(),
    {
        self.id
    }

    pub fn nkeys(&self) -> (r: u16)
        requires
            self.wf(),
        ensures
            r == self.view_entries().len(),
    {
        proof {
            self.lemma_wf_facts();
        }
        (self.entry_start.len() - 1) as u16
    }

    pub fn get_key(&self, idx: u16) -> (r: &[u8])
        requires
            self.wf(),
            idx < self.view_entries().len(),
        ensures
            r@ == self.view_entries()[idx as int].0,
    {
        proof {
            lemma_entry_at(self.model@, idx as int);
            lemma_enc_entries_len(self.model@);
        }
        let start = self.entry_start[idx as usize] as usize;
        let klen = read_u16(self.entries.as_slice(), start) as usize;
        slice_subrange(self.entries.as_slice(), start + 2, start + 2 + klen)
    }

    pub fn get_val(&self, idx: u16) -> (r: &[u8])
        requires
            self.wf(),
            idx < self.view_entries().len(),
        ensures
            r@ == self.view_entries()[idx as int].1,
    {
        proof {
            lemma_entry_at(self.model@, idx as int);
            lemma_enc_entries_len(self.model@);
        }
        let start = self.entry_start[idx as usize] as usize;
        let klen = read_u16(self.entries.as_slice(), start) as usize;
        let vstart = start + 2 + klen;
        let vlen = read_u16(self.entries.as_slice(), vstart) as usize;
        slice_subrange(self.entries.as_slice(), vstart + 2, vstart + 2 + vlen)
    }

    pub fn nbytes(&self) -> (r: usize)
        requires
            self.wf(),
        ensures
            r == self.spec_nbytes(),
    {
        proof {
            lemma_enc_entries_len(self.model@);
        }
        LEAF_HEADER as usize + self.entries.len()
    }

    /// Appends one entry; a leaf built for a tree gets its keys in
    /// strictly increasing order.
    pub fn push(&mut self, key: &[u8], val: &[u8])
        requires
            old(self).wf(),
            old(self).spec_nbytes() + 4 + key@.len() + val@.len() <= u16::MAX + 11,
        ensures
            final(self).wf(),
            final(self).view_entries() == old(self).view_entries().push((key@, val@)),
            final(self).spec_id() == old(self).spec_id(),
    {
        let ghost m = self.model@;
        let ghost e = (key@, val@);
        proof {
            lemma_enc_entries_len(m);
            lemma_enc_entries_push(m, e);
            lemma_enc_entry_len(e);
            lemma_lex_order();
        }
        push_u16(&mut self.entries, key.len() as u16);
        push_slice(&mut self.entries, key);
        push_u16(&mut self.entries, val.len() as u16);
        push_slice(&mut self.entries, val);
        let end = self.entries.len() as u16;
        self.entry_start.push(end);
        self.model = Ghost(m.push(e));
        proof {
            let m2 = m.push(e);
            assert(self.entries@ =~= enc_entries(m) + enc_entry(e));
            lemma_enc_entries_len(m2);
            assert(m2.take(m2.len() as int) =~= m2);
            assert forall|i: int| 0 <= i <= m2.len() implies #[trigger] self.entry_start@[i] == entries_size(m2.take(i)) by {
                if i <= m.len() {
                    assert(m2.take(i) =~= m.take(i));
                }
            }
        }
    }

    /// Appends entries `[from, to)` of `src`.
    pub fn push_range(&mut self, src: &LeafNode, from: u16, to: u16)
        requires
            old(self).wf(),
            src.wf(),
            from <= to <= src.view_entries().len(),
            old(self).spec_nbytes() + entries_size(src.view_entries().subrange(from as int, to as int))
                <= u16::MAX + 11,
        ensures
            final(self).wf(),
            final(self).view_entries() == old(self).view_entries() + src.view_entries().subrange(
                from as int,
                to as int,
            ),
            final(self).spec_id() == old(self).spec_id(),
    {
        let ghost sm = src.view_entries();
        proof {
            lemma_lex_order();
            src.lemma_wf_facts();
        }
        let mut i = from;
        while i < to
            invariant
                self.wf(),
                src.wf(),
                sm == src.view_entries(),
                from <= i <= to <= sm.len(),
                self.view_entries() == old(self).view_entries() + sm.subrange(from as int, i as int),
                self.spec_id() == old(self).spec_id(),
                old(self).spec_nbytes() + entries_size(sm.subrange(from as int, to as int)) <= u16::MAX + 11,
            decreases to - i,
        {
            proof {
                let done = sm.subrange(from as int, i as int);
                let all = sm.subrange(from as int, to as int);
                assert(all =~= done + sm.subrange(i as int, to as int));
                lemma_enc_entries_append(done, sm.subrange(i as int, to as int));
                let rest = sm.subrange(i as int, to as int);
                assert(rest =~= seq![sm[i as int]] + sm.subrange(i + 1, to as int));
                lemma_enc_entries_append(seq![sm[i as int]], sm.subrange(i + 1, to as int));
                assert(seq![sm[i as int]].drop_last() =~= Seq::<LeafEntry>::empty());
                lemma_enc_entries_len(sm.subrange(i + 1, to as int));
                lemma_enc_entries_append(old(self).view_entries(), done);
                if self.view_entries().len() > 0 {
                    if i > from {
                        assert(self.view_entries().last() == sm[i - 1]);
                    }
                }
            }
            let k = src.get_key(i);
            let v = src.get_val(i);
            self.push(k, v);
            i = i + 1;
            proof {
                assert(sm.subrange(from as int, i as int) =~= sm.subrange(from as int, i - 1).push(sm[i - 1]));
            }
        }
    }

    /// Serializes into a fixed `page_size`-byte page, zero-padded, with
    /// `id` stamped into the self-referential page-id field.
    pub fn to_bytes(&self, id: PageId, page_size: usize) -> (r: Vec<u8>)
        requires
            self.wf(),
            self.spec_nbytes() <= page_size,
        ensures
            r@ == leaf_page_bytes(id, self.view_entries(), page_size as nat),
            r@.len() == page_size,
    {
        proof {
            self.lemma_wf_facts();
            lemma_enc_entries_len(self.model@);
            lemma_parse_leaf_page_bytes(id, self.model@, page_size as nat);
        }
        let mut buf: Vec<u8> = Vec::with_capacity(page_size);
        buf.push(PAGE_TYPE_LEAF);
        push_u64(&mut buf, id);
        let n = self.nkeys();
        push_u16(&mut buf, n);
        push_slice(&mut buf, self.entries.as_slice());
        let used = LEAF_HEADER as usize + self.entries.len();
        push_zeros(&mut buf, page_size - used);
        proof {
            assert(buf@ =~= leaf_page_bytes(id, self.model@, page_size as nat));
        }
        buf
    }
}


/// Encoded size of one entry.
pub open spec fn entry_size(e: LeafEntry) -> nat {
    4 + e.0.len() + e.1.len()
}

/// `key` is stored at index `i`.
pub open spec fn found_at(m: Seq<LeafEntry>, key: Seq<u8>, i: int) -> bool {
    0 <= i < m.len() && m[i].0 == key
}

/// `key` is absent and `i` is where it belongs: everything before sorts
/// below it, everything from `i` on sorts above it.
pub open spec fn belongs_at(m: Seq<LeafEntry>, key: Seq<u8>, i: int) -> bool {
    &&& 0 <= i <= m.len()
    &&& forall|j: int| 0 <= j < i ==> lex_lt(#[trigger] m[j].0, key)
    &&& forall|j: int| i <= j < m.len() ==> lex_lt(key, #[trigger] m[j].0)
}

/// Binary search for `key`. `Ok(idx)`: `node.get_key(idx) == key`.
/// `Err(idx)`: where `key` belongs, in `0..=nkeys()`. Mirrors
/// `slice::binary_search`'s convention.
pub fn leaf_search(node: &LeafNode, key: &[u8]) -> (r: Result<u16, u16>)
    requires
        node.wf(),
    ensures
        r matches Ok(i) ==> found_at(node.view_entries(), key@, i as int),
        r matches Err(i) ==> i <= node.view_entries().len(),
        entries_sorted(node.view_entries()) ==> (r matches Err(i) ==> belongs_at(
            node.view_entries(),
            key@,
            i as int,
        )),
        entries_sorted(node.view_entries()) ==> (r is Ok <==> exists|i: int| found_at(node.view_entries(), key@, i)),
{
    let ghost m = node.view_entries();
    proof {
        node.lemma_wf_facts();
        lemma_lex_order();
    }
    let n = node.nkeys();
    let (mut lo, mut hi): (i32, i32) = (0, n as i32 - 1);
    while lo <= hi
        invariant
            node.wf(),
            m == node.view_entries(),
            n == m.len(),
            n <= u16::MAX,
            0 <= lo <= hi + 1 <= n,
            entries_sorted(m) ==> forall|j: int| 0 <= j < lo ==> lex_lt(#[trigger] m[j].0, key@),
            entries_sorted(m) ==> forall|j: int| hi < j < n ==> lex_lt(key@, #[trigger] m[j].0),
        decreases hi - lo + 1,
    {
        let mid = lo + (hi - lo) / 2;
        let k = node.get_key(mid as u16);
        match compare_keys(k, key) {
            KeyOrder::Equal => {
                assert(found_at(m, key@, mid as int));
                return Ok(mid as u16);
            },
            KeyOrder::Less => {
                proof {
                    assert forall|j: int| entries_sorted(m) && 0 <= j < mid + 1 implies lex_lt(#[trigger] m[j].0, key@) by {
                        if j < mid {
                            assert(lex_lt(m[j].0, m[mid as int].0));
                            lemma_lex_transitive(m[j].0, m[mid as int].0, key@);
                        }
                    }
                }
                lo = mid + 1;
            },
            KeyOrder::Greater => {
                proof {
                    assert forall|j: int| entries_sorted(m) && mid - 1 < j < n implies lex_lt(key@, #[trigger] m[j].0) by {
                        if j > mid {
                            assert(lex_lt(m[mid as int].0, m[j].0));
                            lemma_lex_transitive(key@, m[mid as int].0, m[j].0);
                        }
                    }
                }
                hi = mid - 1;
            },
        }
    }
    proof {
        assert forall|i: int| entries_sorted(m) implies !found_at(m, key@, i) by {
            if found_at(m, key@, i) {
                assert(lex_lt(m[i].0, key@) || lex_lt(key@, m[i].0));
            }
        }
    }
    Err(lo as u16)
}

pub proof fn lemma_prefix_sizes(m: Seq<LeafEntry>, i: int, j: int)
    requires
        0 <= i <= j <= m.len(),
    ensures
        entries_size(m.take(i)) <= entries_size(m.take(j)),
        j == i + 1 ==> entries_size(m.take(j)) == entries_size(m.take(i)) + entry_size(m[i]),
        entries_size(m.take(j)) <= entries_size(m),
        entries_size(m.subrange(i, j)) == entries_size(m.take(j)) - entries_size(m.take(i)),
{
    lemma_enc_entries_take(m.take(j), i);
    assert(m.take(j).take(i) =~= m.take(i));
    assert(m.take(j).skip(i) =~= m.subrange(i, j));
    lemma_enc_entries_take(m, j);
    if j == i + 1 {
        assert(m.take(j).drop_last() =~= m.take(i));
    }
}

/// Builds a new leaf with `(key, val)` inserted at `idx`.
#[verifier::rlimit(40)]
pub fn leaf_insert(old: &LeafNode, idx: u16, key: &[u8], val: &[u8]) -> (r: LeafNode)
    requires
        old.wf(),
        idx <= old.view_entries().len(),
        idx > 0 ==> lex_lt(old.view_entries()[idx - 1].0, key@),
        idx < old.view_entries().len() ==> lex_lt(key@, old.view_entries()[idx as int].0),
        old.spec_nbytes() + 4 + key@.len() + val@.len() <= u16::MAX + 11,
    ensures
        r.wf(),
        r.spec_id() == 0,
        r.view_entries() == old.view_entries().take(idx as int).push((key@, val@))
            + old.view_entries().skip(idx as int),
{
    let ghost m = old.view_entries();
    proof {
        old.lemma_wf_facts();
        lemma_lex_order();
        lemma_prefix_sizes(m, idx as int, m.len() as int);
        lemma_prefix_sizes(m, 0, idx as int);
        assert(m.take(m.len() as int) =~= m);
        assert(m.subrange(0, idx as int) =~= m.take(idx as int));
        assert(m.subrange(idx as int, m.len() as int) =~= m.skip(idx as int));
    }
    let mut new = LeafNode::empty(2 * (old.nbytes() + key.len() + val.len() + 4));
    new.push_range(old, 0, idx);
    proof {
        assert(new.view_entries() =~= m.take(idx as int));
        if idx > 0 {
            assert(new.view_entries().last() == m[idx - 1]);
        }
    }
    new.push(key, val);
    proof {
        lemma_enc_entries_push(m.take(idx as int), (key@, val@));
    }
    new.push_range(old, idx, old.nkeys());
    proof {
        assert(new.view_entries() =~= m.take(idx as int).push((key@, val@)) + m.skip(idx as int));
    }
    new
}

/// Builds a new leaf with the entry at `idx` replaced by `(key, val)`.
#[verifier::rlimit(40)]
pub fn leaf_update(old: &LeafNode, idx: u16, key: &[u8], val: &[u8]) -> (r: LeafNode)
    requires
        old.wf(),
        idx < old.view_entries().len(),
        idx > 0 ==> lex_lt(old.view_entries()[idx - 1].0, key@),
        idx + 1 < old.view_entries().len() ==> lex_lt(key@, old.view_entries()[idx + 1].0),
        11 + entries_size(old.view_entries().take(idx as int)) + 4 + key@.len() + val@.len()
            + entries_size(old.view_entries().skip(idx + 1)) <= u16::MAX + 11,
    ensures
        r.wf(),
        r.spec_id() == 0,
        r.view_entries() == old.view_entries().update(idx as int, (key@, val@)),
{
    let ghost m = old.view_entries();
    proof {
        old.lemma_wf_facts();
        lemma_lex_order();
        lemma_prefix_sizes(m, idx + 1, m.len() as int);
        lemma_prefix_sizes(m, 0, idx as int);
        assert(m.take(m.len() as int) =~= m);
        assert(m.subrange(0, idx as int) =~= m.take(idx as int));
        assert(m.subrange(idx + 1, m.len() as int) =~= m.skip(idx + 1));
    }
    let mut new = LeafNode::empty(2 * (old.nbytes() + val.len() + 4));
    new.push_range(old, 0, idx);
    proof {
        assert(new.view_entries() =~= m.take(idx as int));
        if idx > 0 {
            assert(new.view_entries().last() == m[idx - 1]);
        }
    }
    new.push(key, val);
    proof {
        lemma_enc_entries_push(m.take(idx as int), (key@, val@));
    }
    new.push_range(old, idx + 1, old.nkeys());
    proof {
        assert(new.view_entries() =~= m.update(idx as int, (key@, val@)));
    }
    new
}

proof fn find_last_fit(m: Seq<LeafEntry>, cap: nat, j: int) -> (b: int)
    requires
        0 <= j <= m.len(),
    ensures
        0 <= b <= j,
        b == 0 || entries_size(m.take(b)) <= cap,
        forall|t: int| b < t <= j ==> entries_size(#[trigger] m.take(t)) > cap,
    decreases j,
{
    if j == 0 || entries_size(m.take(j)) <= cap {
        j
    } else {
        find_last_fit(m, cap, j - 1)
    }
}

/// Cutting `m` before entry `v` leaves both sides non-empty, with at
/// most `cap` bytes of entries each.
pub open spec fn leaf_cut_fits(m: Seq<LeafEntry>, cap: nat, v: int) -> bool {
    &&& 1 <= v < m.len()
    &&& entries_size(m.take(v)) <= cap
    &&& entries_size(m) - entries_size(m.take(v)) <= cap
}

/// `v` is the cut a size-driven split of `m` takes with at most `cap`
/// bytes of entries per side: going down from the middle, the first
/// index `v1` whose left side fits; then, going up from `v1`, the first
/// index whose right side fits.
pub open spec fn leaf_cut(m: Seq<LeafEntry>, cap: nat, v: int) -> bool {
    exists|v1: int|
        #![trigger m.take(v1)]
        {
            &&& 1 <= v1 <= m.len() / 2
            &&& entries_size(m.take(v1)) <= cap
            &&& forall|j: int| v1 < j <= m.len() / 2 ==> entries_size(#[trigger] m.take(j)) > cap
            &&& v1 <= v < m.len()
            &&& entries_size(m) - entries_size(m.take(v)) <= cap
            &&& forall|j: int| v1 <= j < v ==> entries_size(m) - entries_size(#[trigger] m.take(j)) > cap
        }
}

/// The split point exists: some `v` in `1..n` puts at most `cap` bytes of
/// entries on each side.
pub proof fn lemma_split_point_exists(m: Seq<LeafEntry>, cap: nat) -> (v: int)
    requires
        m.len() >= 2,
        forall|i: int| 0 <= i < m.len() ==> entries_size(m) + entry_size(#[trigger] m[i]) <= 2 * cap,
    ensures
        1 <= v < m.len(),
        entries_size(m.take(v)) <= cap,
        entries_size(m) - entries_size(m.take(v)) <= cap,
{
    let n = m.len() as int;
    assert(m.take(n) =~= m);
    if entries_size(m) <= cap {
        lemma_prefix_sizes(m, n / 2, n);
        n / 2
    } else {
        let b = find_last_fit(m, cap, n);
        assert(entries_size(m) + entry_size(m[0]) <= 2 * cap);
        lemma_prefix_sizes(m, 0, 1);
        assert(m.take(0) =~= Seq::<LeafEntry>::empty());
        if b == 0 {
            assert(entries_size(m.take(1)) > cap);
            lemma_prefix_sizes(m, 1, n);
        }
        assert(b < n);
        lemma_prefix_sizes(m, b, b + 1);
        assert(entries_size(m) + entry_size(m[b]) <= 2 * cap);
        b
    }
}

/// The split index chosen by `leaf_split_by_size`: start at the middle
/// entry, move left until the left half fits, then right until the right
/// half fits.
fn leaf_split_point(old: &LeafNode, page_size: usize) -> (m: u16)
    requires
        old.wf(),
        old.view_entries().len() >= 2,
        11 <= page_size <= u16::MAX,
        exists|v: int| #[trigger] leaf_cut_fits(old.view_entries(), (page_size - 11) as nat, v),
    ensures
        1 <= m < old.view_entries().len(),
        11 + entries_size(old.view_entries().take(m as int)) <= page_size,
        11 + entries_size(old.view_entries()) - entries_size(old.view_entries().take(m as int))
            <= page_size,
        leaf_cut(old.view_entries(), (page_size - 11) as nat, m as int),
{
    let ghost mm = old.view_entries();
    let ghost cap = (page_size - 11) as nat;
    let ghost v = choose|v: int| leaf_cut_fits(mm, cap, v);
    proof {
        old.lemma_wf_facts();
        lemma_enc_entries_len(mm);
        assert(mm.take(mm.len() as int) =~= mm);
    }
    let n = old.nkeys();
    let total = old.entries.len();
    let starts = &old.entry_start;
    assert(total <= u16::MAX);
    let mut m: u16 = n / 2;
    while m >= 1 && LEAF_HEADER as usize + starts[m as usize] as usize > page_size
        invariant
            n == mm.len(),
            n >= 2,
            starts@.len() == n + 1,
            forall|i: int| 0 <= i <= n ==> #[trigger] starts@[i] == entries_size(mm.take(i)),
            1 <= v < n,
            entries_size(mm.take(v)) <= cap,
            cap == page_size - 11,
            m <= n / 2,
            v <= n / 2 ==> v <= m,
            v > n / 2 ==> m == n / 2,
            forall|j: int| m < j <= n / 2 ==> entries_size(#[trigger] mm.take(j)) > cap,
        decreases m,
    {
        proof {
            if v > n / 2 {
                lemma_prefix_sizes(mm, (n / 2) as int, v);
            }
            if m == v {
                assert(false);
            }
        }
        m = m - 1;
    }
    let ghost m1 = m;
    proof {
        if m == 0 {
            assert(v <= n / 2);
            assert(false);
        }
        lemma_prefix_sizes(mm, m as int, n as int);
    }
    while m < n - 1 && LEAF_HEADER as usize + (total - starts[m as usize] as usize) > page_size
        invariant
            n == mm.len(),
            starts@.len() == n + 1,
            forall|i: int| 0 <= i <= n ==> #[trigger] starts@[i] == entries_size(mm.take(i)),
            total == entries_size(mm),
            total <= u16::MAX,
            n >= 2,
            1 <= v < n,
            entries_size(mm.take(v)) <= cap,
            entries_size(mm) - entries_size(mm.take(v)) <= cap,
            cap == page_size - 11,
            1 <= m1 <= m < n,
            m1 <= n / 2,
            entries_size(mm.take(m1 as int)) <= cap,
            forall|j: int| m1 < j <= n / 2 ==> entries_size(#[trigger] mm.take(j)) > cap,
            forall|j: int| m1 <= j < m ==> entries_size(mm) - entries_size(#[trigger] mm.take(j)) > cap,
            entries_size(mm.take(m as int)) <= cap,
            entries_size(mm.take(m as int)) <= total,
            m == m1 || m <= v,
        decreases n - m,
    {
        proof {
            if m >= v {
                lemma_prefix_sizes(mm, v, m as int);
                assert(false);
            }
            lemma_prefix_sizes(mm, m + 1, v);
            lemma_prefix_sizes(mm, m + 1, n as int);
        }
        m = m + 1;
    }
    proof {
        if entries_size(mm) - entries_size(mm.take(m as int)) > cap {
            assert(m == n - 1);
            if m >= v {
                lemma_prefix_sizes(mm, v, m as int);
            }
            assert(false);
        }
        assert(mm.take(m1 as int) == mm.take(m1 as int));
    }
    m
}

/// Splits an oversized leaf into two that each fit `page_size`, driven
/// by actual serialized size, not an entry-count estimate.
pub fn leaf_split_by_size(old: LeafNode, page_size: usize) -> (r: (LeafNode, LeafNode))
    requires
        old.wf(),
        old.view_entries().len() >= 2,
        11 <= page_size <= u16::MAX,
        exists|v: int| #[trigger] leaf_cut_fits(old.view_entries(), (page_size - 11) as nat, v),
    ensures
        r.0.wf(),
        r.1.wf(),
        r.0.spec_id() == 0,
        r.1.spec_id() == 0,
        r.0.view_entries().len() >= 1,
        r.1.view_entries().len() >= 1,
        r.0.view_entries() + r.1.view_entries() == old.view_entries(),
        leaf_cut(old.view_entries(), (page_size - 11) as nat, r.0.view_entries().len() as int),
        r.0.spec_nbytes() <= page_size,
        r.1.spec_nbytes() <= page_size,
{
    let ghost mm = old.view_entries();
    let m = leaf_split_point(&old, page_size);
    let n = old.nkeys();
    proof {
        lemma_prefix_sizes(mm, m as int, n as int);
        lemma_prefix_sizes(mm, 0, m as int);
        assert(mm.take(n as int) =~= mm);
        assert(mm.subrange(0, m as int) =~= mm.take(m as int));
    }
    let mut left = LeafNode::empty(page_size);
    left.push_range(&old, 0, m);
    let mut right = LeafNode::empty(page_size);
    right.push_range(&old, m, n);
    proof {
        assert(left.view_entries() + right.view_entries() =~= mm);
    }
    (left, right)
}

} // verus!
