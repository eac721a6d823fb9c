//! The pointer-and-offset node page format.
//!
//! | type | nkeys | pointers | offsets  | key-values | unused |
//! |  2B  |  2B   | nkeys*8B | nkeys*2B |    ...     |        |
//!
//! Each key-value entry is `| key_size | val_size | key | val |`
//! (2B/2B/../..). Offsets are relative to the start of the key-value
//! area; the first is always 0 and is not stored, so offset slot `i - 1`
//! holds the offset of entry `i`, and the last slot holds where the
//! key-value area ends.
use vstd::bytes::*;
use vstd::prelude::*;
use vstd::slice::*;

use crate::page::codec::{
    le16, le64, lemma_le16_roundtrip, lemma_le64_roundtrip, push_slice, push_u16, push_zeros,
    read_u16, read_u64, u16_at, u64_at,
};

verus! {

/// Internal nodes hold separator keys and child pointers.
pub const NODE_INTERNAL: u16 = 1;

/// Leaf nodes hold the actual key-value pairs.
pub const NODE_LEAF: u16 = 2;

/// 2B type + 2B nkeys.
pub const HEADER: u16 = 4;

/// One entry: child pointer, key, value.
pub type Entry = (u64, Seq<u8>, Seq<u8>);

/// Bytes one entry takes in the key-value area.
pub open spec fn entry_size(e: Entry) -> nat {
    4 + e.1.len() + e.2.len()
}

/// Bytes the first `i` entries of `es` take in the key-value area.
pub open spec fn prefix_size(es: Seq<Entry>, i: int) -> nat
    decreases i,
{
    if i <= 0 {
        0
    } else {
        prefix_size(es, i - 1) + entry_size(es[i - 1])
    }
}

/// Bytes all of `es` take in the key-value area.
pub open spec fn total_size(es: Seq<Entry>) -> nat {
    prefix_size(es, es.len() as int)
}

/// Where the key-value area starts in a node of `n` entries.
pub open spec fn kv_base(n: nat) -> nat {
    4 + 10 * n
}

/// Bytes a node holding exactly `es` uses.
pub open spec fn node_size(es: Seq<Entry>) -> nat {
    kv_base(es.len()) + total_size(es)
}

/// Where the pointer of entry `i` is stored.
pub open spec fn ptr_slot(i: int) -> int {
    4 + 8 * i
}

/// Where the offset of entry `i` (`i >= 1`) is stored, in a node of `n`
/// entries.
pub open spec fn off_slot(n: nat, i: int) -> int {
    4 + 8 * n + 2 * (i - 1)
}

/// On-page form of one entry in the key-value area.
pub open spec fn enc_kv(e: Entry) -> Seq<u8> {
    le16(e.1.len()) + le16(e.2.len()) + e.1 + e.2
}

/// `b` with `s` written at `pos`.
pub open spec fn splice(b: Seq<u8>, pos: int, s: Seq<u8>) -> Seq<u8> {
    b.subrange(0, pos) + s + b.subrange(pos + s.len(), b.len() as int)
}

/// Entry `i` of `es` has its pointer stored in `b`.
pub open spec fn ptr_ok(b: Seq<u8>, es: Seq<Entry>, i: int) -> bool {
    b.subrange(ptr_slot(i), ptr_slot(i) + 8) == le64(es[i].0)
}

/// The offset of entry `i` of `es` is stored in `b`.
pub open spec fn off_ok(b: Seq<u8>, n: nat, es: Seq<Entry>, i: int) -> bool {
    b.subrange(off_slot(n, i), off_slot(n, i) + 2) == le16(prefix_size(es, i))
}

/// The key and value of entry `i` of `es` are stored in `b`.
pub open spec fn kv_ok(b: Seq<u8>, n: nat, es: Seq<Entry>, i: int) -> bool {
    let p: int = (kv_base(n) + prefix_size(es, i)) as int;
    b.subrange(p, p + entry_size(es[i])) == enc_kv(es[i])
}

/// `b` declares node type `t` and `n` entries, and its first `es.len()`
/// entries are `es`: what a node being filled entry by entry looks like.
#[verifier::opaque]
pub open spec fn built(b: Seq<u8>, t: u16, n: nat, es: Seq<Entry>) -> bool {
    &&& es.len() <= n
    &&& kv_base(n) + total_size(es) <= b.len()
    &&& kv_base(n) + total_size(es) <= u16::MAX
    &&& b.subrange(0, 2) == le16(t as nat)
    &&& b.subrange(2, 4) == le16(n)
    &&& forall|i: int| 0 <= i < es.len() ==> #[trigger] ptr_ok(b, es, i)
    &&& forall|i: int| 1 <= i <= es.len() ==> #[trigger] off_ok(b, n, es, i)
    &&& forall|i: int| 0 <= i < es.len() ==> #[trigger] kv_ok(b, n, es, i)
}

/// `b` is a complete node of type `t` holding exactly `es`.
pub open spec fn holds(b: Seq<u8>, t: u16, es: Seq<Entry>) -> bool {
    built(b, t, es.len(), es)
}

/// The node type stored in `b`.
pub open spec fn spec_btype(b: Seq<u8>) -> u16 {
    u16_at(b, 0)
}

/// The entry count stored in `b`.
pub open spec fn spec_nkeys(b: Seq<u8>) -> u16 {
    u16_at(b, 2)
}

/// The offset of entry `i` as stored in `b`.
pub open spec fn spec_offset(b: Seq<u8>, i: int) -> int {
    if i == 0 {
        0
    } else {
        u16_at(b, off_slot(spec_nkeys(b) as nat, i)) as int
    }
}

/// Where entry `i` starts, as stored in `b`.
pub open spec fn spec_kv_pos(b: Seq<u8>, i: int) -> int {
    kv_base(spec_nkeys(b) as nat) + spec_offset(b, i)
}

/// Entry `i` as stored in `b`.
pub open spec fn spec_entry(b: Seq<u8>, i: int) -> Entry {
    let p = spec_kv_pos(b, i);
    let kl = u16_at(b, p) as int;
    let vl = u16_at(b, p + 2) as int;
    (u64_at(b, ptr_slot(i)), b.subrange(p + 4, p + 4 + kl), b.subrange(p + 4 + kl, p + 4 + kl + vl))
}

/// All entries as stored in `b`.
pub open spec fn spec_entries(b: Seq<u8>) -> Seq<Entry> {
    Seq::new(spec_nkeys(b) as nat, |i: int| spec_entry(b, i))
}

/// Bytes used by the node stored in `b`.
pub open spec fn spec_nbytes(b: Seq<u8>) -> int {
    spec_kv_pos(b, spec_nkeys(b) as int)
}

/// `b` holds a complete, consistent node.
pub open spec fn node_wf(b: Seq<u8>) -> bool {
    b.len() >= 4 && holds(b, spec_btype(b), spec_entries(b))
}

// ---------------------------------------------------------------------
// Sizes
// ---------------------------------------------------------------------

pub proof fn lemma_prefix_mono(es: Seq<Entry>, i: int, j: int)
    requires
        0 <= i <= j,
    ensures
        prefix_size(es, i) <= prefix_size(es, j),
    decreases j - i,
{
    if i < j {
        lemma_prefix_mono(es, i, j - 1);
    }
}

/// Entries after `es.len()` do not change the sizes of the first ones.
pub proof fn lemma_prefix_append(a: Seq<Entry>, b: Seq<Entry>, i: int)
    requires
        0 <= i <= a.len() + b.len(),
    ensures
        i <= a.len() ==> prefix_size(a + b, i) == prefix_size(a, i),
        i >= a.len() ==> prefix_size(a + b, i) == prefix_size(a, a.len() as int) + prefix_size(
            b,
            i - a.len(),
        ),
    decreases i,
{
    if i > 0 {
        lemma_prefix_append(a, b, i - 1);
        assert((a + b)[i - 1] == if i - 1 < a.len() {
            a[i - 1]
        } else {
            b[i - 1 - a.len()]
        });
    }
}

pub proof fn lemma_prefix_push(es: Seq<Entry>, e: Entry, i: int)
    requires
        0 <= i <= es.len() + 1,
    ensures
        i <= es.len() ==> prefix_size(es.push(e), i) == prefix_size(es, i),
        prefix_size(es.push(e), es.len() as int + 1) == total_size(es) + entry_size(e),
{
    lemma_prefix_append(es, seq![e], i);
    lemma_prefix_append(es, seq![e], es.len() as int + 1);
    assert(es + seq![e] =~= es.push(e));
    assert(prefix_size(seq![e], 1) == entry_size(e)) by {
        assert(prefix_size(seq![e], 0) == 0);
    }
}

/// The size of a run of entries taken out of the middle of `es`.
pub proof fn lemma_prefix_subrange(es: Seq<Entry>, lo: int, hi: int, i: int)
    requires
        0 <= lo <= hi <= es.len(),
        0 <= i <= hi - lo,
    ensures
        prefix_size(es.subrange(lo, hi), i) == prefix_size(es, lo + i) - prefix_size(es, lo),
    decreases i,
{
    if i > 0 {
        lemma_prefix_subrange(es, lo, hi, i - 1);
    }
}

pub proof fn lemma_total_concat(a: Seq<Entry>, b: Seq<Entry>)
    ensures
        total_size(a + b) == total_size(a) + total_size(b),
{
    lemma_prefix_append(a, b, a.len() + b.len() as int);
}

// ---------------------------------------------------------------------
// Bytes
// ---------------------------------------------------------------------

pub proof fn lemma_splice_len(b: Seq<u8>, pos: int, s: Seq<u8>)
    requires
        0 <= pos,
        pos + s.len() <= b.len(),
    ensures
        splice(b, pos, s).len() == b.len(),
        splice(b, pos, s).subrange(pos, pos + s.len()) == s,
{
    assert(splice(b, pos, s).subrange(pos, pos + s.len()) =~= s);
}

/// Writing at `pos` leaves every byte range outside the write alone.
pub proof fn lemma_splice_outside(b: Seq<u8>, pos: int, s: Seq<u8>, p: int, q: int)
    requires
        0 <= pos,
        pos + s.len() <= b.len(),
        0 <= p <= q <= b.len(),
        q <= pos || pos + s.len() <= p,
    ensures
        splice(b, pos, s).subrange(p, q) == b.subrange(p, q),
{
    assert(splice(b, pos, s).subrange(p, q) =~= b.subrange(p, q));
}

/// A range inside a range whose bytes are known.
pub proof fn lemma_sub_of_sub(b: Seq<u8>, p: int, s: Seq<u8>, a: int, c: int)
    requires
        0 <= p,
        p + s.len() <= b.len(),
        b.subrange(p, p + s.len()) == s,
        0 <= a <= c <= s.len(),
    ensures
        b.subrange(p + a, p + c) == s.subrange(a, c),
{
    assert(b.subrange(p + a, p + c) =~= s.subrange(a, c));
}

/// Two byte strings agreeing on `[p, q)` agree on every range inside it.
pub proof fn lemma_agree_inside(b1: Seq<u8>, b2: Seq<u8>, p: int, q: int, a: int, c: int)
    requires
        0 <= p <= a <= c <= q,
        q <= b1.len(),
        q <= b2.len(),
        b1.subrange(p, q) == b2.subrange(p, q),
    ensures
        b1.subrange(a, c) == b2.subrange(a, c),
{
    assert(b1.subrange(a, c) =~= b1.subrange(p, q).subrange(a - p, c - p));
    assert(b2.subrange(a, c) =~= b2.subrange(p, q).subrange(a - p, c - p));
}

// ---------------------------------------------------------------------
// Reading back what was built
// ---------------------------------------------------------------------

/// The size facts of a node being filled.
pub proof fn lemma_built_sizes(b: Seq<u8>, t: u16, n: nat, es: Seq<Entry>)
    requires
        built(b, t, n, es),
    ensures
        es.len() <= n,
        kv_base(n) + total_size(es) <= b.len(),
        kv_base(n) + total_size(es) <= u16::MAX,
        spec_btype(b) == t,
        spec_nkeys(b) == n,
        b.len() >= 4,
{
    reveal(built);
    lemma_le16_roundtrip(t as nat);
    lemma_le16_roundtrip(n);
}

/// The offset of entry `i` of a node being filled.
pub proof fn lemma_built_offset(b: Seq<u8>, t: u16, n: nat, es: Seq<Entry>, i: int)
    requires
        built(b, t, n, es),
        0 <= i <= es.len(),
    ensures
        spec_offset(b, i) == prefix_size(es, i),
        spec_kv_pos(b, i) == kv_base(n) + prefix_size(es, i),
        prefix_size(es, i) <= total_size(es),
        i >= 1 ==> off_slot(n, i) + 2 <= kv_base(n),
{
    lemma_built_sizes(b, t, n, es);
    lemma_prefix_mono(es, i, es.len() as int);
    if i >= 1 {
        reveal(built);
        assert(off_ok(b, n, es, i));
        lemma_le16_roundtrip(prefix_size(es, i));
    }
}

/// Entry `i` of a node being filled, as its readers see it.
pub proof fn lemma_built_entry(b: Seq<u8>, t: u16, n: nat, es: Seq<Entry>, i: int)
    requires
        built(b, t, n, es),
        0 <= i < es.len(),
    ensures
        spec_entry(b, i) == es[i],
        u64_at(b, ptr_slot(i)) == es[i].0,
        spec_kv_pos(b, i) == kv_base(n) + prefix_size(es, i),
        u16_at(b, spec_kv_pos(b, i)) == es[i].1.len(),
        u16_at(b, spec_kv_pos(b, i) + 2) == es[i].2.len(),
        spec_kv_pos(b, i) + entry_size(es[i]) <= kv_base(n) + total_size(es),
        ptr_slot(i) + 8 <= kv_base(n),
        i >= 1 ==> off_slot(n, i) + 2 <= kv_base(n),
{
    lemma_built_offset(b, t, n, es, i);
    lemma_prefix_mono(es, i + 1, es.len() as int);
    reveal(built);
    let e = es[i];
    assert(ptr_ok(b, es, i));
    assert(kv_ok(b, n, es, i));
    lemma_le64_roundtrip(e.0);
    let p: int = (kv_base(n) + prefix_size(es, i)) as int;
    let s = enc_kv(e);
    lemma_le16_roundtrip(e.1.len());
    lemma_le16_roundtrip(e.2.len());
    lemma_sub_of_sub(b, p, s, 0, 2);
    assert(s.subrange(0, 2) =~= le16(e.1.len()));
    lemma_sub_of_sub(b, p, s, 2, 4);
    assert(s.subrange(2, 4) =~= le16(e.2.len()));
    let kl = e.1.len() as int;
    let vl = e.2.len() as int;
    lemma_sub_of_sub(b, p, s, 4, 4 + kl);
    assert(s.subrange(4, 4 + kl) =~= e.1);
    lemma_sub_of_sub(b, p, s, 4 + kl, 4 + kl + vl);
    assert(s.subrange(4 + kl, 4 + kl + vl) =~= e.2);
}

/// What the readers find in a node built with `es` as its first entries.
pub proof fn lemma_built_reads(b: Seq<u8>, t: u16, n: nat, es: Seq<Entry>)
    requires
        built(b, t, n, es),
    ensures
        spec_btype(b) == t,
        spec_nkeys(b) == n,
        forall|i: int| 0 <= i <= es.len() ==> #[trigger] spec_offset(b, i) == prefix_size(es, i),
        forall|i: int| 0 <= i < es.len() ==> #[trigger] spec_entry(b, i) == es[i],
{
    lemma_built_sizes(b, t, n, es);
    assert forall|i: int| 0 <= i <= es.len() implies #[trigger] spec_offset(b, i) == prefix_size(es, i) by {
        lemma_built_offset(b, t, n, es, i);
    }
    assert forall|i: int| 0 <= i < es.len() implies #[trigger] spec_entry(b, i) == es[i] by {
        lemma_built_entry(b, t, n, es, i);
    }
}

/// A node built with all `n` of its entries is complete.
pub proof fn lemma_holds_wf(b: Seq<u8>, t: u16, es: Seq<Entry>)
    requires
        holds(b, t, es),
    ensures
        node_wf(b),
        spec_btype(b) == t,
        spec_entries(b) == es,
        spec_nkeys(b) == es.len(),
        spec_nbytes(b) == node_size(es),
{
    lemma_built_reads(b, t, es.len(), es);
    lemma_built_sizes(b, t, es.len(), es);
    lemma_built_offset(b, t, es.len(), es, es.len() as int);
    assert(spec_entries(b) =~= es);
}

/// The readers of a complete node.
pub proof fn lemma_wf_reads(b: Seq<u8>)
    requires
        node_wf(b),
    ensures
        forall|i: int|
            0 <= i <= spec_nkeys(b) ==> #[trigger] spec_offset(b, i) == prefix_size(spec_entries(b), i),
        spec_nbytes(b) == node_size(spec_entries(b)),
        spec_nbytes(b) <= b.len(),
        spec_nbytes(b) <= u16::MAX,
        spec_entries(b).len() == spec_nkeys(b),
{
    lemma_built_reads(b, spec_btype(b), spec_nkeys(b) as nat, spec_entries(b));
    lemma_built_sizes(b, spec_btype(b), spec_nkeys(b) as nat, spec_entries(b));
}

/// Bytes past the end of a node's used area do not matter.
pub proof fn lemma_built_frame(b1: Seq<u8>, b2: Seq<u8>, t: u16, n: nat, es: Seq<Entry>)
    requires
        built(b1, t, n, es),
        kv_base(n) + total_size(es) <= b2.len(),
        b2.subrange(0, 4 + 8 * es.len() as int) == b1.subrange(0, 4 + 8 * es.len() as int),
        b2.subrange(4 + 8 * n as int, 4 + 8 * n + 2 * es.len() as int) == b1.subrange(
            4 + 8 * n as int,
            4 + 8 * n + 2 * es.len() as int,
        ),
        b2.subrange(kv_base(n) as int, kv_base(n) + total_size(es) as int) == b1.subrange(
            kv_base(n) as int,
            kv_base(n) + total_size(es) as int,
        ),
    ensures
        built(b2, t, n, es),
{
    reveal(built);    let m = es.len() as int;
    let nn = n as int;
    lemma_agree_inside(b2, b1, 0, 4 + 8 * m, 0, 2);
    lemma_agree_inside(b2, b1, 0, 4 + 8 * m, 2, 4);
    assert forall|i: int| 0 <= i < es.len() implies #[trigger] ptr_ok(b2, es, i) by {
        assert(ptr_ok(b1, es, i));
        lemma_agree_inside(b2, b1, 0, 4 + 8 * m, ptr_slot(i), ptr_slot(i) + 8);
    }
    assert forall|i: int| 1 <= i <= es.len() implies #[trigger] off_ok(b2, n, es, i) by {
        assert(off_ok(b1, n, es, i));
        lemma_agree_inside(b2, b1, 4 + 8 * nn, 4 + 8 * nn + 2 * m, off_slot(n, i), off_slot(n, i) + 2);
    }
    assert forall|i: int| 0 <= i < es.len() implies #[trigger] kv_ok(b2, n, es, i) by {
        assert(kv_ok(b1, n, es, i));
        lemma_prefix_mono(es, i + 1, m);
        let p: int = (kv_base(n) + prefix_size(es, i)) as int;
        lemma_agree_inside(
            b2,
            b1,
            kv_base(n) as int,
            kv_base(n) + total_size(es) as int,
            p,
            p + entry_size(es[i]),
        );
    }
}

/// Cutting a node's buffer down to at least its used size keeps it.
pub proof fn lemma_holds_truncate(b: Seq<u8>, t: u16, es: Seq<Entry>, len: int)
    requires
        holds(b, t, es),
        node_size(es) <= len <= b.len(),
    ensures
        holds(b.subrange(0, len), t, es),
{
    let b2 = b.subrange(0, len);
    let n = es.len() as int;
    let e: int = (kv_base(es.len()) + total_size(es)) as int;
    assert(b2.subrange(0, 4 + 8 * n) =~= b.subrange(0, 4 + 8 * n));
    assert(b2.subrange(4 + 8 * n, 4 + 10 * n) =~= b.subrange(4 + 8 * n, 4 + 10 * n));
    assert(b2.subrange(4 + 10 * n, e) =~= b.subrange(4 + 10 * n, e));
    lemma_built_frame(b, b2, t, es.len(), es);
}

/// A fresh header starts a node with no entries yet.
pub proof fn lemma_built_empty(b: Seq<u8>, t: u16, n: nat)
    requires
        b.len() >= kv_base(n),
        kv_base(n) <= u16::MAX,
        b.subrange(0, 2) == le16(t as nat),
        b.subrange(2, 4) == le16(n),
    ensures
        built(b, t, n, Seq::<Entry>::empty()),
{
    reveal(built);}

/// The first `m` entries of `b`, as its readers see them.
pub open spec fn spec_prefix(b: Seq<u8>, m: nat) -> Seq<Entry> {
    Seq::new(m, |i: int| spec_entry(b, i))
}

/// The first `m` entries of the node in `b` are in place.
pub open spec fn filled(b: Seq<u8>, m: nat) -> bool {
    b.len() >= 4 && built(b, spec_btype(b), spec_nkeys(b) as nat, spec_prefix(b, m))
}

/// A node built with `es` first is filled up to `es.len()` with them.
pub proof fn lemma_built_filled(b: Seq<u8>, t: u16, n: nat, es: Seq<Entry>)
    requires
        built(b, t, n, es),
    ensures
        filled(b, es.len()),
        spec_prefix(b, es.len()) == es,
        spec_btype(b) == t,
        spec_nkeys(b) == n,
{
    lemma_built_reads(b, t, n, es);
    lemma_built_sizes(b, t, n, es);
    assert(spec_prefix(b, es.len()) =~= es);
}

/// Appending one entry to a node being filled.
pub proof fn lemma_built_push(b: Seq<u8>, t: u16, n: nat, es: Seq<Entry>, e: Entry)
    requires
        built(b, t, n, es),
        es.len() < n,
        kv_base(n) + total_size(es) + entry_size(e) <= b.len(),
        kv_base(n) + total_size(es) + entry_size(e) <= u16::MAX,
        b.subrange(ptr_slot(es.len() as int), ptr_slot(es.len() as int) + 8) == le64(e.0),
        b.subrange(off_slot(n, es.len() as int + 1), off_slot(n, es.len() as int + 1) + 2) == le16(
            total_size(es) + entry_size(e),
        ),
        b.subrange(
            kv_base(n) + total_size(es) as int,
            kv_base(n) + total_size(es) + entry_size(e) as int,
        ) == enc_kv(e),
    ensures
        built(b, t, n, es.push(e)),
{
    reveal(built);    let es2 = es.push(e);
    let m = es.len() as int;
    lemma_prefix_push(es, e, m);
    assert forall|i: int| 0 <= i < es2.len() implies #[trigger] ptr_ok(b, es2, i) by {
        if i < m {
            assert(ptr_ok(b, es, i));
        }
    }
    assert forall|i: int| 1 <= i <= es2.len() implies #[trigger] off_ok(b, n, es2, i) by {
        lemma_prefix_push(es, e, i);
        if i <= m {
            assert(off_ok(b, n, es, i));
        }
    }
    assert forall|i: int| 0 <= i < es2.len() implies #[trigger] kv_ok(b, n, es2, i) by {
        lemma_prefix_push(es, e, i);
        if i < m {
            assert(kv_ok(b, n, es, i));
        }
    }
}

// ---------------------------------------------------------------------
// Executable access
// ---------------------------------------------------------------------

/// Writes `src` over the bytes of `b` starting at `pos`.
pub fn write_at(b: &mut Vec<u8>, pos: usize, src: &[u8])
    requires
        pos + src@.len() <= old(b)@.len(),
    ensures
        final(b)@ == splice(old(b)@, pos as int, src@),
        final(b)@.len() == old(b)@.len(),
{
    let n = src.len();
    let bl = b.len();
    let mut i: usize = 0;
    while i < n
        invariant
            n == src@.len(),
            i <= n,
            bl == old(b)@.len(),
            pos + n <= b@.len(),
            b@.len() == old(b)@.len(),
            b@ == old(b)@.subrange(0, pos as int) + src@.subrange(0, i as int) + old(b)@.subrange(
                pos + i,
                old(b)@.len() as int,
            ),
        decreases n - i,
    {
        b.set(pos + i, src[i]);
        i = i + 1;
        assert(b@ =~= old(b)@.subrange(0, pos as int) + src@.subrange(0, i as int) + old(b)@.subrange(
            pos + i,
            old(b)@.len() as int,
        ));
    }
    assert(src@.subrange(0, n as int) =~= src@);
}

/// The node type.
pub fn read_btype(b: &[u8]) -> (r: u16)
    requires
        b@.len() >= 2,
    ensures
        r == spec_btype(b@),
{
    read_u16(b, 0)
}

/// The entry count.
pub fn read_nkeys(b: &[u8]) -> (r: u16)
    requires
        b@.len() >= 4,
    ensures
        r == spec_nkeys(b@),
{
    read_u16(b, 2)
}

/// The pointer of entry `idx`.
pub fn read_ptr(b: &[u8], idx: u16) -> (r: u64)
    requires
        b@.len() >= 4,
        idx < spec_nkeys(b@),
        ptr_slot(idx as int) + 8 <= b@.len(),
        ptr_slot(idx as int) <= u16::MAX,
    ensures
        r == u64_at(b@, ptr_slot(idx as int)),
{
    let pos = (HEADER + 8 * idx) as usize;
    read_u64(b, pos)
}

/// The offset of entry `idx`; the first is always 0 and is not stored.
pub fn read_offset(b: &[u8], idx: u16) -> (r: u16)
    requires
        b@.len() >= 4,
        idx > 0 ==> off_slot(spec_nkeys(b@) as nat, idx as int) + 2 <= b@.len(),
        idx > 0 ==> off_slot(spec_nkeys(b@) as nat, idx as int) <= u16::MAX,
    ensures
        r == spec_offset(b@, idx as int),
{
    if idx == 0 {
        return 0;
    }
    let n = read_nkeys(b);
    let pos = (HEADER + 8 * n + 2 * (idx - 1)) as usize;
    read_u16(b, pos)
}

/// Where entry `idx` starts.
pub fn read_kv_pos(b: &[u8], idx: u16) -> (r: u16)
    requires
        b@.len() >= 4,
        idx <= spec_nkeys(b@),
        idx > 0 ==> off_slot(spec_nkeys(b@) as nat, idx as int) + 2 <= b@.len(),
        spec_kv_pos(b@, idx as int) <= u16::MAX,
    ensures
        r == spec_kv_pos(b@, idx as int),
{
    let n = read_nkeys(b);
    HEADER + 8 * n + 2 * n + read_offset(b, idx)
}

/// Writes the node type and entry count.
pub fn write_header(b: &mut Vec<u8>, btype: u16, nkeys: u16)
    requires
        old(b)@.len() >= 4,
    ensures
        final(b)@ == le16(btype as nat) + le16(nkeys as nat) + old(b)@.subrange(4, old(b)@.len() as int),
{
    let t = u16_to_le_bytes(btype);
    write_at(b, 0, t.as_slice());
    let n = u16_to_le_bytes(nkeys);
    write_at(b, 2, n.as_slice());
    assert(b@ =~= le16(btype as nat) + le16(nkeys as nat) + old(b)@.subrange(4, old(b)@.len() as int));
}

/// Writes the pointer of entry `idx`.
pub fn write_ptr(b: &mut Vec<u8>, idx: u16, val: u64)
    requires
        old(b)@.len() >= 4,
        idx < spec_nkeys(old(b)@),
        ptr_slot(idx as int) + 8 <= old(b)@.len(),
        ptr_slot(idx as int) <= u16::MAX,
    ensures
        final(b)@ == splice(old(b)@, ptr_slot(idx as int), le64(val)),
{
    let pos = (HEADER + 8 * idx) as usize;
    let v = u64_to_le_bytes(val);
    write_at(b, pos, v.as_slice());
}

/// Writes the offset of entry `idx` (`idx >= 1`).
pub fn write_offset(b: &mut Vec<u8>, idx: u16, val: u16)
    requires
        old(b)@.len() >= 4,
        idx >= 1,
        off_slot(spec_nkeys(old(b)@) as nat, idx as int) + 2 <= old(b)@.len(),
        off_slot(spec_nkeys(old(b)@) as nat, idx as int) <= u16::MAX,
    ensures
        final(b)@ == splice(
            old(b)@,
            off_slot(spec_nkeys(old(b)@) as nat, idx as int),
            le16(val as nat),
        ),
{
    let n = read_nkeys(b.as_slice());
    let pos = (HEADER + 8 * n + 2 * (idx - 1)) as usize;
    let v = u16_to_le_bytes(val);
    write_at(b, pos, v.as_slice());
}

/// The key of entry `idx` of a complete node.
pub fn read_key(b: &[u8], idx: u16) -> (r: &[u8])
    requires
        node_wf(b@),
        idx < spec_nkeys(b@),
    ensures
        r@ == spec_entries(b@)[idx as int].1,
{
    proof {
        lemma_built_sizes(b@, spec_btype(b@), spec_nkeys(b@) as nat, spec_entries(b@));
        lemma_built_entry(b@, spec_btype(b@), spec_nkeys(b@) as nat, spec_entries(b@), idx as int);
    }
    let pos = read_kv_pos(b, idx) as usize;
    let klen = read_u16(b, pos) as usize;
    slice_subrange(b, pos + 4, pos + 4 + klen)
}

/// The value of entry `idx` of a complete node.
pub fn read_val(b: &[u8], idx: u16) -> (r: &[u8])
    requires
        node_wf(b@),
        idx < spec_nkeys(b@),
    ensures
        r@ == spec_entries(b@)[idx as int].2,
{
    proof {
        lemma_built_sizes(b@, spec_btype(b@), spec_nkeys(b@) as nat, spec_entries(b@));
        lemma_built_entry(b@, spec_btype(b@), spec_nkeys(b@) as nat, spec_entries(b@), idx as int);
    }
    let pos = read_kv_pos(b, idx) as usize;
    let klen = read_u16(b, pos) as usize;
    let vlen = read_u16(b, pos + 2) as usize;
    slice_subrange(b, pos + 4 + klen, pos + 4 + klen + vlen)
}

/// Bytes used by a complete node.
pub fn read_nbytes(b: &[u8]) -> (r: u16)
    requires
        node_wf(b@),
    ensures
        r == spec_nbytes(b@),
        r == node_size(spec_entries(b@)),
{
    proof {
        lemma_wf_reads(b@);
        lemma_built_offset(b@, spec_btype(b@), spec_nkeys(b@) as nat, spec_entries(b@), spec_nkeys(b@) as int);
    }
    let n = read_nkeys(b);
    read_kv_pos(b, n)
}

/// Writes entry `idx` (pointer, key and value) and the offset of the
/// entry after it, into a node whose first `idx` entries are in place.
pub fn append_kv(
    new: &mut Vec<u8>,
    idx: u16,
    ptr: u64,
    key: &[u8],
    val: &[u8],
    Ghost(t): Ghost<u16>,
    Ghost(n): Ghost<nat>,
    Ghost(es): Ghost<Seq<Entry>>,
)
    requires
        built(old(new)@, t, n, es),
        es.len() == idx,
        idx < n,
        kv_base(n) + total_size(es) + 4 + key@.len() + val@.len() <= old(new)@.len(),
        kv_base(n) + total_size(es) + 4 + key@.len() + val@.len() <= u16::MAX,
    ensures
        built(final(new)@, t, n, es.push((ptr, key@, val@))),
        final(new)@.len() == old(new)@.len(),
{
    let ghost e: Entry = (ptr, key@, val@);
    let ghost b0 = new@;
    let ghost base = kv_base(n) as int;
    let ghost tot = total_size(es) as int;
    let ghost m = idx as int;
    let ghost nn = n as int;
    proof {
        lemma_built_sizes(b0, t, n, es);
        lemma_le16_roundtrip(key@.len());
        lemma_le16_roundtrip(val@.len());
        lemma_le64_roundtrip(ptr);
        lemma_le16_roundtrip(n);
    }
    write_ptr(new, idx, ptr);
    let ghost b1 = new@;
    proof {
        lemma_splice_len(b0, ptr_slot(m), le64(ptr));
        lemma_splice_outside(b0, ptr_slot(m), le64(ptr), 0, 4 + 8 * m);
        lemma_splice_outside(b0, ptr_slot(m), le64(ptr), 4 + 8 * nn, 4 + 8 * nn + 2 * m);
        lemma_splice_outside(b0, ptr_slot(m), le64(ptr), base, base + tot);
        lemma_built_frame(b0, b1, t, n, es);
        lemma_built_sizes(b1, t, n, es);
        lemma_built_offset(b1, t, n, es, m);
    }
    let pos = read_kv_pos(new.as_slice(), idx) as usize;
    let mut kv: Vec<u8> = Vec::new();
    push_u16(&mut kv, key.len() as u16);
    push_u16(&mut kv, val.len() as u16);
    push_slice(&mut kv, key);
    push_slice(&mut kv, val);
    proof {
        assert(kv@ =~= enc_kv(e));
    }
    write_at(new, pos, kv.as_slice());
    let ghost b2 = new@;
    proof {
        lemma_splice_len(b1, pos as int, kv@);
        lemma_splice_outside(b1, pos as int, kv@, 0, 4 + 8 * m);
        lemma_splice_outside(b1, pos as int, kv@, 4 + 8 * nn, 4 + 8 * nn + 2 * m);
        lemma_splice_outside(b1, pos as int, kv@, base, base + tot);
        lemma_splice_outside(b1, pos as int, kv@, ptr_slot(m), ptr_slot(m) + 8);
        lemma_built_frame(b1, b2, t, n, es);
        lemma_built_sizes(b2, t, n, es);
        lemma_built_offset(b2, t, n, es, m);
    }
    let off = read_offset(new.as_slice(), idx) + 4 + (key.len() + val.len()) as u16;
    write_offset(new, idx + 1, off);
    proof {
        let b3 = new@;
        let os = off_slot(n, m + 1);
        lemma_le16_roundtrip(off as nat);
        lemma_splice_len(b2, os, le16(off as nat));
        lemma_splice_outside(b2, os, le16(off as nat), 0, 4 + 8 * m);
        lemma_splice_outside(b2, os, le16(off as nat), 4 + 8 * nn, 4 + 8 * nn + 2 * m);
        lemma_splice_outside(b2, os, le16(off as nat), base, base + tot);
        lemma_splice_outside(b2, os, le16(off as nat), ptr_slot(m), ptr_slot(m) + 8);
        lemma_splice_outside(b2, os, le16(off as nat), base + tot, base + tot + entry_size(e));
        lemma_built_frame(b2, b3, t, n, es);
        lemma_built_push(b3, t, n, es, e);
    }
}

/// Copies entries `src_old..src_old + n` of `src` into `new` as its
/// entries `dst_new..dst_new + n`.
pub fn append_range(
    new: &mut Vec<u8>,
    src: &[u8],
    dst_new: u16,
    src_old: u16,
    n: u16,
    Ghost(t): Ghost<u16>,
    Ghost(total): Ghost<nat>,
    Ghost(es): Ghost<Seq<Entry>>,
)
    requires
        built(old(new)@, t, total, es),
        es.len() == dst_new,
        dst_new + n <= total,
        node_wf(src@),
        src_old + n <= spec_nkeys(src@),
        kv_base(total) + total_size(es + spec_entries(src@).subrange(src_old as int, src_old + n)) <= old(new)@.len(),
        kv_base(total) + total_size(es + spec_entries(src@).subrange(src_old as int, src_old + n)) <= u16::MAX,
    ensures
        built(final(new)@, t, total, es + spec_entries(src@).subrange(src_old as int, src_old + n)),
        final(new)@.len() == old(new)@.len(),
{
    let ghost olds = spec_entries(src@);
    let ghost sub = olds.subrange(src_old as int, src_old + n);
    let mut i: u16 = 0;
    proof {
        assert(es + sub.subrange(0, 0) =~= es);
        lemma_total_concat(es, sub);
    }
    while i < n
        invariant
            i <= n,
            olds == spec_entries(src@),
            sub == olds.subrange(src_old as int, src_old + n),
            node_wf(src@),
            src_old + n <= spec_nkeys(src@),
            es.len() == dst_new,
            dst_new + n <= total,
            built(new@, t, total, es + sub.subrange(0, i as int)),
            new@.len() == old(new)@.len(),
            kv_base(total) + total_size(es) + total_size(sub) <= new@.len(),
            kv_base(total) + total_size(es) + total_size(sub) <= u16::MAX,
        decreases n - i,
    {
        let ghost cur = es + sub.subrange(0, i as int);
        proof {
            lemma_total_concat(es, sub.subrange(0, i as int));
            lemma_prefix_subrange(sub, 0, i as int, i as int);
            lemma_prefix_mono(sub, i as int + 1, n as int);
            lemma_built_sizes(src@, spec_btype(src@), spec_nkeys(src@) as nat, olds);
            lemma_built_entry(src@, spec_btype(src@), spec_nkeys(src@) as nat, olds, src_old + i);
        }
        let p = read_ptr_wf(src, src_old + i);
        let k = read_key(src, src_old + i);
        let v = read_val(src, src_old + i);
        proof {
            assert(sub[i as int] == olds[src_old + i]);
            assert(entry_size(sub[i as int]) == 4 + k@.len() + v@.len());
            assert(prefix_size(sub, i as int + 1) == prefix_size(sub, i as int) + entry_size(sub[i as int]));
        }
        append_kv(new, dst_new + i, p, k, v, Ghost(t), Ghost(total), Ghost(cur));
        proof {
            assert(cur.push((p, k@, v@)) =~= es + sub.subrange(0, i + 1));
        }
        i = i + 1;
    }
    proof {
        assert(sub.subrange(0, n as int) =~= sub);
    }
}

/// The pointer of entry `idx` of a complete node.
pub fn read_ptr_wf(b: &[u8], idx: u16) -> (r: u64)
    requires
        node_wf(b@),
        idx < spec_nkeys(b@),
    ensures
        r == spec_entries(b@)[idx as int].0,
{
    proof {
        lemma_built_sizes(b@, spec_btype(b@), spec_nkeys(b@) as nat, spec_entries(b@));
        lemma_built_entry(b@, spec_btype(b@), spec_nkeys(b@) as nat, spec_entries(b@), idx as int);
    }
    read_ptr(b, idx)
}

// ---------------------------------------------------------------------
// Building whole nodes
// ---------------------------------------------------------------------

/// Starts filling `new` as a node of type `t` with `n` entries.
pub fn start_node(new: &mut Vec<u8>, t: u16, n: u16, Ghost(size): Ghost<nat>)
    requires
        old(new)@.len() >= 4,
        kv_base(n as nat) + size <= old(new)@.len(),
        kv_base(n as nat) + size <= u16::MAX,
    ensures
        built(final(new)@, t, n as nat, Seq::<Entry>::empty()),
        final(new)@.len() == old(new)@.len(),
{
    write_header(new, t, n);
    proof {
        lemma_le16_roundtrip(t as nat);
        lemma_le16_roundtrip(n as nat);
        assert(new@.subrange(0, 2) =~= le16(t as nat));
        assert(new@.subrange(2, 4) =~= le16(n as nat));
        lemma_built_empty(new@, t, n as nat);
    }
}

/// `a` is no bigger than `a + b`, and its size is the sum.
proof fn lemma_size_concat(a: Seq<Entry>, b: Seq<Entry>)
    ensures
        total_size(a + b) == total_size(a) + total_size(b),
        total_size(a) <= total_size(a + b),
{
    lemma_total_concat(a, b);
}

/// `new` becomes a leaf holding `src`'s entries with `(0, key, val)`
/// inserted at `idx`.
pub fn fill_leaf_insert(new: &mut Vec<u8>, src: &[u8], idx: u16, key: &[u8], val: &[u8])
    requires
        node_wf(src@),
        idx <= spec_nkeys(src@),
        spec_nkeys(src@) < u16::MAX,
        old(new)@.len() >= 4,
        node_size(spec_entries(src@).insert(idx as int, (0u64, key@, val@))) <= old(new)@.len(),
        node_size(spec_entries(src@).insert(idx as int, (0u64, key@, val@))) <= u16::MAX,
    ensures
        holds(final(new)@, NODE_LEAF, spec_entries(src@).insert(idx as int, (0u64, key@, val@))),
        final(new)@.len() == old(new)@.len(),
{
    let ghost olds = spec_entries(src@);
    let ghost e: Entry = (0u64, key@, val@);
    let ghost n = olds.len() as int;
    let ghost a = olds.subrange(0, idx as int);
    let ghost c = olds.subrange(idx as int, n);
    let ghost all = olds.insert(idx as int, e);
    proof {
        assert(all =~= a.push(e) + c);
        assert(a.push(e) =~= a + seq![e]);
        lemma_size_concat(a.push(e), c);
        lemma_size_concat(a, seq![e]);
        lemma_prefix_push(a, e, a.len() as int);
        assert(Seq::<Entry>::empty() + a =~= a);
    }
    let nk = read_nkeys(src);
    start_node(new, NODE_LEAF, nk + 1, Ghost(total_size(all)));
    append_range(new, src, 0, 0, idx, Ghost(NODE_LEAF), Ghost(n as nat + 1), Ghost(Seq::empty()));
    append_kv(new, idx, 0, key, val, Ghost(NODE_LEAF), Ghost(n as nat + 1), Ghost(a));
    append_range(new, src, idx + 1, idx, nk - idx, Ghost(NODE_LEAF), Ghost(n as nat + 1), Ghost(a.push(e)));
}

/// `new` becomes a leaf holding `src`'s entries with entry `idx`
/// replaced by `(0, key, val)`.
pub fn fill_leaf_update(new: &mut Vec<u8>, src: &[u8], idx: u16, key: &[u8], val: &[u8])
    requires
        node_wf(src@),
        idx < spec_nkeys(src@),
        old(new)@.len() >= 4,
        node_size(spec_entries(src@).update(idx as int, (0u64, key@, val@))) <= old(new)@.len(),
        node_size(spec_entries(src@).update(idx as int, (0u64, key@, val@))) <= u16::MAX,
    ensures
        holds(final(new)@, NODE_LEAF, spec_entries(src@).update(idx as int, (0u64, key@, val@))),
        final(new)@.len() == old(new)@.len(),
{
    let ghost olds = spec_entries(src@);
    let ghost e: Entry = (0u64, key@, val@);
    let ghost n = olds.len() as int;
    let ghost a = olds.subrange(0, idx as int);
    let ghost c = olds.subrange(idx + 1, n);
    let ghost all = olds.update(idx as int, e);
    proof {
        assert(all =~= a.push(e) + c);
        assert(a.push(e) =~= a + seq![e]);
        lemma_size_concat(a.push(e), c);
        lemma_size_concat(a, seq![e]);
        lemma_prefix_push(a, e, a.len() as int);
        assert(Seq::<Entry>::empty() + a =~= a);
    }
    let nk = read_nkeys(src);
    start_node(new, NODE_LEAF, nk, Ghost(total_size(all)));
    append_range(new, src, 0, 0, idx, Ghost(NODE_LEAF), Ghost(n as nat), Ghost(Seq::empty()));
    append_kv(new, idx, 0, key, val, Ghost(NODE_LEAF), Ghost(n as nat), Ghost(a));
    append_range(new, src, idx + 1, idx + 1, nk - (idx + 1), Ghost(NODE_LEAF), Ghost(n as nat), Ghost(a.push(e)));
}

/// `new` becomes a leaf holding `src`'s entries without entry `idx`.
pub fn fill_leaf_delete(new: &mut Vec<u8>, src: &[u8], idx: u16)
    requires
        node_wf(src@),
        idx < spec_nkeys(src@),
        old(new)@.len() >= 4,
        node_size(spec_entries(src@).remove(idx as int)) <= old(new)@.len(),
    ensures
        holds(final(new)@, NODE_LEAF, spec_entries(src@).remove(idx as int)),
        final(new)@.len() == old(new)@.len(),
{
    let ghost olds = spec_entries(src@);
    let ghost n = olds.len() as int;
    let ghost a = olds.subrange(0, idx as int);
    let ghost c = olds.subrange(idx + 1, n);
    let ghost all = olds.remove(idx as int);
    proof {
        assert(all =~= a + c);
        lemma_size_concat(a, c);
        assert(Seq::<Entry>::empty() + a =~= a);
        lemma_built_sizes(src@, spec_btype(src@), n as nat, olds);
        assert(olds =~= a + (seq![olds[idx as int]] + c));
        lemma_size_concat(a, seq![olds[idx as int]] + c);
        lemma_size_concat(seq![olds[idx as int]], c);
    }
    let nk = read_nkeys(src);
    start_node(new, NODE_LEAF, nk - 1, Ghost(total_size(all)));
    append_range(new, src, 0, 0, idx, Ghost(NODE_LEAF), Ghost((n - 1) as nat), Ghost(Seq::empty()));
    append_range(new, src, idx, idx + 1, nk - (idx + 1), Ghost(NODE_LEAF), Ghost((n - 1) as nat), Ghost(a));
}

/// `new` becomes a node of `left`'s type holding `left`'s entries
/// followed by `right`'s.
pub fn fill_merge(new: &mut Vec<u8>, left: &[u8], right: &[u8])
    requires
        node_wf(left@),
        node_wf(right@),
        old(new)@.len() >= 4,
        node_size(spec_entries(left@) + spec_entries(right@)) <= old(new)@.len(),
        node_size(spec_entries(left@) + spec_entries(right@)) <= u16::MAX,
    ensures
        holds(final(new)@, spec_btype(left@), spec_entries(left@) + spec_entries(right@)),
        final(new)@.len() == old(new)@.len(),
{
    let ghost ls = spec_entries(left@);
    let ghost rs = spec_entries(right@);
    let ghost n = (ls.len() + rs.len()) as nat;
    proof {
        lemma_size_concat(ls, rs);
        assert(Seq::<Entry>::empty() + ls =~= ls);
        assert(ls.subrange(0, ls.len() as int) =~= ls);
        assert(rs.subrange(0, rs.len() as int) =~= rs);
    }
    let t = read_btype(left);
    let nl = read_nkeys(left);
    let nr = read_nkeys(right);
    start_node(new, t, nl + nr, Ghost(total_size(ls + rs)));
    append_range(new, left, 0, 0, nl, Ghost(t), Ghost(n), Ghost(Seq::empty()));
    append_range(new, right, nl, 0, nr, Ghost(t), Ghost(n), Ghost(ls));
}

/// `new` becomes an internal node holding `src`'s entries with entries
/// `idx` and `idx + 1` replaced by the single `(ptr, key, [])`.
pub fn fill_replace_2kid(new: &mut Vec<u8>, src: &[u8], idx: u16, ptr: u64, key: &[u8])
    requires
        node_wf(src@),
        idx + 1 < spec_nkeys(src@),
        old(new)@.len() >= 4,
        node_size(
            spec_entries(src@).subrange(0, idx as int).push((ptr, key@, Seq::<u8>::empty()))
                + spec_entries(src@).subrange(idx + 2, spec_nkeys(src@) as int),
        ) <= old(new)@.len(),
        node_size(
            spec_entries(src@).subrange(0, idx as int).push((ptr, key@, Seq::<u8>::empty()))
                + spec_entries(src@).subrange(idx + 2, spec_nkeys(src@) as int),
        ) <= u16::MAX,
    ensures
        holds(
            final(new)@,
            NODE_INTERNAL,
            spec_entries(src@).subrange(0, idx as int).push((ptr, key@, Seq::<u8>::empty()))
                + spec_entries(src@).subrange(idx + 2, spec_nkeys(src@) as int),
        ),
        final(new)@.len() == old(new)@.len(),
{
    let ghost olds = spec_entries(src@);
    let ghost e: Entry = (ptr, key@, Seq::<u8>::empty());
    let ghost n = olds.len() as int;
    let ghost a = olds.subrange(0, idx as int);
    let ghost c = olds.subrange(idx + 2, n);
    let ghost all = a.push(e) + c;
    proof {
        assert(a.push(e) =~= a + seq![e]);
        lemma_size_concat(a.push(e), c);
        lemma_size_concat(a, seq![e]);
        lemma_prefix_push(a, e, a.len() as int);
        assert(Seq::<Entry>::empty() + a =~= a);
    }
    let nk = read_nkeys(src);
    let empty: [u8; 0] = [];
    proof {
        assert(empty@ =~= Seq::<u8>::empty());
    }
    start_node(new, NODE_INTERNAL, nk - 1, Ghost(total_size(all)));
    append_range(new, src, 0, 0, idx, Ghost(NODE_INTERNAL), Ghost((n - 1) as nat), Ghost(Seq::empty()));
    append_kv(new, idx, ptr, key, empty.as_slice(), Ghost(NODE_INTERNAL), Ghost((n - 1) as nat), Ghost(a));
    append_range(
        new,
        src,
        idx + 1,
        idx + 2,
        nk - (idx + 2),
        Ghost(NODE_INTERNAL),
        Ghost((n - 1) as nat),
        Ghost(a.push(e)),
    );
}

/// Sizes of the two halves of a node cut after its first `k` entries.
pub proof fn lemma_cut_sizes(es: Seq<Entry>, k: int)
    requires
        0 <= k <= es.len(),
    ensures
        node_size(es.subrange(0, k)) == kv_base(k as nat) + prefix_size(es, k),
        node_size(es.subrange(k, es.len() as int)) + kv_base(k as nat) + prefix_size(es, k)
            == node_size(es) + 4,
{
    lemma_prefix_subrange(es, 0, k, k);
    lemma_prefix_subrange(es, k, es.len() as int, es.len() - k);
}

/// The left half grows, and the right half shrinks, as the cut moves right.
pub proof fn lemma_cut_mono(es: Seq<Entry>, j: int, k: int)
    requires
        0 <= j <= k <= es.len(),
    ensures
        node_size(es.subrange(0, j)) <= node_size(es.subrange(0, k)),
        node_size(es.subrange(k, es.len() as int)) <= node_size(es.subrange(j, es.len() as int)),
{
    lemma_cut_sizes(es, j);
    lemma_cut_sizes(es, k);
    lemma_prefix_mono(es, j, k);
}

/// A node of one entry.
pub proof fn lemma_single_size(es: Seq<Entry>, i: int)
    requires
        0 <= i < es.len(),
    ensures
        node_size(es.subrange(i, i + 1)) == kv_base(1) + entry_size(es[i]),
{
    let s = es.subrange(i, i + 1);
    assert(prefix_size(s, 0) == 0);
    assert(prefix_size(s, 1) == entry_size(es[i]));
}

/// Bytes the first `k` entries of `src` would take as a node of their own.
fn left_bytes(src: &[u8], k: u16) -> (r: u16)
    requires
        node_wf(src@),
        k <= spec_nkeys(src@),
    ensures
        r == node_size(spec_entries(src@).subrange(0, k as int)),
{
    proof {
        let es = spec_entries(src@);
        lemma_built_sizes(src@, spec_btype(src@), spec_nkeys(src@) as nat, es);
        lemma_built_offset(src@, spec_btype(src@), spec_nkeys(src@) as nat, es, k as int);
        lemma_cut_sizes(es, k as int);
        lemma_cut_mono(es, k as int, es.len() as int);
        assert(es.subrange(0, es.len() as int) =~= es);
    }
    HEADER + 8 * k + 2 * k + read_offset(src, k)
}

/// Splits `src` into two nodes of its type: `right` fits `page_size`,
/// and `left`, if it does not, can itself be split in two whose left
/// half fits (its last entry alone took it over).
pub fn split_in_two(left: &mut Vec<u8>, right: &mut Vec<u8>, src: &[u8], page_size: u16)
    requires
        node_wf(src@),
        spec_nkeys(src@) >= 2,
        kv_base(1) + entry_size(spec_entries(src@)[0]) <= page_size,
        kv_base(1) + entry_size(spec_entries(src@)[spec_nkeys(src@) - 1]) <= page_size,
        spec_nbytes(src@) + HEADER <= u16::MAX,
        old(left)@.len() >= 4,
        old(right)@.len() >= 4,
        node_size(spec_entries(src@).drop_last()) <= old(left)@.len(),
        page_size <= old(right)@.len(),
    ensures
        1 <= spec_nkeys(final(left)@) < spec_nkeys(src@),
        holds(
            final(left)@,
            spec_btype(src@),
            spec_entries(src@).subrange(0, spec_nkeys(final(left)@) as int),
        ),
        holds(
            final(right)@,
            spec_btype(src@),
            spec_entries(src@).subrange(spec_nkeys(final(left)@) as int, spec_nkeys(src@) as int),
        ),
        node_size(spec_entries(src@).subrange(spec_nkeys(final(left)@) as int, spec_nkeys(src@) as int))
            <= page_size,
        node_size(spec_entries(src@).subrange(0, spec_nkeys(final(left)@) as int)) <= page_size
            || node_size(spec_entries(src@).subrange(0, spec_nkeys(final(left)@) - 1)) + page_size
            < node_size(spec_entries(src@)) + HEADER,
        final(left)@.len() == old(left)@.len(),
        final(right)@.len() == old(right)@.len(),
{
    let ghost es = spec_entries(src@);
    let n = read_nkeys(src);
    let ghost nn = n as int;
    proof {
        lemma_built_sizes(src@, spec_btype(src@), n as nat, es);
        lemma_wf_reads(src@);
        lemma_single_size(es, 0);
        lemma_single_size(es, nn - 1);
    }
    let mut nleft = n / 2;
    while left_bytes(src, nleft) > page_size
        invariant
            node_wf(src@),
            es == spec_entries(src@),
            n == spec_nkeys(src@),
            nn == n,
            nn >= 2,
            1 <= nleft <= n / 2,
            node_size(es.subrange(0, 1)) <= page_size,
        decreases nleft,
    {
        proof {
            if nleft == 1 {
                assert(false);
            }
        }
        nleft = nleft - 1;
    }
    let ghost first = nleft as int;
    let nbytes = read_nbytes(src);
    proof {
        assert(es.subrange(0, nn) =~= es);
        lemma_cut_sizes(es, first);
        lemma_cut_mono(es, first, nn);
    }
    while nbytes - left_bytes(src, nleft) + HEADER > page_size
        invariant
            node_wf(src@),
            es == spec_entries(src@),
            n == spec_nkeys(src@),
            nn == n,
            nbytes == node_size(es),
            nbytes + HEADER <= u16::MAX,
            1 <= first <= nleft <= n - 1,
            node_size(es.subrange(0, first)) <= page_size,
            node_size(es.subrange(nn - 1, nn)) <= page_size,
            nleft == first || node_size(es.subrange(nleft - 1, nn)) > page_size,
            node_size(es.subrange(0, nleft as int)) <= nbytes,
        decreases n - nleft,
    {
        proof {
            lemma_cut_sizes(es, nleft as int);
            lemma_cut_mono(es, nleft as int, nn);
            if nleft == n - 1 {
                assert(false);
            }
        }
        nleft = nleft + 1;
        proof {
            lemma_cut_sizes(es, nleft as int - 1);
            lemma_cut_mono(es, nleft as int, nn);
            assert(es.subrange(0, nn) =~= es);
        }
    }
    proof {
        let k = nleft as int;
        lemma_cut_sizes(es, k);
        lemma_cut_sizes(es, k - 1);
        lemma_cut_mono(es, k, nn - 1);
        assert(es.drop_last() =~= es.subrange(0, nn - 1));
    }
    fill_cut(left, right, src, nleft);
}

/// `left` and `right` become nodes of `src`'s type holding its entries
/// before and from `k`.
fn fill_cut(left: &mut Vec<u8>, right: &mut Vec<u8>, src: &[u8], k: u16)
    requires
        node_wf(src@),
        k <= spec_nkeys(src@),
        old(left)@.len() >= 4,
        old(right)@.len() >= 4,
        node_size(spec_entries(src@).subrange(0, k as int)) <= old(left)@.len(),
        node_size(spec_entries(src@).subrange(0, k as int)) <= u16::MAX,
        node_size(spec_entries(src@).subrange(k as int, spec_nkeys(src@) as int)) <= old(right)@.len(),
        node_size(spec_entries(src@).subrange(k as int, spec_nkeys(src@) as int)) <= u16::MAX,
    ensures
        holds(final(left)@, spec_btype(src@), spec_entries(src@).subrange(0, k as int)),
        holds(
            final(right)@,
            spec_btype(src@),
            spec_entries(src@).subrange(k as int, spec_nkeys(src@) as int),
        ),
        spec_nkeys(final(left)@) == k,
        final(left)@.len() == old(left)@.len(),
        final(right)@.len() == old(right)@.len(),
{
    let ghost es = spec_entries(src@);
    let n = read_nkeys(src);
    let ghost nn = n as int;
    let nright = n - k;
    proof {
        assert(Seq::<Entry>::empty() + es.subrange(0, k as int) =~= es.subrange(0, k as int));
        assert(Seq::<Entry>::empty() + es.subrange(k as int, nn) =~= es.subrange(k as int, nn));
    }
    let t = read_btype(src);
    start_node(left, t, k, Ghost(total_size(es.subrange(0, k as int))));
    start_node(right, t, nright, Ghost(total_size(es.subrange(k as int, nn))));
    append_range(left, src, 0, 0, k, Ghost(t), Ghost(k as nat), Ghost(Seq::empty()));
    append_range(right, src, 0, k, nright, Ghost(t), Ghost(nright as nat), Ghost(Seq::empty()));
    proof {
        lemma_holds_wf(left@, t, es.subrange(0, k as int));
    }
}

/// A node buffer of `size` zero bytes.
pub fn zeroed(size: usize) -> (r: Vec<u8>)
    ensures
        r@.len() == size,
{
    let mut v: Vec<u8> = Vec::new();
    push_zeros(&mut v, size);
    v
}

/// Keeps the first `len` bytes of a node buffer.
pub fn cut_to(b: &mut Vec<u8>, len: usize)
    ensures
        len <= old(b)@.len() ==> final(b)@ == old(b)@.subrange(0, len as int),
        len > old(b)@.len() ==> final(b)@ == old(b)@,
{
    b.truncate(len);
}

/// What splitting a node into at most three pieces produced: `count`
/// pieces of type `t`, each fitting `page_size`, holding `es` between
/// them in order; the unused pieces are empty buffers.
pub open spec fn split_result(
    count: u16,
    p0: Seq<u8>,
    p1: Seq<u8>,
    p2: Seq<u8>,
    t: u16,
    es: Seq<Entry>,
    page_size: nat,
) -> bool {
    let fits0 = piece_fits(p0, t, page_size);
    let fits1 = piece_fits(p1, t, page_size);
    let fits2 = piece_fits(p2, t, page_size);
    &&& 1 <= count <= 3
    &&& (count == 1) == (node_size(es) <= page_size)
    &&& count == 1 ==> fits0 && spec_entries(p0) == es && p1.len() == 0 && p2.len() == 0
    &&& count == 2 ==> fits0 && fits1 && spec_entries(p0) + spec_entries(p1) == es
        && spec_nkeys(p0) >= 1 && spec_nkeys(p1) >= 1 && p2.len() == 0
    &&& count == 3 ==> fits0 && fits1 && fits2 && spec_entries(p0) + spec_entries(p1)
        + spec_entries(p2) == es && spec_nkeys(p0) >= 1 && spec_nkeys(p1) >= 1 && spec_nkeys(p2) >= 1
}

/// `p` is a complete node of type `t` fitting `page_size`.
pub open spec fn piece_fits(p: Seq<u8>, t: u16, page_size: nat) -> bool {
    node_wf(p) && spec_btype(p) == t && spec_nbytes(p) <= page_size
}

/// Every entry of `es`, alone in a node, fits `page_size`.
pub open spec fn entries_fit(es: Seq<Entry>, page_size: nat) -> bool {
    forall|i: int| 0 <= i < es.len() ==> kv_base(1) + entry_size(#[trigger] es[i]) <= page_size
}

/// Splits a node into 1-3 nodes that each fit within `page_size`. One
/// entry alone always fits, and the node is less than two pages, so
/// three pieces always suffice.
pub fn split_in_three(node: Vec<u8>, page_size: u16) -> (r: (u16, Vec<u8>, Vec<u8>, Vec<u8>))
    requires
        node_wf(node@),
        page_size >= HEADER,
        entries_fit(spec_entries(node@), page_size as nat),
        node_size(spec_entries(node@)) + 3 <= 2 * page_size,
        node_size(spec_entries(node@)) + HEADER <= u16::MAX,
    ensures
        split_result(r.0, r.1@, r.2@, r.3@, spec_btype(node@), spec_entries(node@), page_size as nat),
{
    let ghost es = spec_entries(node@);
    let ghost t = spec_btype(node@);
    let mut node = node;
    proof {
        lemma_wf_reads(node@);
    }
    let ghost before = node@;
    if read_nbytes(node.as_slice()) <= page_size {
        cut_to(&mut node, page_size as usize);
        proof {
            if page_size as nat <= before.len() {
                lemma_holds_truncate(before, t, es, page_size as int);
            }
            lemma_holds_wf(node@, t, es);
        }
        return (1, node, Vec::new(), Vec::new());
    }
    split_oversized(node.as_slice(), page_size)
}

/// Splits a node that does not fit `page_size` into two or three.
fn split_oversized(node: &[u8], page_size: u16) -> (r: (u16, Vec<u8>, Vec<u8>, Vec<u8>))
    requires
        node_wf(node@),
        entries_fit(spec_entries(node@), page_size as nat),
        node_size(spec_entries(node@)) > page_size,
        node_size(spec_entries(node@)) + 3 <= 2 * page_size,
        node_size(spec_entries(node@)) + HEADER <= u16::MAX,
    ensures
        split_result(r.0, r.1@, r.2@, r.3@, spec_btype(node@), spec_entries(node@), page_size as nat),
{
    let ghost es = spec_entries(node@);
    let ghost t = spec_btype(node@);
    let ghost n = es.len() as int;
    proof {
        lemma_built_sizes(node@, t, n as nat, es);
        lemma_built_offset(node@, t, n as nat, es, n);
        if n < 2 {
            if n == 1 {
                lemma_single_size(es, 0);
                assert(es.subrange(0, 1) =~= es);
            }
            assert(false);
        }
        lemma_cut_mono(es, n - 1, n);
        assert(es.drop_last() =~= es.subrange(0, n - 1));
        assert(es.subrange(0, n) =~= es);
    }
    let mut left = zeroed(2 * page_size as usize);
    let mut right = zeroed(page_size as usize);
    split_in_two(&mut left, &mut right, node, page_size);
    let ghost k = spec_nkeys(left@) as int;
    let ghost ls = es.subrange(0, k);
    let ghost rs = es.subrange(k, n);
    proof {
        lemma_holds_wf(left@, t, ls);
        lemma_holds_wf(right@, t, rs);
        assert(ls + rs =~= es);
    }
    let ghost left_before = left@;
    if read_nbytes(left.as_slice()) <= page_size {
        cut_to(&mut left, page_size as usize);
        proof {
            lemma_holds_truncate(left_before, t, ls, page_size as int);
            lemma_holds_wf(left@, t, ls);
        }
        return (2, left, right, Vec::new());
    }
    proof {
        assert forall|i: int| 0 <= i < ls.len() implies kv_base(1) + entry_size(#[trigger] ls[i])
            <= page_size by {
            assert(ls[i] == es[i]);
        }
        assert(ls.drop_last() =~= es.subrange(0, k - 1));
        lemma_cut_mono(es, k, n);
    }
    let (leftleft, middle) = split_left_piece(left.as_slice(), page_size);
    proof {
        assert(spec_entries(leftleft@) + spec_entries(middle@) + rs =~= es);
    }
    (3, leftleft, middle, right)
}

/// Splits the left piece of a split that is still too big, and whose
/// last entry alone took it over `page_size`, into two that fit.
fn split_left_piece(left: &[u8], page_size: u16) -> (r: (Vec<u8>, Vec<u8>))
    requires
        node_wf(left@),
        entries_fit(spec_entries(left@), page_size as nat),
        node_size(spec_entries(left@)) > page_size,
        node_size(spec_entries(left@).drop_last()) <= page_size,
        node_size(spec_entries(left@)) + HEADER <= u16::MAX,
    ensures
        piece_fits(r.0@, spec_btype(left@), page_size as nat),
        piece_fits(r.1@, spec_btype(left@), page_size as nat),
        spec_entries(r.0@) + spec_entries(r.1@) == spec_entries(left@),
        spec_nkeys(r.0@) >= 1,
        spec_nkeys(r.1@) >= 1,
{
    let ghost ls = spec_entries(left@);
    let ghost t = spec_btype(left@);
    let ghost k = ls.len() as int;
    proof {
        lemma_built_sizes(left@, t, k as nat, ls);
        lemma_built_offset(left@, t, k as nat, ls, k);
        if k < 2 {
            if k == 1 {
                lemma_single_size(ls, 0);
                assert(ls.subrange(0, 1) =~= ls);
            }
            assert(false);
        }
        assert(ls.drop_last() =~= ls.subrange(0, k - 1));
    }
    let mut leftleft = zeroed(page_size as usize);
    let mut middle = zeroed(page_size as usize);
    split_in_two(&mut leftleft, &mut middle, left, page_size);
    proof {
        let j = spec_nkeys(leftleft@) as int;
        lemma_holds_wf(leftleft@, t, ls.subrange(0, j));
        lemma_holds_wf(middle@, t, ls.subrange(j, k));
        assert(ls.subrange(0, j) + ls.subrange(j, k) =~= ls);
        lemma_cut_mono(ls, j, k - 1);
    }
    (leftleft, middle)
}

/// Size of a node after inserting, replacing or removing one entry.
pub proof fn lemma_size_edits(es: Seq<Entry>, i: int, e: Entry)
    ensures
        0 <= i <= es.len() ==> node_size(es.insert(i, e)) == node_size(es) + 10 + entry_size(e),
        0 <= i < es.len() ==> node_size(es.update(i, e)) + entry_size(es[i]) == node_size(es)
            + entry_size(e),
        0 <= i < es.len() ==> node_size(es.remove(i)) + 10 + entry_size(es[i]) == node_size(es),
{
    if 0 <= i <= es.len() {
        let a = es.subrange(0, i);
        let c = es.subrange(i, es.len() as int);
        assert(es.insert(i, e) =~= a + (seq![e] + c));
        assert(es =~= a + c);
        lemma_total_concat(a, seq![e] + c);
        lemma_total_concat(seq![e], c);
        lemma_total_concat(a, c);
        assert(prefix_size(seq![e], 0) == 0);
        assert(total_size(seq![e]) == entry_size(e));
    }
    if 0 <= i < es.len() {
        let a = es.subrange(0, i);
        let c = es.subrange(i + 1, es.len() as int);
        assert(es.update(i, e) =~= a + (seq![e] + c));
        assert(es =~= a + (seq![es[i]] + c));
        assert(es.remove(i) =~= a + c);
        lemma_total_concat(a, seq![e] + c);
        lemma_total_concat(seq![e], c);
        lemma_total_concat(a, seq![es[i]] + c);
        lemma_total_concat(seq![es[i]], c);
        lemma_total_concat(a, c);
        assert(prefix_size(seq![e], 0) == 0);
        assert(total_size(seq![e]) == entry_size(e));
        assert(prefix_size(seq![es[i]], 0) == 0);
        assert(total_size(seq![es[i]]) == entry_size(es[i]));
    }
}

/// Size of a node made of two runs of entries.
pub proof fn lemma_size_concat2(a: Seq<Entry>, b: Seq<Entry>)
    ensures
        node_size(a + b) == node_size(a) + node_size(b) - 4,
{
    lemma_total_concat(a, b);
}

/// Entries of the same sizes take the same room.
pub proof fn lemma_same_sizes(a: Seq<Entry>, b: Seq<Entry>)
    requires
        a.len() == b.len(),
        forall|i: int| 0 <= i < a.len() ==> entry_size(#[trigger] a[i]) == entry_size(b[i]),
    ensures
        total_size(a) == total_size(b),
        node_size(a) == node_size(b),
{
    lemma_same_sizes_prefix(a, b, a.len() as int);
}

proof fn lemma_same_sizes_prefix(a: Seq<Entry>, b: Seq<Entry>, i: int)
    requires
        a.len() == b.len(),
        0 <= i <= a.len(),
        forall|i: int| 0 <= i < a.len() ==> entry_size(#[trigger] a[i]) == entry_size(b[i]),
    ensures
        prefix_size(a, i) == prefix_size(b, i),
    decreases i,
{
    if i > 0 {
        lemma_same_sizes_prefix(a, b, i - 1);
    }
}

} // verus!
