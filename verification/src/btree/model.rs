//! What the pages of a node store mean: which of them form a well-shaped
//! B+Tree and which key-value map it holds.
use vstd::prelude::*;

use crate::node::format::{node_size, node_wf, spec_btype, spec_entries, spec_nbytes, Entry};
use crate::page::keys::{lemma_lex_order, lex_le, lex_lt};

verus! {

/// Pages of a node store, by pointer.
pub type Pages = Map<u64, Seq<u8>>;

/// Size of every page of the tree.
pub open spec fn page_size() -> nat {
    4096
}

/// Longest key the tree takes.
pub open spec fn max_key() -> nat {
    1000
}

/// Longest value the tree takes.
pub open spec fn max_val() -> nat {
    3000
}

/// Node type of the nodes at height `h`: leaves at 0.
pub open spec fn type_at(h: nat) -> u16 {
    if h == 0 {
        2
    } else {
        1
    }
}

/// `k` is strictly below the bound `hi` (none = unbounded).
pub open spec fn below(k: Seq<u8>, hi: Option<Seq<u8>>) -> bool {
    hi is None || lex_lt(k, hi.unwrap())
}

/// Bound `a` is at most bound `b`.
pub open spec fn bound_le(a: Option<Seq<u8>>, b: Option<Seq<u8>>) -> bool {
    b is None || (a is Some && lex_le(a.unwrap(), b.unwrap()))
}

/// Keys strictly increasing.
pub open spec fn sorted(es: Seq<Entry>) -> bool {
    forall|i: int, j: int| 0 <= i < j < es.len() ==> lex_lt(#[trigger] es[i].1, #[trigger] es[j].1)
}

/// Upper bound of the keys under entry `i`.
pub open spec fn next_bound(es: Seq<Entry>, i: int, hi: Option<Seq<u8>>) -> Option<Seq<u8>> {
    if i + 1 < es.len() {
        Some(es[i + 1].1)
    } else {
        hi
    }
}

/// Entry `i` is where the search for `key` goes: the last entry whose
/// key is at most `key`.
pub open spec fn slot_ok(es: Seq<Entry>, key: Seq<u8>, i: int) -> bool {
    &&& 0 <= i < es.len()
    &&& lex_le(es[i].1, key)
    &&& i + 1 < es.len() ==> lex_lt(key, es[i + 1].1)
}

/// The entry the search for `key` goes to.
pub open spec fn slot(es: Seq<Entry>, key: Seq<u8>) -> int {
    choose|i: int| slot_ok(es, key, i)
}

/// Entry `i` holds `key`.
pub open spec fn found_at(es: Seq<Entry>, key: Seq<u8>, i: int) -> bool {
    0 <= i < es.len() && es[i].1 == key
}

/// The value of `key` among a leaf's entries.
pub open spec fn leaf_get(es: Seq<Entry>, key: Seq<u8>) -> Option<Seq<u8>> {
    if exists|i: int| found_at(es, key, i) {
        Some(es[choose|i: int| found_at(es, key, i)].2)
    } else {
        None
    }
}

/// The entries of a node at height `h`: sorted, below `hi`, within the
/// size limits (separators carry no value), and, above the leaves, each
/// heading a well-shaped subtree covering its keys, no page shared.
#[verifier::opaque]
pub open spec fn list_ok(p: Pages, es: Seq<Entry>, h: nat, hi: Option<Seq<u8>>) -> bool
    decreases h, 0nat,
{
    &&& sorted(es)
    &&& forall|i: int| 0 <= i < es.len() ==> below(#[trigger] es[i].1, hi)
    &&& forall|i: int|
        0 <= i < es.len() ==> (#[trigger] es[i]).1.len() <= max_key() && if h == 0 {
            es[i].2.len() <= max_val()
        } else {
            es[i].2.len() == 0
        }
    &&& h > 0 ==> forall|i: int|
        0 <= i < es.len() ==> sub_ok(p, (#[trigger] es[i]).0, (h - 1) as nat, es[i].1, next_bound(es, i, hi))
    &&& h > 0 ==> forall|i: int, j: int|
        0 <= i < j < es.len() ==> pages_of(p, (#[trigger] es[i]).0, (h - 1) as nat).disjoint(
            pages_of(p, (#[trigger] es[j]).0, (h - 1) as nat),
        )
}

/// The node in `b` heads a well-shaped subtree of height `h` whose keys
/// are in `[lo, hi)`, its first key being `lo`.
pub open spec fn node_ok(p: Pages, b: Seq<u8>, h: nat, lo: Seq<u8>, hi: Option<Seq<u8>>) -> bool
    decreases h, 1nat,
{
    &&& node_wf(b)
    &&& spec_btype(b) == type_at(h)
    &&& spec_entries(b).len() >= 1
    &&& spec_entries(b)[0].1 == lo
    &&& list_ok(p, spec_entries(b), h, hi)
}

/// The page at `id` heads a well-shaped subtree of height `h` holding
/// keys in `[lo, hi)`, fits a page, and does not appear below itself.
pub open spec fn sub_ok(p: Pages, id: u64, h: nat, lo: Seq<u8>, hi: Option<Seq<u8>>) -> bool
    decreases h, 2nat,
{
    &&& p.contains_key(id)
    &&& spec_nbytes(p[id]) <= page_size()
    &&& node_ok(p, p[id], h, lo, hi)
    &&& !list_pages(p, spec_entries(p[id]), h).contains(id)
}

/// Every page of the subtree at `id`, `id` included.
pub open spec fn pages_of(p: Pages, id: u64, h: nat) -> Set<u64>
    decreases h, 1nat, 0nat,
{
    if p.contains_key(id) {
        set![id].union(list_pages(p, spec_entries(p[id]), h))
    } else {
        set![id]
    }
}

/// Every page below the entries `es` of a node at height `h`.
pub open spec fn list_pages(p: Pages, es: Seq<Entry>, h: nat) -> Set<u64>
    decreases h, 0nat, es.len(),
{
    if h == 0 || es.len() == 0 {
        Set::empty()
    } else {
        list_pages(p, es.drop_last(), h).union(pages_of(p, es.last().0, (h - 1) as nat))
    }
}

/// The value stored under `key` below the entries `es` of a node at
/// height `h`.
pub open spec fn list_get(p: Pages, es: Seq<Entry>, h: nat, key: Seq<u8>) -> Option<Seq<u8>>
    decreases h, 0nat,
{
    if h == 0 {
        leaf_get(es, key)
    } else if es.len() > 0 && lex_le(es[0].1, key) {
        sub_get(p, es[slot(es, key)].0, (h - 1) as nat, key)
    } else {
        None
    }
}

/// The value stored under `key` in the subtree at `id`.
pub open spec fn sub_get(p: Pages, id: u64, h: nat, key: Seq<u8>) -> Option<Seq<u8>>
    decreases h, 1nat,
{
    if p.contains_key(id) {
        list_get(p, spec_entries(p[id]), h, key)
    } else {
        None
    }
}

/// `p2` holds the same pages as `p1` on every pointer of `s`.
pub open spec fn agree_on(p1: Pages, p2: Pages, s: Set<u64>) -> bool {
    forall|q: u64| #[trigger] s.contains(q) ==> p1.contains_key(q) == p2.contains_key(q) && p1[q] == p2[q]
}

proof fn lemma_slot_exists(es: Seq<Entry>, key: Seq<u8>) -> (i: int)
    requires
        sorted(es),
        es.len() >= 1,
        lex_le(es[0].1, key),
    ensures
        slot_ok(es, key, i),
    decreases es.len(),
{
    lemma_lex_order();
    if es.len() == 1 {
        0
    } else {
        let es2 = es.drop_last();
        assert(sorted(es2)) by {
            assert forall|a: int, b: int| 0 <= a < b < es2.len() implies lex_lt(
                #[trigger] es2[a].1,
                #[trigger] es2[b].1,
            ) by {
                assert(es2[a] == es[a] && es2[b] == es[b]);
            }
        }
        assert(es2[0] == es[0]);
        let i2 = lemma_slot_exists(es2, key);
        let last = es.len() - 1;
        if lex_le(es[last].1, key) {
            last
        } else {
            assert(es2[i2] == es[i2]);
            if i2 + 1 < es2.len() {
                assert(es2[i2 + 1] == es[i2 + 1]);
            }
            i2
        }
    }
}

/// With sorted keys, a key at or above the first has exactly one slot.
pub proof fn lemma_slot(es: Seq<Entry>, key: Seq<u8>)
    requires
        sorted(es),
        es.len() >= 1,
        lex_le(es[0].1, key),
    ensures
        slot_ok(es, key, slot(es, key)),
        forall|i: int| slot_ok(es, key, i) ==> i == slot(es, key),
{
    lemma_lex_order();
    let w = lemma_slot_exists(es, key);
    let s = slot(es, key);
    assert(slot_ok(es, key, s));
    assert forall|i: int| slot_ok(es, key, i) implies i == s by {
        if i < s {
            assert(lex_lt(key, es[i + 1].1));
            if i + 1 < s {
                assert(lex_lt(es[i + 1].1, es[s].1));
            }
        } else if s < i {
            assert(lex_lt(key, es[s + 1].1));
            if s + 1 < i {
                assert(lex_lt(es[s + 1].1, es[i].1));
            }
        }
    }
}

/// A key held in a sorted leaf reads back its value.
pub proof fn lemma_leaf_get_at(es: Seq<Entry>, key: Seq<u8>, i: int)
    requires
        sorted(es),
        found_at(es, key, i),
    ensures
        leaf_get(es, key) == Some(es[i].2),
{
    lemma_lex_order();
    let j = choose|j: int| found_at(es, key, j);
    assert(found_at(es, key, j));
    if j < i {
        assert(lex_lt(es[j].1, es[i].1));
    } else if i < j {
        assert(lex_lt(es[i].1, es[j].1));
    }
}

/// The pages below a node: the union of its children's pages.
pub proof fn lemma_list_pages(p: Pages, es: Seq<Entry>, h: nat)
    ensures
        h > 0 ==> forall|i: int, q: u64|
            0 <= i < es.len() && #[trigger] pages_of(p, es[i].0, (h - 1) as nat).contains(q)
                ==> list_pages(p, es, h).contains(q),
        forall|q: u64|
            #[trigger] list_pages(p, es, h).contains(q) ==> h > 0 && exists|i: int|
                0 <= i < es.len() && #[trigger] pages_of(p, es[i].0, (h - 1) as nat).contains(q),
    decreases es.len(),
{
    if h > 0 && es.len() > 0 {
        let es2 = es.drop_last();
        let hc = (h - 1) as nat;
        lemma_list_pages(p, es2, h);
        assert(list_pages(p, es, h) == list_pages(p, es2, h).union(pages_of(p, es.last().0, hc)));
        assert forall|i: int, q: u64|
            0 <= i < es.len() && #[trigger] pages_of(p, es[i].0, hc).contains(q) implies list_pages(
                p,
                es,
                h,
            ).contains(q) by {
            if i < es.len() - 1 {
                assert(es2[i] == es[i]);
                assert(pages_of(p, es2[i].0, hc).contains(q));
            }
        }
        assert forall|q: u64| #[trigger] list_pages(p, es, h).contains(q) implies h > 0 && exists|i: int|
            0 <= i < es.len() && #[trigger] pages_of(p, es[i].0, hc).contains(q) by {
            if list_pages(p, es2, h).contains(q) {
                let i = choose|i: int| 0 <= i < es2.len() && #[trigger] pages_of(p, es2[i].0, hc).contains(q);
                assert(es[i] == es2[i]);
                assert(pages_of(p, es[i].0, hc).contains(q));
            } else {
                assert(pages_of(p, es[es.len() - 1].0, hc).contains(q));
            }
        }
    }
}

/// A subtree only looks at its own pages: another store that agrees on
/// them gives the same shape, pages and lookups.
pub proof fn lemma_sub_frame(p1: Pages, p2: Pages, id: u64, h: nat, lo: Seq<u8>, hi: Option<Seq<u8>>)
    requires
        sub_ok(p1, id, h, lo, hi),
        agree_on(p1, p2, pages_of(p1, id, h)),
    ensures
        sub_ok(p2, id, h, lo, hi),
        pages_of(p2, id, h) == pages_of(p1, id, h),
        forall|k: Seq<u8>| #[trigger] sub_get(p2, id, h, k) == sub_get(p1, id, h, k),
    decreases h, 1nat,
{
    reveal(list_ok);    assert(pages_of(p1, id, h).contains(id));
    let es = spec_entries(p1[id]);
    assert(agree_on(p1, p2, list_pages(p1, es, h))) by {
        assert forall|q: u64| #[trigger] list_pages(p1, es, h).contains(q) implies p1.contains_key(q)
            == p2.contains_key(q) && p1[q] == p2[q] by {
            assert(pages_of(p1, id, h).contains(q));
        }
    }
    lemma_list_frame(p1, p2, es, h, hi);
    assert(pages_of(p2, id, h) =~= pages_of(p1, id, h));
    assert forall|k: Seq<u8>| #[trigger] sub_get(p2, id, h, k) == sub_get(p1, id, h, k) by {
        assert(p2.contains_key(id) && p2[id] == p1[id]);
        assert(list_get(p2, es, h, k) == list_get(p1, es, h, k));
    }
}

/// Entry-list form of `lemma_sub_frame`.
pub proof fn lemma_list_frame(p1: Pages, p2: Pages, es: Seq<Entry>, h: nat, hi: Option<Seq<u8>>)
    requires
        list_ok(p1, es, h, hi),
        agree_on(p1, p2, list_pages(p1, es, h)),
    ensures
        list_ok(p2, es, h, hi),
        list_pages(p2, es, h) == list_pages(p1, es, h),
        forall|k: Seq<u8>| #[trigger] list_get(p2, es, h, k) == list_get(p1, es, h, k),
    decreases h, 0nat,
{
    reveal(list_ok);    if h > 0 {
        let hc = (h - 1) as nat;
        lemma_list_pages(p1, es, h);
        lemma_list_pages(p2, es, h);
        assert forall|i: int| 0 <= i < es.len() implies sub_ok(
            p2,
            (#[trigger] es[i]).0,
            hc,
            es[i].1,
            next_bound(es, i, hi),
        ) && pages_of(p2, es[i].0, hc) == pages_of(p1, es[i].0, hc) && (forall|k: Seq<u8>|
            #[trigger] sub_get(p2, es[i].0, hc, k) == sub_get(p1, es[i].0, hc, k)) by {
            assert forall|q: u64| #[trigger] pages_of(p1, es[i].0, hc).contains(q) implies list_pages(
                p1,
                es,
                h,
            ).contains(q) by {}
            lemma_sub_frame(p1, p2, es[i].0, hc, es[i].1, next_bound(es, i, hi));
        }
        assert(list_pages(p2, es, h) =~= list_pages(p1, es, h));
        assert forall|k: Seq<u8>| #[trigger] list_get(p2, es, h, k) == list_get(p1, es, h, k) by {
            if es.len() > 0 && lex_le(es[0].1, k) {
                lemma_slot(es, k);
                let s = slot(es, k);
                assert(sub_get(p2, es[s].0, hc, k) == sub_get(p1, es[s].0, hc, k));
            }
        }
    }
}

/// Every page of a well-shaped subtree is in the store.
pub proof fn lemma_pages_in_store(p: Pages, id: u64, h: nat, lo: Seq<u8>, hi: Option<Seq<u8>>)
    requires
        sub_ok(p, id, h, lo, hi),
    ensures
        forall|q: u64| #[trigger] pages_of(p, id, h).contains(q) ==> p.contains_key(q),
        pages_of(p, id, h).contains(id),
    decreases h,
{
    reveal(list_ok);    let es = spec_entries(p[id]);
    lemma_list_pages(p, es, h);
    if h > 0 {
        assert forall|q: u64| #[trigger] pages_of(p, id, h).contains(q) implies p.contains_key(q) by {
            if q != id {
                assert(list_pages(p, es, h).contains(q));
                let i = choose|i: int| 0 <= i < es.len() && #[trigger] pages_of(p, es[i].0, (h - 1) as nat).contains(q);
                lemma_pages_in_store(p, es[i].0, (h - 1) as nat, es[i].1, next_bound(es, i, hi));
            }
        }
    } else {
        assert(pages_of(p, id, h) =~= set![id]);
    }
}

/// Every key in a well-shaped subtree is in its range.
pub proof fn lemma_sub_get_range(p: Pages, id: u64, h: nat, lo: Seq<u8>, hi: Option<Seq<u8>>, k: Seq<u8>)
    requires
        sub_ok(p, id, h, lo, hi),
        sub_get(p, id, h, k) is Some,
    ensures
        lex_le(lo, k),
        below(k, hi),
    decreases h, 1nat,
{
    reveal(list_ok);    lemma_list_get_range(p, spec_entries(p[id]), h, hi, k);
}

/// Every key below a node's entries is at or above its first key and
/// below `hi`.
pub proof fn lemma_list_get_range(p: Pages, es: Seq<Entry>, h: nat, hi: Option<Seq<u8>>, k: Seq<u8>)
    requires
        list_ok(p, es, h, hi),
        list_get(p, es, h, k) is Some,
    ensures
        es.len() >= 1,
        lex_le(es[0].1, k),
        below(k, hi),
    decreases h, 0nat,
{
    reveal(list_ok);    lemma_lex_order();
    if h == 0 {
        let i = choose|i: int| found_at(es, k, i);
        assert(found_at(es, k, i));
        if i > 0 {
            assert(lex_lt(es[0].1, es[i].1));
        }
    } else {
        lemma_slot(es, k);
        let s = slot(es, k);
        let hc = (h - 1) as nat;
        assert(sub_ok(p, es[s].0, hc, es[s].1, next_bound(es, s, hi)));
        lemma_sub_get_range(p, es[s].0, hc, es[s].1, next_bound(es, s, hi), k);
        if s + 1 < es.len() {
            let last = es.len() - 1;
            assert(below(es[last].1, hi));
            if s + 1 < last {
                assert(lex_lt(es[s + 1].1, es[last].1));
            }
        }
    }
}

/// A run of a node's entries is itself a valid run, bounded by the key
/// after it, with fewer pages and the same lookups in its range.
pub proof fn lemma_list_sub(p: Pages, es: Seq<Entry>, h: nat, hi: Option<Seq<u8>>, x: int, y: int)
    requires
        list_ok(p, es, h, hi),
        0 <= x < y <= es.len(),
    ensures
        list_ok(p, es.subrange(x, y), h, next_bound(es, y - 1, hi)),
        forall|q: u64| #[trigger] list_pages(p, es.subrange(x, y), h).contains(q) ==> list_pages(p, es, h).contains(q),
        forall|k: Seq<u8>|
            lex_le(es[x].1, k) && below(k, next_bound(es, y - 1, hi)) ==> #[trigger] list_get(
                p,
                es.subrange(x, y),
                h,
                k,
            ) == list_get(p, es, h, k),
{
    lemma_list_sub_ok(p, es, h, hi, x, y);
    lemma_list_sub_pages(p, es, h, x, y);
    assert forall|k: Seq<u8>| lex_le(es[x].1, k) && below(k, next_bound(es, y - 1, hi)) implies #[trigger] list_get(
        p,
        es.subrange(x, y),
        h,
        k,
    ) == list_get(p, es, h, k) by {
        lemma_list_sub_get(p, es, h, hi, x, y, k);
    }
}

#[verifier::rlimit(30)]
proof fn lemma_list_sub_ok(p: Pages, es: Seq<Entry>, h: nat, hi: Option<Seq<u8>>, x: int, y: int)
    requires
        list_ok(p, es, h, hi),
        0 <= x < y <= es.len(),
    ensures
        list_ok(p, es.subrange(x, y), h, next_bound(es, y - 1, hi)),
{
    lemma_list_ok_facts(p, es, h, hi);
    lemma_lex_order();
    let sub = es.subrange(x, y);
    let nb = next_bound(es, y - 1, hi);
    assert forall|i: int| 0 <= i < sub.len() implies below(#[trigger] sub[i].1, nb) by {
        assert(sub[i] == es[x + i]);
        if y < es.len() {
            if x + i < y - 1 {
                assert(lex_lt(es[x + i].1, es[y - 1].1));
            }
            assert(lex_lt(es[y - 1].1, es[y].1));
        }
    }
    assert forall|i: int, j: int| 0 <= i < j < sub.len() implies lex_lt(#[trigger] sub[i].1, #[trigger] sub[j].1) by {
        assert(sub[i] == es[x + i] && sub[j] == es[x + j]);
    }
    assert forall|i: int| 0 <= i < sub.len() implies (#[trigger] sub[i]).1.len() <= max_key() && if h == 0 {
        sub[i].2.len() <= max_val()
    } else {
        sub[i].2.len() == 0
    } by {
        assert(sub[i] == es[x + i]);
    }
    if h > 0 {
        let hc = (h - 1) as nat;
        assert forall|i: int| 0 <= i < sub.len() implies sub_ok(
            p,
            (#[trigger] sub[i]).0,
            hc,
            sub[i].1,
            next_bound(sub, i, nb),
        ) by {
            assert(sub[i] == es[x + i]);
            assert(sub_ok(p, es[x + i].0, hc, es[x + i].1, next_bound(es, x + i, hi)));
            if i + 1 < sub.len() {
                assert(sub[i + 1] == es[x + i + 1]);
            }
        }
        assert forall|i: int, j: int| 0 <= i < j < sub.len() implies pages_of(p, (#[trigger] sub[i]).0, hc).disjoint(
            pages_of(p, (#[trigger] sub[j]).0, hc),
        ) by {
            assert(sub[i] == es[x + i] && sub[j] == es[x + j]);
            assert(pages_of(p, es[x + i].0, hc).disjoint(pages_of(p, es[x + j].0, hc)));
        }
    }
    lemma_list_ok_intro(p, sub, h, nb);
}

proof fn lemma_list_sub_pages(p: Pages, es: Seq<Entry>, h: nat, x: int, y: int)
    requires
        0 <= x <= y <= es.len(),
    ensures
        forall|q: u64| #[trigger] list_pages(p, es.subrange(x, y), h).contains(q) ==> list_pages(p, es, h).contains(q),
{
    let sub = es.subrange(x, y);
    lemma_list_pages(p, sub, h);
    lemma_list_pages(p, es, h);
    assert forall|q: u64| #[trigger] list_pages(p, sub, h).contains(q) implies list_pages(p, es, h).contains(q) by {
        let i = choose|i: int| 0 <= i < sub.len() && #[trigger] pages_of(p, sub[i].0, (h - 1) as nat).contains(q);
        assert(sub[i] == es[x + i]);
        assert(pages_of(p, es[x + i].0, (h - 1) as nat).contains(q));
    }
}

proof fn lemma_sorted_sub(es: Seq<Entry>, x: int, y: int)
    requires
        sorted(es),
        0 <= x <= y <= es.len(),
    ensures
        sorted(es.subrange(x, y)),
{
    let sub = es.subrange(x, y);
    assert forall|a: int, b: int| 0 <= a < b < sub.len() implies lex_lt(#[trigger] sub[a].1, #[trigger] sub[b].1) by {
        assert(sub[a] == es[x + a] && sub[b] == es[x + b]);
    }
}

proof fn lemma_leaf_sub_get(es: Seq<Entry>, x: int, y: int, k: Seq<u8>, nb: Option<Seq<u8>>)
    requires
        sorted(es),
        0 <= x < y <= es.len(),
        lex_le(es[x].1, k),
        y < es.len() ==> nb == Some(es[y].1),
        below(k, nb),
    ensures
        leaf_get(es.subrange(x, y), k) == leaf_get(es, k),
{
    lemma_lex_order();
    let sub = es.subrange(x, y);
    lemma_sorted_sub(es, x, y);
    if exists|i: int| found_at(sub, k, i) {
        let i = choose|i: int| found_at(sub, k, i);
        assert(sub[i] == es[x + i]);
        lemma_leaf_get_at(sub, k, i);
        lemma_leaf_get_at(es, k, x + i);
    } else if exists|j: int| found_at(es, k, j) {
        let j = choose|j: int| found_at(es, k, j);
        if j < x {
            assert(lex_lt(es[j].1, es[x].1));
        } else if j >= y {
            if j > y {
                assert(lex_lt(es[y].1, es[j].1));
            }
        } else {
            assert(sub[j - x] == es[j]);
            assert(found_at(sub, k, j - x));
        }
    }
}

proof fn lemma_slot_sub(es: Seq<Entry>, x: int, y: int, k: Seq<u8>, nb: Option<Seq<u8>>)
    requires
        sorted(es),
        0 <= x < y <= es.len(),
        lex_le(es[x].1, k),
        y < es.len() ==> nb == Some(es[y].1),
        below(k, nb),
    ensures
        slot(es.subrange(x, y), k) + x == slot(es, k),
        es.subrange(x, y)[slot(es.subrange(x, y), k)] == es[slot(es, k)],
{
    let sub = es.subrange(x, y);
    lemma_sorted_sub(es, x, y);
    assert(sub[0] == es[x]);
    lemma_lex_order();
    if x > 0 {
        assert(lex_lt(es[0].1, es[x].1));
    }
    lemma_slot(es, k);
    lemma_slot(sub, k);
    let t = slot(sub, k);
    assert(sub[t] == es[x + t]);
    if t + 1 < sub.len() {
        assert(sub[t + 1] == es[x + t + 1]);
    } else if y < es.len() {
        assert(x + t + 1 == y);
    }
    assert(slot_ok(es, k, x + t));
}

proof fn lemma_list_sub_get(p: Pages, es: Seq<Entry>, h: nat, hi: Option<Seq<u8>>, x: int, y: int, k: Seq<u8>)
    requires
        list_ok(p, es, h, hi),
        0 <= x < y <= es.len(),
        lex_le(es[x].1, k),
        below(k, next_bound(es, y - 1, hi)),
    ensures
        list_get(p, es.subrange(x, y), h, k) == list_get(p, es, h, k),
{
    reveal(list_ok);    let nb = next_bound(es, y - 1, hi);
    if h == 0 {
        lemma_leaf_sub_get(es, x, y, k, nb);
    } else {
        lemma_slot_sub(es, x, y, k, nb);
        let sub = es.subrange(x, y);
        assert(sub[0] == es[x]);
        lemma_lex_order();
        if x > 0 {
            assert(lex_lt(es[0].1, es[x].1));
        }
    }
}

/// Two runs of entries, the first below the second's first key, with no
/// page in common, make one run.
pub proof fn lemma_list_concat(p: Pages, a: Seq<Entry>, b: Seq<Entry>, h: nat, hi: Option<Seq<u8>>)
    requires
        b.len() >= 1,
        list_ok(p, a, h, Some(b[0].1)),
        list_ok(p, b, h, hi),
        list_pages(p, a, h).disjoint(list_pages(p, b, h)),
    ensures
        list_ok(p, a + b, h, hi),
        list_pages(p, a + b, h) == list_pages(p, a, h).union(list_pages(p, b, h)),
        forall|k: Seq<u8>|
            #[trigger] list_get(p, a + b, h, k) == if lex_lt(k, b[0].1) {
                if a.len() > 0 {
                    list_get(p, a, h, k)
                } else {
                    None
                }
            } else {
                list_get(p, b, h, k)
            },
{
    lemma_list_concat_ok(p, a, b, h, hi);
    lemma_list_concat_pages(p, a, b, h);
    assert forall|k: Seq<u8>| #[trigger] list_get(p, a + b, h, k) == if lex_lt(k, b[0].1) {
        if a.len() > 0 {
            list_get(p, a, h, k)
        } else {
            None
        }
    } else {
        list_get(p, b, h, k)
    } by {
        lemma_list_concat_get(p, a, b, h, hi, k);
    }
}

proof fn lemma_list_concat_pages(p: Pages, a: Seq<Entry>, b: Seq<Entry>, h: nat)
    ensures
        list_pages(p, a + b, h) == list_pages(p, a, h).union(list_pages(p, b, h)),
{
    let c = a + b;
    let na = a.len() as int;
    lemma_list_pages(p, a, h);
    lemma_list_pages(p, b, h);
    lemma_list_pages(p, c, h);
    assert forall|q: u64| #[trigger] list_pages(p, c, h).contains(q) == (list_pages(p, a, h).contains(q)
        || list_pages(p, b, h).contains(q)) by {
        if list_pages(p, c, h).contains(q) {
            let i = choose|i: int| 0 <= i < c.len() && #[trigger] pages_of(p, c[i].0, (h - 1) as nat).contains(q);
            if i < na {
                assert(c[i] == a[i]);
            } else {
                assert(c[i] == b[i - na]);
            }
        }
        if list_pages(p, a, h).contains(q) {
            let i = choose|i: int| 0 <= i < a.len() && #[trigger] pages_of(p, a[i].0, (h - 1) as nat).contains(q);
            assert(c[i] == a[i]);
        }
        if list_pages(p, b, h).contains(q) {
            let i = choose|i: int| 0 <= i < b.len() && #[trigger] pages_of(p, b[i].0, (h - 1) as nat).contains(q);
            assert(c[na + i] == b[i]);
        }
    }
    assert(list_pages(p, c, h) =~= list_pages(p, a, h).union(list_pages(p, b, h)));
}

proof fn lemma_list_concat_ok(p: Pages, a: Seq<Entry>, b: Seq<Entry>, h: nat, hi: Option<Seq<u8>>)
    requires
        b.len() >= 1,
        list_ok(p, a, h, Some(b[0].1)),
        list_ok(p, b, h, hi),
        list_pages(p, a, h).disjoint(list_pages(p, b, h)),
    ensures
        list_ok(p, a + b, h, hi),
{
    reveal(list_ok);    lemma_lex_order();
    let c = a + b;
    let na = a.len() as int;
    assert forall|i: int| 0 <= i < c.len() implies below(#[trigger] c[i].1, hi) by {
        if i < na {
            assert(c[i] == a[i]);
            assert(lex_lt(a[i].1, b[0].1));
            assert(below(b[0].1, hi));
        } else {
            assert(c[i] == b[i - na]);
        }
    }
    assert forall|i: int, j: int| 0 <= i < j < c.len() implies lex_lt(#[trigger] c[i].1, #[trigger] c[j].1) by {
        if j < na {
            assert(c[i] == a[i] && c[j] == a[j]);
        } else if i >= na {
            assert(c[i] == b[i - na] && c[j] == b[j - na]);
        } else {
            assert(c[i] == a[i] && c[j] == b[j - na]);
            assert(lex_lt(a[i].1, b[0].1));
            if j > na {
                assert(lex_lt(b[0].1, b[j - na].1));
            }
        }
    }
    assert forall|i: int| 0 <= i < c.len() implies (#[trigger] c[i]).1.len() <= max_key() && if h == 0 {
        c[i].2.len() <= max_val()
    } else {
        c[i].2.len() == 0
    } by {
        if i < na {
            assert(c[i] == a[i]);
        } else {
            assert(c[i] == b[i - na]);
        }
    }
    if h > 0 {
        let hc = (h - 1) as nat;
        lemma_list_pages(p, a, h);
        lemma_list_pages(p, b, h);
        assert forall|i: int| 0 <= i < c.len() implies sub_ok(
            p,
            (#[trigger] c[i]).0,
            hc,
            c[i].1,
            next_bound(c, i, hi),
        ) by {
            if i < na {
                assert(c[i] == a[i]);
                assert(sub_ok(p, a[i].0, hc, a[i].1, next_bound(a, i, Some(b[0].1))));
                if i + 1 < na {
                    assert(c[i + 1] == a[i + 1]);
                } else {
                    assert(c[i + 1] == b[0]);
                }
            } else {
                assert(c[i] == b[i - na]);
                assert(sub_ok(p, b[i - na].0, hc, b[i - na].1, next_bound(b, i - na, hi)));
                if i + 1 < c.len() {
                    assert(c[i + 1] == b[i - na + 1]);
                }
            }
        }
        assert forall|i: int, j: int| 0 <= i < j < c.len() implies pages_of(p, (#[trigger] c[i]).0, hc).disjoint(
            pages_of(p, (#[trigger] c[j]).0, hc),
        ) by {
            if j < na {
                assert(c[i] == a[i] && c[j] == a[j]);
            } else if i >= na {
                assert(c[i] == b[i - na] && c[j] == b[j - na]);
            } else {
                assert(c[i] == a[i] && c[j] == b[j - na]);
                assert forall|q: u64| #[trigger] pages_of(p, a[i].0, hc).contains(q) implies !pages_of(
                    p,
                    b[j - na].0,
                    hc,
                ).contains(q) by {
                    assert(list_pages(p, a, h).contains(q));
                    if pages_of(p, b[j - na].0, hc).contains(q) {
                        assert(list_pages(p, b, h).contains(q));
                    }
                }
            }
        }
    }
}

proof fn lemma_list_concat_get(p: Pages, a: Seq<Entry>, b: Seq<Entry>, h: nat, hi: Option<Seq<u8>>, k: Seq<u8>)
    requires
        b.len() >= 1,
        list_ok(p, a, h, Some(b[0].1)),
        list_ok(p, b, h, hi),
    ensures
        list_get(p, a + b, h, k) == if lex_lt(k, b[0].1) {
            if a.len() > 0 {
                list_get(p, a, h, k)
            } else {
                None
            }
        } else {
            list_get(p, b, h, k)
        },
{
    reveal(list_ok);    lemma_lex_order();
    let c = a + b;
    let na = a.len() as int;
    assert(sorted(c)) by {
        assert forall|i: int, j: int| 0 <= i < j < c.len() implies lex_lt(#[trigger] c[i].1, #[trigger] c[j].1) by {
            if j < na {
                assert(c[i] == a[i] && c[j] == a[j]);
            } else if i >= na {
                assert(c[i] == b[i - na] && c[j] == b[j - na]);
            } else {
                assert(c[i] == a[i] && c[j] == b[j - na]);
                assert(below(a[i].1, Some(b[0].1)));
                if j > na {
                    assert(lex_lt(b[0].1, b[j - na].1));
                }
            }
        }
    }
    if na == 0 {
        assert(c =~= b);
        if lex_lt(k, b[0].1) && h == 0 {
            if exists|j: int| found_at(b, k, j) {
                let j = choose|j: int| found_at(b, k, j);
                if j > 0 {
                    assert(lex_lt(b[0].1, b[j].1));
                }
            }
        }
    } else if lex_lt(k, b[0].1) {
        if h > 0 {
            assert(c[0] == a[0]);
            if lex_le(a[0].1, k) {
                lemma_slot(c, k);
                lemma_slot(a, k);
                let t = slot(a, k);
                assert(c[t] == a[t]);
                if t + 1 < na {
                    assert(c[t + 1] == a[t + 1]);
                } else {
                    assert(c[t + 1] == b[0]);
                }
                assert(slot_ok(c, k, t));
            }
        } else {
            if exists|i: int| found_at(a, k, i) {
                let i = choose|i: int| found_at(a, k, i);
                assert(c[i] == a[i]);
                lemma_leaf_get_at(a, k, i);
                lemma_leaf_get_at(c, k, i);
            } else if exists|j: int| found_at(c, k, j) {
                let j = choose|j: int| found_at(c, k, j);
                if j < na {
                    assert(c[j] == a[j]);
                    assert(found_at(a, k, j));
                } else {
                    assert(c[j] == b[j - na]);
                    if j > na {
                        assert(lex_lt(b[0].1, b[j - na].1));
                    }
                }
            }
        }
    } else {
        if h > 0 {
            assert(c[0] == a[0]);
            assert(below(a[0].1, Some(b[0].1)));
            lemma_slot(c, k);
            lemma_slot(b, k);
            let t = slot(b, k);
            assert(c[na + t] == b[t]);
            if t + 1 < b.len() {
                assert(c[na + t + 1] == b[t + 1]);
            }
            assert(slot_ok(c, k, na + t));
        } else {
            if exists|i: int| found_at(b, k, i) {
                let i = choose|i: int| found_at(b, k, i);
                assert(c[na + i] == b[i]);
                lemma_leaf_get_at(b, k, i);
                lemma_leaf_get_at(c, k, na + i);
            } else if exists|j: int| found_at(c, k, j) {
                let j = choose|j: int| found_at(c, k, j);
                if j < na {
                    assert(c[j] == a[j]);
                    assert(below(a[j].1, Some(b[0].1)));
                } else {
                    assert(c[j] == b[j - na]);
                    assert(found_at(b, k, j - na));
                }
            }
        }
    }
}

/// Raising the upper bound of a subtree keeps it well-shaped.
pub proof fn lemma_sub_weaken(
    p: Pages,
    id: u64,
    h: nat,
    lo: Seq<u8>,
    hi1: Option<Seq<u8>>,
    hi2: Option<Seq<u8>>,
)
    requires
        sub_ok(p, id, h, lo, hi1),
        bound_le(hi1, hi2),
    ensures
        sub_ok(p, id, h, lo, hi2),
    decreases h, 1nat,
{
    reveal(list_ok);    lemma_list_weaken(p, spec_entries(p[id]), h, hi1, hi2);
}

/// Entry-list form of `lemma_sub_weaken`.
pub proof fn lemma_list_weaken(p: Pages, es: Seq<Entry>, h: nat, hi1: Option<Seq<u8>>, hi2: Option<Seq<u8>>)
    requires
        list_ok(p, es, h, hi1),
        bound_le(hi1, hi2),
    ensures
        list_ok(p, es, h, hi2),
    decreases h, 0nat,
{
    reveal(list_ok);    lemma_lex_order();
    assert forall|i: int| 0 <= i < es.len() implies below(#[trigger] es[i].1, hi2) by {
        assert(below(es[i].1, hi1));
    }
    if h > 0 {
        let hc = (h - 1) as nat;
        assert forall|i: int| 0 <= i < es.len() implies sub_ok(
            p,
            (#[trigger] es[i]).0,
            hc,
            es[i].1,
            next_bound(es, i, hi2),
        ) by {
            assert(sub_ok(p, es[i].0, hc, es[i].1, next_bound(es, i, hi1)));
            if i + 1 == es.len() {
                lemma_sub_weaken(p, es[i].0, hc, es[i].1, hi1, hi2);
            }
        }
    }
}

/// What a valid run of entries guarantees.
pub proof fn lemma_list_ok_facts(p: Pages, es: Seq<Entry>, h: nat, hi: Option<Seq<u8>>)
    requires
        list_ok(p, es, h, hi),
    ensures
        sorted(es),
        forall|i: int| 0 <= i < es.len() ==> below(#[trigger] es[i].1, hi),
        forall|i: int|
            0 <= i < es.len() ==> (#[trigger] es[i]).1.len() <= max_key() && if h == 0 {
                es[i].2.len() <= max_val()
            } else {
                es[i].2.len() == 0
            },
        h > 0 ==> forall|i: int|
            0 <= i < es.len() ==> sub_ok(p, (#[trigger] es[i]).0, (h - 1) as nat, es[i].1, next_bound(es, i, hi)),
        h > 0 ==> forall|i: int, j: int|
            0 <= i < j < es.len() ==> pages_of(p, (#[trigger] es[i]).0, (h - 1) as nat).disjoint(
                pages_of(p, (#[trigger] es[j]).0, (h - 1) as nat),
            ),
{
    reveal(list_ok);
}

/// The conditions that make a run of entries valid.
pub proof fn lemma_list_ok_intro(p: Pages, es: Seq<Entry>, h: nat, hi: Option<Seq<u8>>)
    requires
        sorted(es),
        forall|i: int| 0 <= i < es.len() ==> below(#[trigger] es[i].1, hi),
        forall|i: int|
            0 <= i < es.len() ==> (#[trigger] es[i]).1.len() <= max_key() && if h == 0 {
                es[i].2.len() <= max_val()
            } else {
                es[i].2.len() == 0
            },
        h > 0 ==> forall|i: int|
            0 <= i < es.len() ==> sub_ok(p, (#[trigger] es[i]).0, (h - 1) as nat, es[i].1, next_bound(es, i, hi)),
        h > 0 ==> forall|i: int, j: int|
            0 <= i < j < es.len() ==> pages_of(p, (#[trigger] es[i]).0, (h - 1) as nat).disjoint(
                pages_of(p, (#[trigger] es[j]).0, (h - 1) as nat),
            ),
    ensures
        list_ok(p, es, h, hi),
{
    reveal(list_ok);
}

/// No entries at all form a valid run.
pub proof fn lemma_list_empty(p: Pages, h: nat, hi: Option<Seq<u8>>)
    ensures
        list_ok(p, Seq::<Entry>::empty(), h, hi),
        list_pages(p, Seq::<Entry>::empty(), h) == Set::<u64>::empty(),
{
    reveal(list_ok);
    assert(list_pages(p, Seq::<Entry>::empty(), h) =~= Set::<u64>::empty());
}

/// A valid run of entries is sorted.
pub proof fn lemma_list_sorted(p: Pages, es: Seq<Entry>, h: nat, hi: Option<Seq<u8>>)
    requires
        list_ok(p, es, h, hi),
    ensures
        sorted(es),
{
    reveal(list_ok);
}

/// Entry `i` of a valid run above the leaves heads a valid subtree.
pub proof fn lemma_list_child(p: Pages, es: Seq<Entry>, h: nat, hi: Option<Seq<u8>>, i: int)
    requires
        list_ok(p, es, h, hi),
        h > 0,
        0 <= i < es.len(),
    ensures
        sub_ok(p, es[i].0, (h - 1) as nat, es[i].1, next_bound(es, i, hi)),
        es[i].1.len() <= max_key(),
{
    reveal(list_ok);
}

/// Keys of a valid run are within the key limit.
pub proof fn lemma_list_key_len(p: Pages, es: Seq<Entry>, h: nat, hi: Option<Seq<u8>>, i: int)
    requires
        list_ok(p, es, h, hi),
        0 <= i < es.len(),
    ensures
        es[i].1.len() <= max_key(),
{
    reveal(list_ok);
}

} // verus!
