//! How the edits of a delete keep a subtree well-shaped and drop the
//! deleted key: a child replaced by what is left of it, a child merged
//! with a sibling, or a node left with no children.
use vstd::prelude::*;

use crate::btree::model::{
    below, bound_le, found_at, leaf_get, lemma_leaf_get_at, lemma_list_child, lemma_list_empty,
    lemma_list_frame, lemma_list_get_range, lemma_list_key_len, lemma_list_ok_facts,
    lemma_list_ok_intro, lemma_list_pages, lemma_list_sorted, lemma_list_weaken, lemma_pages_in_store,
    lemma_slot, list_get, list_ok, list_pages, max_key, next_bound, page_size, pages_of, slot_ok,
    sorted, sub_get, sub_ok, type_at, agree_on, Pages,
};
use crate::btree::shape::{
    concat_entries, kid_entries, kids_ok, lemma_list_pages_in_store, lemma_one_kid, lemma_runs3,
    lemma_splice,
};
use crate::btree::{del_result, del_room, is_next_key, lemma_rebuilt, next_key_len, rebuilt_pre, stored_kids};
use crate::node::format::{
    entry_size, lemma_size_edits, lemma_wf_reads, node_size, node_wf, spec_btype, spec_entries,
    spec_nbytes, Entry,
};
use crate::page::keys::{lemma_lex_order, lex_le, lex_lt};

verus! {

/// What `node_delete` knows once the child on the search path of `key`
/// came back as `ub`: the node's entries `es` at height `h` on store
/// `p`, covering `[lo, hi)`, child `idx` on the search path, and what
/// deleting `key` below that child left on store `p1`.
pub open spec fn del_ctx(
    p: Pages,
    p1: Pages,
    es: Seq<Entry>,
    h: nat,
    lo: Seq<u8>,
    hi: Option<Seq<u8>>,
    idx: int,
    key: Seq<u8>,
    ub: Seq<u8>,
) -> bool {
    &&& h >= 1
    &&& list_ok(p, es, h, hi)
    &&& es.len() >= 1
    &&& es[0].1 == lo
    &&& node_size(es) <= page_size()
    &&& slot_ok(es, key, idx)
    &&& below(key, hi)
    &&& (es[idx].1 == key ==> node_size(es) + next_key_len(p, spec_entries(p[es[idx].0]), (h - 1) as nat, key)
        <= page_size() + key.len())
    &&& del_result(
        p,
        p1,
        ub,
        spec_entries(p[es[idx].0]),
        (h - 1) as nat,
        es[idx].1,
        next_bound(es, idx, hi),
        key,
    )
}

/// A key within the range of child `i` is looked up in that child.
pub proof fn lemma_child_get(p: Pages, es: Seq<Entry>, h: nat, hi: Option<Seq<u8>>, i: int, k: Seq<u8>)
    requires
        h >= 1,
        list_ok(p, es, h, hi),
        0 <= i < es.len(),
        lex_le(es[i].1, k),
        below(k, next_bound(es, i, hi)),
    ensures
        list_get(p, es, h, k) == sub_get(p, es[i].0, (h - 1) as nat, k),
{
    lemma_list_sorted(p, es, h, hi);
    lemma_lex_order();
    if i > 0 {
        assert(lex_lt(es[0].1, es[i].1));
    }
    assert(slot_ok(es, k, i));
    lemma_slot(es, k);
}

/// No entries hold nothing.
proof fn lemma_get_empty(p: Pages, h: nat, k: Seq<u8>)
    ensures
        list_get(p, Seq::<Entry>::empty(), h, k) is None,
{
    if h == 0 {
        assert(!exists|i: int| found_at(Seq::<Entry>::empty(), k, i));
    }
}

/// While child `idx` of a valid node is rebuilt, every other child stays
/// in the store unchanged, and none of them is the rebuilt one.
pub proof fn lemma_del_siblings(p: Pages, p1: Pages, es: Seq<Entry>, h: nat, hi: Option<Seq<u8>>, idx: int)
    requires
        h >= 1,
        list_ok(p, es, h, hi),
        0 <= idx < es.len(),
        forall|q: u64|
            #[trigger] p.contains_key(q) && !list_pages(p, spec_entries(p[es[idx].0]), (h - 1) as nat).contains(q)
                ==> p1.contains_key(q) && p1[q] == p[q],
    ensures
        p1.contains_key(es[idx].0),
        p1[es[idx].0] == p[es[idx].0],
        forall|i: int|
            0 <= i < es.len() && i != idx ==> (#[trigger] es[i]).0 != es[idx].0 && p1.contains_key(es[i].0)
                && p1[es[i].0] == p[es[i].0] && node_wf(p[es[i].0]) && spec_btype(p[es[i].0]) == type_at(
                (h - 1) as nat,
            ) && spec_nbytes(p[es[i].0]) <= page_size() && spec_entries(p[es[i].0]).len() >= 1
                && spec_entries(p[es[i].0])[0].1 == es[i].1,
{
    let hc = (h - 1) as nat;
    let kptr = es[idx].0;
    lemma_list_ok_facts(p, es, h, hi);
    lemma_pages_in_store(p, kptr, hc, es[idx].1, next_bound(es, idx, hi));
    assert(pages_of(p, kptr, hc) == set![kptr].union(list_pages(p, spec_entries(p[kptr]), hc)));
    assert forall|i: int| 0 <= i < es.len() && i != idx implies (#[trigger] es[i]).0 != es[idx].0 && p1.contains_key(
        es[i].0,
    ) && p1[es[i].0] == p[es[i].0] && node_wf(p[es[i].0]) && spec_btype(p[es[i].0]) == type_at(hc)
        && spec_nbytes(p[es[i].0]) <= page_size() && spec_entries(p[es[i].0]).len() >= 1 && spec_entries(
        p[es[i].0],
    )[0].1 == es[i].1 by {
        lemma_pages_in_store(p, es[i].0, hc, es[i].1, next_bound(es, i, hi));
        if i < idx {
            assert(pages_of(p, es[i].0, hc).disjoint(pages_of(p, es[idx].0, hc)));
        } else {
            assert(pages_of(p, es[idx].0, hc).disjoint(pages_of(p, es[i].0, hc)));
        }
        assert(!pages_of(p, kptr, hc).contains(es[i].0));
    }
}

/// Two runs of entries at one height, the first below `mid` and the
/// second from `mid` on, with no page in common, make one run.
proof fn lemma_pair(pp: Pages, a: Seq<Entry>, b: Seq<Entry>, hc: nat, mid: Seq<u8>, nb: Option<Seq<u8>>)
    requires
        list_ok(pp, a, hc, Some(mid)),
        list_ok(pp, b, hc, nb),
        b.len() == 0 || lex_le(mid, b[0].1),
        bound_le(Some(mid), nb),
        list_pages(pp, a, hc).disjoint(list_pages(pp, b, hc)),
    ensures
        list_ok(pp, a + b, hc, nb),
        list_pages(pp, a + b, hc) == list_pages(pp, a, hc).union(list_pages(pp, b, hc)),
        forall|k: Seq<u8>|
            #[trigger] list_get(pp, a + b, hc, k) == if lex_lt(k, mid) {
                list_get(pp, a, hc, k)
            } else {
                list_get(pp, b, hc, k)
            },
{
    lemma_lex_order();
    if b.len() == 0 {
        assert(a + b =~= a);
        assert(b =~= Seq::<Entry>::empty());
        lemma_list_empty(pp, hc, nb);
        lemma_list_weaken(pp, a, hc, Some(mid), nb);
        assert(list_pages(pp, a + b, hc) =~= list_pages(pp, a, hc).union(list_pages(pp, b, hc)));
        assert forall|k: Seq<u8>| #[trigger] list_get(pp, a + b, hc, k) == if lex_lt(k, mid) {
            list_get(pp, a, hc, k)
        } else {
            list_get(pp, b, hc, k)
        } by {
            lemma_get_empty(pp, hc, k);
            if !lex_lt(k, mid) && list_get(pp, a, hc, k) is Some {
                lemma_list_get_range(pp, a, hc, Some(mid), k);
            }
        }
    } else {
        lemma_list_weaken(pp, a, hc, Some(mid), Some(b[0].1));
        crate::btree::model::lemma_list_concat(pp, a, b, hc, nb);
        assert forall|k: Seq<u8>| #[trigger] list_get(pp, a + b, hc, k) == if lex_lt(k, mid) {
            list_get(pp, a, hc, k)
        } else {
            list_get(pp, b, hc, k)
        } by {
            if a.len() == 0 {
                assert(a =~= Seq::<Entry>::empty());
                lemma_get_empty(pp, hc, k);
            }
            if !lex_lt(k, mid) && lex_lt(k, b[0].1) {
                if list_get(pp, a, hc, k) is Some {
                    lemma_list_get_range(pp, a, hc, Some(mid), k);
                }
                if list_get(pp, b, hc, k) is Some {
                    lemma_list_get_range(pp, b, hc, nb, k);
                }
            }
        }
    }
}

/// Children `x` and `x + 1` of a valid node replaced by one new child at
/// `ptr`, holding the entries `me`, which hold what the two held but
/// `key`: what is left is the result of deleting `key` below the node.
#[verifier::rlimit(60)]
#[verifier::spinoff_prover]
proof fn lemma_merge_splice(
    p: Pages,
    p4: Pages,
    es: Seq<Entry>,
    h: nat,
    lo: Seq<u8>,
    hi: Option<Seq<u8>>,
    x: int,
    key: Seq<u8>,
    me: Seq<Entry>,
    mb: Seq<u8>,
    ptr: u64,
    nb: Seq<u8>,
)
    requires
        h >= 1,
        list_ok(p, es, h, hi),
        es[0].1 == lo,
        0 <= x,
        x + 1 < es.len(),
        lex_le(es[x].1, key),
        below(key, next_bound(es, x + 1, hi)),
        node_wf(mb),
        spec_btype(mb) == type_at((h - 1) as nat),
        spec_nbytes(mb) <= page_size(),
        spec_entries(mb) == me,
        me.len() >= 1,
        lex_le(es[x].1, me[0].1),
        key != es[x].1 ==> me[0].1 == es[x].1,
        p4.contains_key(ptr),
        p4[ptr] == mb,
        p.contains_key(ptr) ==> pages_of(p, es[x].0, (h - 1) as nat).contains(ptr) || pages_of(
            p,
            es[x + 1].0,
            (h - 1) as nat,
        ).contains(ptr),
        list_ok(p4, me, (h - 1) as nat, next_bound(es, x + 1, hi)),
        !list_pages(p4, me, (h - 1) as nat).contains(ptr),
        forall|q: u64| #[trigger]
            list_pages(p4, me, (h - 1) as nat).contains(q) ==> pages_of(p, es[x].0, (h - 1) as nat).contains(q)
                || pages_of(p, es[x + 1].0, (h - 1) as nat).contains(q) || !p.contains_key(q),
        forall|k: Seq<u8>|
            lex_le(es[x].1, k) && below(k, next_bound(es, x + 1, hi)) ==> #[trigger] list_get(
                p4,
                me,
                (h - 1) as nat,
                k,
            ) == if k == key {
                None
            } else {
                list_get(p, es, h, k)
            },
        forall|q: u64|
            #[trigger] p.contains_key(q) && !pages_of(p, es[x].0, (h - 1) as nat).contains(q) && !pages_of(
                p,
                es[x + 1].0,
                (h - 1) as nat,
            ).contains(q) ==> p4.contains_key(q) && p4[q] == p[q],
        node_wf(nb),
        spec_btype(nb) == 1,
        spec_nbytes(nb) <= page_size(),
        spec_entries(nb) == es.subrange(0, x).push((ptr, me[0].1, Seq::<u8>::empty())) + es.subrange(
            x + 2,
            es.len() as int,
        ),
    ensures
        del_result(p, p4, nb, es, h, lo, hi, key),
{
    let hc = (h - 1) as nat;
    let n = es.len() as int;
    let nb2 = next_bound(es, x + 1, hi);
    let e: Entry = (ptr, me[0].1, Seq::<u8>::empty());
    let m = seq![e];
    assert(agree_on(p4, p4, list_pages(p4, me, hc)));
    lemma_one_kid(p4, p4, mb, ptr, hc, nb2);
    let sub = es.subrange(x, x + 2);
    lemma_list_pages(p, sub, h);
    assert(sub[0] == es[x] && sub[1] == es[x + 1]);
    assert forall|q: u64| #[trigger] list_pages(p4, m, h).contains(q) implies list_pages(p, sub, h).contains(q)
        || !p.contains_key(q) by {
        if q == ptr {
            if p.contains_key(q) {
                if pages_of(p, es[x].0, hc).contains(q) {
                    assert(pages_of(p, sub[0].0, hc).contains(q));
                } else {
                    assert(pages_of(p, sub[1].0, hc).contains(q));
                }
            }
        } else {
            assert(list_pages(p4, me, hc).contains(q));
            if pages_of(p, es[x].0, hc).contains(q) {
                assert(pages_of(p, sub[0].0, hc).contains(q));
            } else if pages_of(p, es[x + 1].0, hc).contains(q) {
                assert(pages_of(p, sub[1].0, hc).contains(q));
            }
        }
    }
    lemma_runs3(p, es, h, hi, x, x + 2);
    lemma_list_pages_in_store(p, es, h, hi);
    assert forall|q: u64| #[trigger] list_pages(p, sub, h).contains(q) || !(pages_of(p, es[x].0, hc).contains(q)
        || pages_of(p, es[x + 1].0, hc).contains(q)) by {
        if pages_of(p, es[x].0, hc).contains(q) {
            assert(pages_of(p, sub[0].0, hc).contains(q));
        } else if pages_of(p, es[x + 1].0, hc).contains(q) {
            assert(pages_of(p, sub[1].0, hc).contains(q));
        }
    }
    assert(agree_on(p, p4, list_pages(p, es.subrange(0, x), h))) by {
        assert forall|q: u64| #[trigger] list_pages(p, es.subrange(0, x), h).contains(q) implies p.contains_key(q)
            == p4.contains_key(q) && p[q] == p4[q] by {
            assert(list_pages(p, es, h).contains(q));
            assert(!list_pages(p, sub, h).contains(q));
        }
    }
    assert(agree_on(p, p4, list_pages(p, es.subrange(x + 2, n), h))) by {
        assert forall|q: u64| #[trigger] list_pages(p, es.subrange(x + 2, n), h).contains(q) implies p.contains_key(q)
            == p4.contains_key(q) && p[q] == p4[q] by {
            assert(list_pages(p, es, h).contains(q));
            assert(!list_pages(p, sub, h).contains(q));
        }
    }
    lemma_splice(p, p4, es, h, hi, x, x + 2, m);
    let nn = es.subrange(0, x) + m + es.subrange(x + 2, n);
    assert(nn =~= spec_entries(nb));
    assert forall|k: Seq<u8>| #[trigger] list_get(p4, nn, h, k) == if k == key {
        None
    } else {
        list_get(p, es, h, k)
    } by {
        if lex_le(es[x].1, k) && below(k, nb2) {
            assert(list_get(p4, m, h, k) == list_get(p4, me, hc, k));
        } else if k == key {
            assert(false);
        }
    }
    lemma_list_pages(p, es, h);
    assert forall|q: u64| #[trigger] p.contains_key(q) && !list_pages(p, es, h).contains(q) implies p4.contains_key(q)
        && p4[q] == p[q] by {
        if pages_of(p, es[x].0, hc).contains(q) {
            assert(list_pages(p, es, h).contains(q));
        }
        if pages_of(p, es[x + 1].0, hc).contains(q) {
            assert(list_pages(p, es, h).contains(q));
        }
    }
}

/// The facts about the pages around a merge of child `idx` (what is left
/// of it, on `p1`) with the sibling at `s`, once both old pages were
/// dropped and the merged node stored at `ptr`.
proof fn lemma_merge_pages(
    p: Pages,
    p1: Pages,
    p4: Pages,
    es: Seq<Entry>,
    h: nat,
    hi: Option<Seq<u8>>,
    idx: int,
    s: int,
    u: Seq<Entry>,
    ptr: u64,
    mb: Seq<u8>,
)
    requires
        h >= 1,
        list_ok(p, es, h, hi),
        0 <= idx < es.len(),
        0 <= s < es.len(),
        s == idx - 1 || s == idx + 1,
        list_ok(p1, u, (h - 1) as nat, next_bound(es, idx, hi)),
        forall|q: u64|
            #[trigger] p.contains_key(q) && !list_pages(p, spec_entries(p[es[idx].0]), (h - 1) as nat).contains(q)
                ==> p1.contains_key(q) && p1[q] == p[q],
        forall|q: u64| #[trigger]
            list_pages(p1, u, (h - 1) as nat).contains(q) ==> list_pages(p, spec_entries(p[es[idx].0]), (h - 1) as nat).contains(q)
                || !p.contains_key(q),
        !p1.remove(es[idx].0).remove(es[s].0).contains_key(ptr),
        p4 == p1.remove(es[idx].0).remove(es[s].0).insert(ptr, mb),
    ensures
        agree_on(p, p4, list_pages(p, spec_entries(p[es[s].0]), (h - 1) as nat)),
        agree_on(p1, p4, list_pages(p1, u, (h - 1) as nat)),
        list_pages(p, spec_entries(p[es[s].0]), (h - 1) as nat).disjoint(list_pages(p1, u, (h - 1) as nat)),
        !list_pages(p, spec_entries(p[es[s].0]), (h - 1) as nat).contains(ptr),
        !list_pages(p1, u, (h - 1) as nat).contains(ptr),
        forall|q: u64| #[trigger]
            list_pages(p, spec_entries(p[es[s].0]), (h - 1) as nat).contains(q) ==> pages_of(p, es[s].0, (h - 1) as nat).contains(q),
        forall|q: u64| #[trigger]
            list_pages(p1, u, (h - 1) as nat).contains(q) ==> pages_of(p, es[idx].0, (h - 1) as nat).contains(q)
                || !p.contains_key(q),
        p.contains_key(ptr) ==> pages_of(p, es[idx].0, (h - 1) as nat).contains(ptr) || pages_of(
            p,
            es[s].0,
            (h - 1) as nat,
        ).contains(ptr),
        forall|q: u64|
            #[trigger] p.contains_key(q) && !pages_of(p, es[idx].0, (h - 1) as nat).contains(q) && !pages_of(
                p,
                es[s].0,
                (h - 1) as nat,
            ).contains(q) ==> p4.contains_key(q) && p4[q] == p[q],
{
    let hc = (h - 1) as nat;
    let kptr = es[idx].0;
    let sptr = es[s].0;
    let ce = spec_entries(p[kptr]);
    let se = spec_entries(p[sptr]);
    let p3 = p1.remove(kptr).remove(sptr);
    lemma_list_ok_facts(p, es, h, hi);
    lemma_pages_in_store(p, kptr, hc, es[idx].1, next_bound(es, idx, hi));
    lemma_pages_in_store(p, sptr, hc, es[s].1, next_bound(es, s, hi));
    assert(pages_of(p, kptr, hc) == set![kptr].union(list_pages(p, ce, hc)));
    assert(pages_of(p, sptr, hc) == set![sptr].union(list_pages(p, se, hc)));
    if s < idx {
        assert(pages_of(p, sptr, hc).disjoint(pages_of(p, kptr, hc)));
    } else {
        assert(pages_of(p, kptr, hc).disjoint(pages_of(p, sptr, hc)));
    }
    lemma_list_pages_in_store(p1, u, hc, next_bound(es, idx, hi));
    // pages of what is left of the child survive into p4
    assert forall|q: u64| #[trigger] list_pages(p1, u, hc).contains(q) implies p3.contains_key(q) && q != ptr && p3[q]
        == p1[q] by {
        assert(p1.contains_key(q));
        if q == kptr {
            assert(list_pages(p, ce, hc).contains(kptr) || !p.contains_key(kptr));
        }
        if q == sptr {
            assert(pages_of(p, sptr, hc).contains(sptr));
            assert(list_pages(p, ce, hc).contains(sptr) || !p.contains_key(sptr));
            assert(pages_of(p, kptr, hc).contains(sptr));
        }
    }
    // pages of the sibling survive into p4
    assert forall|q: u64| #[trigger] list_pages(p, se, hc).contains(q) implies p3.contains_key(q) && q != ptr && p3[q]
        == p[q] by {
        assert(pages_of(p, sptr, hc).contains(q));
        assert(!pages_of(p, kptr, hc).contains(q));
        assert(p.contains_key(q));
        assert(p1.contains_key(q) && p1[q] == p[q]);
    }
    assert(agree_on(p, p4, list_pages(p, se, hc))) by {
        assert forall|q: u64| #[trigger] list_pages(p, se, hc).contains(q) implies p.contains_key(q)
            == p4.contains_key(q) && p[q] == p4[q] by {
            assert(p3.contains_key(q) && q != ptr);
        }
    }
    assert(agree_on(p1, p4, list_pages(p1, u, hc))) by {
        assert forall|q: u64| #[trigger] list_pages(p1, u, hc).contains(q) implies p1.contains_key(q)
            == p4.contains_key(q) && p1[q] == p4[q] by {
            assert(p3.contains_key(q) && q != ptr);
        }
    }
    assert(list_pages(p, se, hc).disjoint(list_pages(p1, u, hc))) by {
        assert forall|q: u64| #[trigger] list_pages(p, se, hc).contains(q) implies !list_pages(p1, u, hc).contains(q) by {
            assert(pages_of(p, sptr, hc).contains(q));
            assert(p.contains_key(q));
            assert(!pages_of(p, kptr, hc).contains(q));
        }
    }
    assert forall|q: u64| #[trigger] list_pages(p1, u, hc).contains(q) implies pages_of(p, kptr, hc).contains(q)
        || !p.contains_key(q) by {}
    assert forall|q: u64|
        #[trigger] p.contains_key(q) && !pages_of(p, kptr, hc).contains(q) && !pages_of(p, sptr, hc).contains(q) implies p4.contains_key(
        q,
    ) && p4[q] == p[q] by {
        assert(!list_pages(p, ce, hc).contains(q));
        assert(p1.contains_key(q) && p1[q] == p[q]);
        assert(q != kptr && q != sptr);
        assert(p3.contains_key(q));
    }
    if p.contains_key(ptr) && !pages_of(p, kptr, hc).contains(ptr) && !pages_of(p, sptr, hc).contains(ptr) {
        assert(!list_pages(p, ce, hc).contains(ptr));
        assert(p1.contains_key(ptr));
        assert(p3.contains_key(ptr));
    }
}

/// The merge of what is left of child `idx` into its left sibling, both
/// replaced by the merged node at `ptr`: the result of deleting `key`
/// below the node.
#[verifier::rlimit(80)]
#[verifier::spinoff_prover]
pub proof fn lemma_merge_left(
    p: Pages,
    p1: Pages,
    p2: Pages,
    p3: Pages,
    p4: Pages,
    es: Seq<Entry>,
    h: nat,
    lo: Seq<u8>,
    hi: Option<Seq<u8>>,
    idx: int,
    key: Seq<u8>,
    ub: Seq<u8>,
    sb: Seq<u8>,
    mb: Seq<u8>,
    ptr: u64,
    nb: Seq<u8>,
)
    requires
        del_ctx(p, p1, es, h, lo, hi, idx, key, ub),
        idx >= 1,
        p2 == p1.remove(es[idx].0),
        sb == p2[es[idx - 1].0],
        p3 == p2.remove(es[idx - 1].0),
        !p3.contains_key(ptr),
        p4 == p3.insert(ptr, mb),
        node_wf(mb),
        spec_btype(mb) == spec_btype(sb),
        spec_entries(mb) == spec_entries(sb) + spec_entries(ub),
        node_size(spec_entries(sb) + spec_entries(ub)) <= page_size(),
        node_wf(nb),
        spec_btype(nb) == 1,
        spec_entries(nb) == es.subrange(0, idx - 1).push((ptr, spec_entries(mb)[0].1, Seq::<u8>::empty()))
            + es.subrange(idx + 1, es.len() as int),
        node_size(spec_entries(nb)) <= page_size(),
    ensures
        del_result(p, p4, nb, es, h, lo, hi, key),
{
    let hc = (h - 1) as nat;
    let kptr = es[idx].0;
    let sptr = es[idx - 1].0;
    let ce = spec_entries(p[kptr]);
    let se = spec_entries(p[sptr]);
    let u = spec_entries(ub);
    let chi = next_bound(es, idx, hi);
    lemma_lex_order();
    lemma_list_ok_facts(p, es, h, hi);
    lemma_del_siblings(p, p1, es, h, hi, idx);
    assert(sb == p[sptr]);
    lemma_list_child(p, es, h, hi, idx - 1);
    assert(next_bound(es, idx - 1, hi) == Some(es[idx].1));
    lemma_merge_pages(p, p1, p4, es, h, hi, idx, idx - 1, u, ptr, mb);
    lemma_list_frame(p, p4, se, hc, Some(es[idx].1));
    lemma_list_frame(p1, p4, u, hc, chi);
    assert(bound_le(Some(es[idx].1), chi)) by {
        if idx + 1 < es.len() {
            assert(lex_lt(es[idx].1, es[idx + 1].1));
        } else {
            assert(below(es[idx].1, hi));
        }
    }
    lemma_pair(p4, se, u, hc, es[idx].1, chi);
    let me = se + u;
    lemma_wf_reads(mb);
    lemma_wf_reads(nb);
    assert(me[0] == se[0]);
    assert(lex_lt(es[idx - 1].1, es[idx].1));
    assert forall|k: Seq<u8>|
        lex_le(es[idx - 1].1, k) && below(k, chi) implies #[trigger] list_get(p4, me, hc, k) == if k == key {
        None
    } else {
        list_get(p, es, h, k)
    } by {
        if lex_lt(k, es[idx].1) {
            lemma_child_get(p, es, h, hi, idx - 1, k);
            assert(list_get(p4, se, hc, k) == list_get(p, se, hc, k));
        } else {
            crate::page::keys::lemma_lex_total(k, es[idx].1);
            lemma_child_get(p, es, h, hi, idx, k);
            assert(list_get(p4, u, hc, k) == list_get(p1, u, hc, k));
        }
    }
    assert(es.subrange(0, idx - 1).push((ptr, me[0].1, Seq::<u8>::empty())) + es.subrange(
        idx - 1 + 2,
        es.len() as int,
    ) == spec_entries(nb));
    lemma_merge_splice(p, p4, es, h, lo, hi, idx - 1, key, me, mb, ptr, nb);
}

/// The merge of what is left of child `idx` with its right sibling, both
/// replaced by the merged node at `ptr`: the result of deleting `key`
/// below the node.
#[verifier::rlimit(80)]
#[verifier::spinoff_prover]
pub proof fn lemma_merge_right(
    p: Pages,
    p1: Pages,
    p2: Pages,
    p3: Pages,
    p4: Pages,
    es: Seq<Entry>,
    h: nat,
    lo: Seq<u8>,
    hi: Option<Seq<u8>>,
    idx: int,
    key: Seq<u8>,
    ub: Seq<u8>,
    sb: Seq<u8>,
    mb: Seq<u8>,
    ptr: u64,
    nb: Seq<u8>,
)
    requires
        del_ctx(p, p1, es, h, lo, hi, idx, key, ub),
        idx + 1 < es.len(),
        p2 == p1.remove(es[idx].0),
        sb == p2[es[idx + 1].0],
        p3 == p2.remove(es[idx + 1].0),
        !p3.contains_key(ptr),
        p4 == p3.insert(ptr, mb),
        node_wf(mb),
        spec_btype(mb) == spec_btype(ub),
        spec_entries(mb) == spec_entries(ub) + spec_entries(sb),
        node_size(spec_entries(ub) + spec_entries(sb)) <= page_size(),
        node_wf(nb),
        spec_btype(nb) == 1,
        spec_entries(nb) == es.subrange(0, idx).push((ptr, spec_entries(mb)[0].1, Seq::<u8>::empty()))
            + es.subrange(idx + 2, es.len() as int),
        node_size(spec_entries(nb)) <= page_size(),
    ensures
        del_result(p, p4, nb, es, h, lo, hi, key),
{
    let hc = (h - 1) as nat;
    let kptr = es[idx].0;
    let sptr = es[idx + 1].0;
    let ce = spec_entries(p[kptr]);
    let se = spec_entries(p[sptr]);
    let u = spec_entries(ub);
    let chi = next_bound(es, idx, hi);
    let nb2 = next_bound(es, idx + 1, hi);
    lemma_lex_order();
    lemma_list_ok_facts(p, es, h, hi);
    lemma_del_siblings(p, p1, es, h, hi, idx);
    assert(sb == p[sptr]);
    lemma_list_child(p, es, h, hi, idx + 1);
    assert(chi == Some(es[idx + 1].1));
    lemma_merge_pages(p, p1, p4, es, h, hi, idx, idx + 1, u, ptr, mb);
    lemma_list_frame(p, p4, se, hc, nb2);
    lemma_list_frame(p1, p4, u, hc, chi);
    assert(bound_le(Some(es[idx + 1].1), nb2)) by {
        if idx + 2 < es.len() {
            assert(lex_lt(es[idx + 1].1, es[idx + 2].1));
        } else {
            assert(below(es[idx + 1].1, hi));
        }
    }
    assert(list_pages(p4, u, hc).disjoint(list_pages(p4, se, hc)));
    lemma_pair(p4, u, se, hc, es[idx + 1].1, nb2);
    let me = u + se;
    lemma_wf_reads(mb);
    lemma_wf_reads(nb);
    if u.len() > 0 {
        assert(me[0] == u[0]);
    } else {
        assert(me =~= se);
    }
    assert forall|k: Seq<u8>|
        lex_le(es[idx].1, k) && below(k, nb2) implies #[trigger] list_get(p4, me, hc, k) == if k == key {
        None
    } else {
        list_get(p, es, h, k)
    } by {
        if lex_lt(k, es[idx + 1].1) {
            lemma_child_get(p, es, h, hi, idx, k);
            assert(list_get(p4, u, hc, k) == list_get(p1, u, hc, k));
        } else {
            crate::page::keys::lemma_lex_total(k, es[idx + 1].1);
            lemma_child_get(p, es, h, hi, idx + 1, k);
            assert(list_get(p4, se, hc, k) == list_get(p, se, hc, k));
        }
    }
    lemma_merge_splice(p, p4, es, h, lo, hi, idx, key, me, mb, ptr, nb);
}

/// With `key` deleted below child `idx`, the child's new first key, as
/// a separator, still leaves the node within a page.
proof fn lemma_sep_room(
    p: Pages,
    p1: Pages,
    es: Seq<Entry>,
    h: nat,
    lo: Seq<u8>,
    hi: Option<Seq<u8>>,
    idx: int,
    key: Seq<u8>,
    ub: Seq<u8>,
)
    requires
        del_ctx(p, p1, es, h, lo, hi, idx, key, ub),
        spec_entries(ub).len() >= 1,
    ensures
        node_size(es) + 4 + spec_entries(ub)[0].1.len() <= page_size() + entry_size(es[idx]),
{
    let hc = (h - 1) as nat;
    let u = spec_entries(ub);
    let ce = spec_entries(p[es[idx].0]);
    let chi = next_bound(es, idx, hi);
    lemma_list_ok_facts(p, es, h, hi);
    lemma_list_key_len(p1, u, hc, chi, 0);
    if es[idx].1 == key {
        lemma_lex_order();
        lemma_first_present(p1, u, hc, chi);
        assert(is_next_key(p, ce, hc, key, u[0].1)) by {
            assert forall|k2: Seq<u8>| lex_lt(key, k2) && #[trigger] list_get(p, ce, hc, k2) is Some implies lex_le(
                u[0].1,
                k2,
            ) by {
                assert(list_get(p1, u, hc, k2) == list_get(p, ce, hc, k2));
                lemma_list_get_range(p1, u, hc, chi, k2);
            }
        }
        let c = choose|k: Seq<u8>| is_next_key(p, ce, hc, key, k);
        assert(is_next_key(p, ce, hc, key, c));
        assert(lex_le(c, u[0].1) && lex_le(u[0].1, c));
        assert(c == u[0].1);
    }
}

/// The first key of a valid, non-empty run of entries is held below it.
proof fn lemma_first_present(p: Pages, es: Seq<Entry>, h: nat, hi: Option<Seq<u8>>)
    requires
        list_ok(p, es, h, hi),
        es.len() >= 1,
    ensures
        list_get(p, es, h, es[0].1) is Some,
    decreases h,
{
    lemma_list_sorted(p, es, h, hi);
    if h == 0 {
        assert(found_at(es, es[0].1, 0));
        lemma_leaf_get_at(es, es[0].1, 0);
    } else {
        lemma_slot(es, es[0].1);
        lemma_lex_order();
        assert(slot_ok(es, es[0].1, 0));
        lemma_list_child(p, es, h, hi, 0);
        let ce = spec_entries(p[es[0].0]);
        lemma_first_present(p, ce, (h - 1) as nat, next_bound(es, 0, hi));
    }
}

/// Room for the separator of a merge into the left sibling.
pub proof fn lemma_merge_left_room(
    p: Pages,
    p1: Pages,
    p2: Pages,
    es: Seq<Entry>,
    h: nat,
    lo: Seq<u8>,
    hi: Option<Seq<u8>>,
    idx: int,
    key: Seq<u8>,
    ub: Seq<u8>,
    sb: Seq<u8>,
    ptr: u64,
    key0: Seq<u8>,
)
    requires
        del_ctx(p, p1, es, h, lo, hi, idx, key, ub),
        idx >= 1,
        p2 == p1.remove(es[idx].0),
        sb == p2[es[idx - 1].0],
        key0 == (spec_entries(sb) + spec_entries(ub))[0].1,
    ensures
        node_size(
            es.subrange(0, idx - 1).push((ptr, key0, Seq::<u8>::empty())) + es.subrange(idx + 1, es.len() as int),
        ) <= page_size(),
{
    lemma_list_ok_facts(p, es, h, hi);
    lemma_del_siblings(p, p1, es, h, hi, idx);
    assert(key0 == es[idx - 1].1);
    let e: Entry = (ptr, key0, Seq::<u8>::empty());
    let es2 = es.update(idx - 1, e);
    lemma_size_edits(es, idx - 1, e);
    lemma_size_edits(es2, idx, es2[idx]);
    assert(es2.remove(idx) =~= es.subrange(0, idx - 1).push(e) + es.subrange(idx + 1, es.len() as int));
}

/// Room for the separator of a merge with the right sibling.
pub proof fn lemma_merge_right_room(
    p: Pages,
    p1: Pages,
    p2: Pages,
    es: Seq<Entry>,
    h: nat,
    lo: Seq<u8>,
    hi: Option<Seq<u8>>,
    idx: int,
    key: Seq<u8>,
    ub: Seq<u8>,
    sb: Seq<u8>,
    ptr: u64,
    key0: Seq<u8>,
)
    requires
        del_ctx(p, p1, es, h, lo, hi, idx, key, ub),
        idx + 1 < es.len(),
        p2 == p1.remove(es[idx].0),
        sb == p2[es[idx + 1].0],
        key0 == (spec_entries(ub) + spec_entries(sb))[0].1,
    ensures
        node_size(es.subrange(0, idx).push((ptr, key0, Seq::<u8>::empty())) + es.subrange(idx + 2, es.len() as int))
            <= page_size(),
{
    lemma_list_ok_facts(p, es, h, hi);
    lemma_del_siblings(p, p1, es, h, hi, idx);
    let u = spec_entries(ub);
    if u.len() > 0 {
        assert(key0 == u[0].1);
        lemma_sep_room(p, p1, es, h, lo, hi, idx, key, ub);
    } else {
        assert(key0 == es[idx + 1].1);
    }
    let e: Entry = (ptr, key0, Seq::<u8>::empty());
    let es2 = es.update(idx, e);
    lemma_size_edits(es, idx, e);
    lemma_size_edits(es2, idx + 1, es2[idx + 1]);
    assert(es2.remove(idx + 1) =~= es.subrange(0, idx).push(e) + es.subrange(idx + 2, es.len() as int));
}

/// Room for the separator of what is left of child `idx` put back in
/// its place.
pub proof fn lemma_replace_kid_room(
    p: Pages,
    p1: Pages,
    es: Seq<Entry>,
    h: nat,
    lo: Seq<u8>,
    hi: Option<Seq<u8>>,
    idx: int,
    key: Seq<u8>,
    kb: Seq<Seq<u8>>,
)
    requires
        kb.len() == 1,
        del_ctx(p, p1, es, h, lo, hi, idx, key, kb[0]),
        spec_entries(kb[0]).len() >= 1,
    ensures
        node_size(
            es.subrange(0, idx) + kid_entries(kb, Seq::new(kb.len(), |j: int| 0u64)) + es.subrange(
                idx + 1,
                es.len() as int,
            ),
        ) <= page_size(),
{
    lemma_sep_room(p, p1, es, h, lo, hi, idx, key, kb[0]);
    let e: Entry = (0u64, spec_entries(kb[0])[0].1, Seq::<u8>::empty());
    lemma_size_edits(es, idx, e);
    assert(kid_entries(kb, Seq::new(kb.len(), |j: int| 0u64)) =~= seq![e]);
    assert(es.subrange(0, idx) + seq![e] + es.subrange(idx + 1, es.len() as int) =~= es.update(idx, e));
}

/// What is left of child `idx` stored afresh and put back in its place:
/// the result of deleting `key` below the node.
pub proof fn lemma_del_replaced(
    p: Pages,
    p1: Pages,
    p2: Pages,
    p3: Pages,
    es: Seq<Entry>,
    h: nat,
    lo: Seq<u8>,
    hi: Option<Seq<u8>>,
    idx: int,
    key: Seq<u8>,
    kb: Seq<Seq<u8>>,
    ptrs: Seq<u64>,
    nb: Seq<u8>,
)
    requires
        kb.len() == 1,
        del_ctx(p, p1, es, h, lo, hi, idx, key, kb[0]),
        spec_entries(kb[0]).len() >= 1,
        p2 == p1.remove(es[idx].0),
        stored_kids(p2, p3, ptrs, kb),
        node_wf(nb),
        spec_btype(nb) == 1,
        spec_entries(nb) == es.subrange(0, idx) + kid_entries(kb, ptrs) + es.subrange(idx + 1, es.len() as int),
    ensures
        del_result(p, p3, nb, es, h, lo, hi, key),
{
    let hc = (h - 1) as nat;
    let kptr = es[idx].0;
    let ub = kb[0];
    let u = spec_entries(ub);
    assert(kb.drop_last() =~= Seq::<Seq<u8>>::empty());
    assert(concat_entries(kb.drop_last()) =~= Seq::<Entry>::empty());
    assert(kb.last() == ub);
    assert(concat_entries(kb) =~= u);
    lemma_list_child(p, es, h, hi, idx);
    assert(kids_ok(kb, hc));
    assert(rebuilt_pre(p, p1, p2, p3, es, h, hi, idx, kptr, u, kb, ptrs));
    lemma_rebuilt(p, p1, p2, p3, es, h, hi, idx, kptr, u, kb, ptrs, key, None);
    lemma_sep_room(p, p1, es, h, lo, hi, idx, key, ub);
    let e: Entry = (ptrs[0], u[0].1, Seq::<u8>::empty());
    lemma_size_edits(es, idx, e);
    assert(kid_entries(kb, ptrs) =~= seq![e]);
    assert(es.subrange(0, idx) + seq![e] + es.subrange(idx + 1, es.len() as int) =~= es.update(idx, e));
    lemma_wf_reads(nb);
    lemma_list_ok_facts(p, es, h, hi);
}

/// What is left of the only child `idx` is empty: the node is left with
/// no children, which is the result of deleting `key` below it.
pub proof fn lemma_del_empty_parent(
    p: Pages,
    p1: Pages,
    p2: Pages,
    es: Seq<Entry>,
    h: nat,
    lo: Seq<u8>,
    hi: Option<Seq<u8>>,
    idx: int,
    key: Seq<u8>,
    ub: Seq<u8>,
    nb: Seq<u8>,
)
    requires
        del_ctx(p, p1, es, h, lo, hi, idx, key, ub),
        spec_entries(ub).len() == 0,
        p2 == p1.remove(es[idx].0),
        spec_nbytes(ub) > page_size() / 4 || ((idx == 0 || node_size(
            spec_entries(p2[es[idx - 1].0]) + spec_entries(ub),
        ) > page_size()) && (idx + 1 >= es.len() || node_size(
            spec_entries(ub) + spec_entries(p2[es[idx + 1].0]),
        ) > page_size())),
        node_wf(nb),
        spec_btype(nb) == 1,
        spec_entries(nb).len() == 0,
    ensures
        idx == 0,
        es.len() == 1,
        del_result(p, p2, nb, es, h, lo, hi, key),
{
    let hc = (h - 1) as nat;
    let kptr = es[idx].0;
    let ce = spec_entries(p[kptr]);
    let u = spec_entries(ub);
    lemma_wf_reads(ub);
    lemma_wf_reads(nb);
    lemma_del_siblings(p, p1, es, h, hi, idx);
    if idx > 0 {
        let sb = p[es[idx - 1].0];
        assert(spec_entries(sb) + u =~= spec_entries(sb));
        lemma_wf_reads(sb);
    }
    if idx + 1 < es.len() {
        let sb = p[es[idx + 1].0];
        assert(u + spec_entries(sb) =~= spec_entries(sb));
        lemma_wf_reads(sb);
    }
    assert(spec_entries(nb) =~= Seq::<Entry>::empty());
    lemma_list_empty(p2, h, hi);
    lemma_list_child(p, es, h, hi, 0);
    lemma_pages_in_store(p, kptr, hc, es[0].1, hi);
    assert forall|k: Seq<u8>| #[trigger] list_get(p2, spec_entries(nb), h, k) == if k == key {
        None
    } else {
        list_get(p, es, h, k)
    } by {
        lemma_get_empty(p2, h, k);
        if k != key && list_get(p, es, h, k) is Some {
            lemma_list_get_range(p, es, h, hi, k);
            lemma_child_get(p, es, h, hi, 0, k);
            assert(u =~= Seq::<Entry>::empty());
            lemma_get_empty(p1, hc, k);
        }
    }
    lemma_list_pages(p, es, h);
    assert(pages_of(p, kptr, hc) == set![kptr].union(list_pages(p, ce, hc)));
    assert forall|q: u64| #[trigger] p.contains_key(q) && !list_pages(p, es, h).contains(q) implies p2.contains_key(q)
        && p2[q] == p[q] by {
        assert(!pages_of(p, es[0].0, hc).contains(q));
    }
}

/// A leaf whose search for `key` ends at an entry holding another key
/// does not hold `key`.
pub proof fn lemma_leaf_missing(p: Pages, es: Seq<Entry>, hi: Option<Seq<u8>>, key: Seq<u8>, idx: int)
    requires
        list_ok(p, es, 0, hi),
        slot_ok(es, key, idx),
        es[idx].1 != key,
    ensures
        list_get(p, es, 0, key) is None,
{
    lemma_list_sorted(p, es, 0, hi);
    lemma_lex_order();
    if exists|i: int| found_at(es, key, i) {
        let i = choose|i: int| found_at(es, key, i);
        if i < idx {
            assert(lex_lt(es[i].1, es[idx].1));
        } else if i > idx + 1 {
            assert(lex_lt(es[idx + 1].1, es[i].1));
        }
    }
}

/// A leaf with its entry `idx`, which holds `key`, removed: the result
/// of deleting `key` from it.
#[verifier::rlimit(40)]
#[verifier::spinoff_prover]
pub proof fn lemma_leaf_removed(
    p: Pages,
    es: Seq<Entry>,
    lo: Seq<u8>,
    hi: Option<Seq<u8>>,
    key: Seq<u8>,
    idx: int,
    nb: Seq<u8>,
)
    requires
        list_ok(p, es, 0, hi),
        es.len() >= 1,
        es[0].1 == lo,
        node_size(es) <= page_size(),
        slot_ok(es, key, idx),
        es[idx].1 == key,
        node_wf(nb),
        spec_btype(nb) == 2,
        spec_entries(nb) == es.remove(idx),
    ensures
        del_result(p, p, nb, es, 0, lo, hi, key),
{
    lemma_list_ok_facts(p, es, 0, hi);
    lemma_lex_order();
    let ns = es.remove(idx);
    assert forall|a: int| 0 <= a < ns.len() implies ns[a] == es[if a < idx {
        a
    } else {
        a + 1
    }] by {}
    assert forall|a: int, b: int| 0 <= a < b < ns.len() implies lex_lt(#[trigger] ns[a].1, #[trigger] ns[b].1) by {
        let ia = if a < idx {
            a
        } else {
            a + 1
        };
        let ib = if b < idx {
            b
        } else {
            b + 1
        };
        assert(ns[a] == es[ia] && ns[b] == es[ib]);
    }
    assert forall|a: int| 0 <= a < ns.len() implies below(#[trigger] ns[a].1, hi) && (#[trigger] ns[a]).1.len()
        <= max_key() && ns[a].2.len() <= crate::btree::model::max_val() by {
        let ia = if a < idx {
            a
        } else {
            a + 1
        };
        assert(ns[a] == es[ia]);
    }
    lemma_list_ok_intro(p, ns, 0, hi);
    lemma_size_edits(es, idx, es[idx]);
    lemma_wf_reads(nb);
    if ns.len() >= 1 {
        if idx == 0 {
            assert(ns[0] == es[1]);
        } else {
            assert(ns[0] == es[0]);
        }
    }
    assert forall|k: Seq<u8>| #[trigger] list_get(p, ns, 0, k) == if k == key {
        None
    } else {
        list_get(p, es, 0, k)
    } by {
        if exists|b: int| found_at(ns, k, b) {
            let b = choose|b: int| found_at(ns, k, b);
            let ib = if b < idx {
                b
            } else {
                b + 1
            };
            assert(ns[b] == es[ib]);
            lemma_leaf_get_at(ns, k, b);
            lemma_leaf_get_at(es, k, ib);
        } else if k != key && exists|i: int| found_at(es, k, i) {
            let i = choose|i: int| found_at(es, k, i);
            let b = if i < idx {
                i
            } else {
                i - 1
            };
            assert(ns[b] == es[i]);
            assert(found_at(ns, k, b));
        }
    }
}

/// Every key held below a valid run of entries is within the key limit.
pub proof fn lemma_get_key_len(p: Pages, es: Seq<Entry>, h: nat, hi: Option<Seq<u8>>, k: Seq<u8>)
    requires
        list_ok(p, es, h, hi),
        list_get(p, es, h, k) is Some,
    ensures
        k.len() <= max_key(),
    decreases h,
{
    lemma_list_ok_facts(p, es, h, hi);
    if h == 0 {
        let i = choose|i: int| found_at(es, k, i);
        assert(found_at(es, k, i));
    } else {
        lemma_list_get_range(p, es, h, hi, k);
        lemma_slot(es, k);
        let s = crate::btree::model::slot(es, k);
        lemma_list_child(p, es, h, hi, s);
        let ce = spec_entries(p[es[s].0]);
        lemma_get_key_len(p, ce, (h - 1) as nat, next_bound(es, s, hi), k);
    }
}

/// At most one key is the next key above `key`.
pub proof fn lemma_next_key_unique(p: Pages, es: Seq<Entry>, h: nat, key: Seq<u8>, a: Seq<u8>, b: Seq<u8>)
    requires
        is_next_key(p, es, h, key, a),
        is_next_key(p, es, h, key, b),
    ensures
        a == b,
{
    lemma_lex_order();
    assert(lex_le(a, b) && lex_le(b, a));
}

/// No key above `key` is held below the entries `es` of a node at
/// height `h`.
pub open spec fn no_key_above(p: Pages, es: Seq<Entry>, h: nat, key: Seq<u8>) -> bool {
    forall|k: Seq<u8>| lex_lt(key, k) ==> #[trigger] list_get(p, es, h, k) is None
}

/// The next key above `key` in a leaf whose first key is `key` is its
/// second key, and there is none in a leaf of one entry.
pub proof fn lemma_next_key_leaf(p: Pages, es: Seq<Entry>, hi: Option<Seq<u8>>, key: Seq<u8>)
    requires
        list_ok(p, es, 0, hi),
        es.len() >= 1,
        es[0].1 == key,
    ensures
        es.len() >= 2 ==> is_next_key(p, es, 0, key, es[1].1),
        es.len() < 2 ==> no_key_above(p, es, 0, key),
{
    lemma_list_sorted(p, es, 0, hi);
    lemma_lex_order();
    if es.len() >= 2 {
        assert(lex_lt(es[0].1, es[1].1));
        lemma_leaf_get_at(es, es[1].1, 1);
        assert forall|k2: Seq<u8>| lex_lt(key, k2) && #[trigger] list_get(p, es, 0, k2) is Some implies lex_le(
            es[1].1,
            k2,
        ) by {
            let i = choose|i: int| found_at(es, k2, i);
            assert(found_at(es, k2, i));
            if i > 1 {
                assert(lex_lt(es[1].1, es[i].1));
            }
        }
    } else {
        assert forall|k: Seq<u8>| lex_lt(key, k) implies #[trigger] list_get(p, es, 0, k) is None by {
            if list_get(p, es, 0, k) is Some {
                let i = choose|i: int| found_at(es, k, i);
                assert(found_at(es, k, i));
            }
        }
    }
}

/// The next key above `key` below an inner node whose first key is `key`
/// is the next key below its first child, or else its second key.
pub proof fn lemma_next_key_inner(p: Pages, es: Seq<Entry>, h: nat, hi: Option<Seq<u8>>, key: Seq<u8>)
    requires
        h >= 1,
        list_ok(p, es, h, hi),
        es.len() >= 1,
        es[0].1 == key,
    ensures
        sub_ok(p, es[0].0, (h - 1) as nat, key, next_bound(es, 0, hi)),
        forall|c: Seq<u8>|
            is_next_key(p, spec_entries(p[es[0].0]), (h - 1) as nat, key, c) ==> is_next_key(p, es, h, key, c),
        no_key_above(p, spec_entries(p[es[0].0]), (h - 1) as nat, key) && es.len() >= 2 ==> is_next_key(
            p,
            es,
            h,
            key,
            es[1].1,
        ),
        no_key_above(p, spec_entries(p[es[0].0]), (h - 1) as nat, key) && es.len() < 2 ==> no_key_above(
            p,
            es,
            h,
            key,
        ),
{
    let hc = (h - 1) as nat;
    let ce = spec_entries(p[es[0].0]);
    let nb = next_bound(es, 0, hi);
    lemma_list_sorted(p, es, h, hi);
    lemma_lex_order();
    lemma_list_child(p, es, h, hi, 0);
    assert(list_ok(p, ce, hc, nb));
    assert forall|k2: Seq<u8>| lex_le(key, k2) && below(k2, nb) implies list_get(p, es, h, k2) == list_get(
        p,
        ce,
        hc,
        k2,
    ) by {
        lemma_child_get(p, es, h, hi, 0, k2);
    }
    assert forall|c: Seq<u8>| is_next_key(p, ce, hc, key, c) implies is_next_key(p, es, h, key, c) by {
        lemma_list_get_range(p, ce, hc, nb, c);
        assert(list_get(p, es, h, c) == list_get(p, ce, hc, c));
        assert forall|k2: Seq<u8>| lex_lt(key, k2) && #[trigger] list_get(p, es, h, k2) is Some implies lex_le(
            c,
            k2,
        ) by {
            lemma_list_get_range(p, es, h, hi, k2);
            if below(k2, nb) {
                assert(list_get(p, es, h, k2) == list_get(p, ce, hc, k2));
            } else {
                assert(es.len() >= 2);
                assert(lex_le(es[1].1, k2));
            }
        }
    }
    if no_key_above(p, ce, hc, key) {
        if es.len() >= 2 {
            assert(lex_lt(es[0].1, es[1].1));
            lemma_list_child(p, es, h, hi, 1);
            let c1 = spec_entries(p[es[1].0]);
            lemma_first_present(p, c1, hc, next_bound(es, 1, hi));
            lemma_list_ok_facts(p, es, h, hi);
            if es.len() > 2 {
                assert(lex_lt(es[1].1, es[2].1));
            }
            lemma_child_get(p, es, h, hi, 1, es[1].1);
            assert forall|k2: Seq<u8>| lex_lt(key, k2) && #[trigger] list_get(p, es, h, k2) is Some implies lex_le(
                es[1].1,
                k2,
            ) by {
                if lex_lt(k2, es[1].1) {
                    assert(below(k2, nb));
                    assert(list_get(p, es, h, k2) == list_get(p, ce, hc, k2));
                }
            }
        } else {
            assert forall|k: Seq<u8>| lex_lt(key, k) implies #[trigger] list_get(p, es, h, k) is None by {
                if list_get(p, es, h, k) is Some {
                    lemma_list_get_range(p, es, h, hi, k);
                    assert(below(k, nb));
                    assert(list_get(p, es, h, k) == list_get(p, ce, hc, k));
                }
            }
        }
    }
}

} // verus!
