//! How the edits of an insert or a delete keep a subtree well-shaped and
//! change what it holds.
use vstd::prelude::*;

use crate::btree::model::{
    lemma_list_empty, lemma_list_ok_facts, agree_on, below, found_at, leaf_get, lemma_leaf_get_at, lemma_list_concat, lemma_list_frame,
    lemma_list_get_range, lemma_list_pages, lemma_list_sub, list_get, list_ok, list_pages,
    max_key, max_val, next_bound, page_size, pages_of, slot_ok, sorted, sub_get, sub_ok, type_at,
    Pages,
};
use crate::node::format::{node_wf, spec_btype, spec_entries, spec_nbytes, Entry};
use crate::page::keys::{lemma_lex_order, lex_le, lex_lt};

verus! {

/// A leaf with `key` inserted just after its slot `i`.
pub proof fn lemma_leaf_insert(
    p: Pages,
    es: Seq<Entry>,
    hi: Option<Seq<u8>>,
    key: Seq<u8>,
    val: Seq<u8>,
    i: int,
)
    requires
        list_ok(p, es, 0, hi),
        slot_ok(es, key, i),
        es[i].1 != key,
        below(key, hi),
        key.len() <= max_key(),
        val.len() <= max_val(),
    ensures
        list_ok(p, es.insert(i + 1, (0u64, key, val)), 0, hi),
        es.insert(i + 1, (0u64, key, val))[0] == es[0],
        forall|k: Seq<u8>|
            #[trigger] leaf_get(es.insert(i + 1, (0u64, key, val)), k) == if k == key {
                Some(val)
            } else {
                leaf_get(es, k)
            },
{
    reveal(list_ok);    lemma_lex_order();
    let e: Entry = (0u64, key, val);
    let ns = es.insert(i + 1, e);
    assert(lex_lt(es[i].1, key));
    assert forall|a: int| 0 <= a < ns.len() implies below(#[trigger] ns[a].1, hi) && (#[trigger] ns[a]).1.len()
        <= max_key() && ns[a].2.len() <= max_val() by {
        if a < i + 1 {
            assert(ns[a] == es[a]);
        } else if a > i + 1 {
            assert(ns[a] == es[a - 1]);
        }
    }
    assert forall|a: int, b: int| 0 <= a < b < ns.len() implies lex_lt(#[trigger] ns[a].1, #[trigger] ns[b].1) by {
        if b < i + 1 {
            assert(ns[a] == es[a] && ns[b] == es[b]);
        } else if a > i + 1 {
            assert(ns[a] == es[a - 1] && ns[b] == es[b - 1]);
        } else if a == i + 1 {
            assert(ns[b] == es[b - 1]);
            assert(lex_lt(key, es[i + 1].1));
            if b - 1 > i + 1 {
                assert(lex_lt(es[i + 1].1, es[b - 1].1));
            }
        } else if b == i + 1 {
            assert(ns[a] == es[a]);
            if a < i {
                assert(lex_lt(es[a].1, es[i].1));
            }
        } else {
            assert(ns[a] == es[a] && ns[b] == es[b - 1]);
            assert(lex_lt(es[a].1, es[b - 1].1) || a == b - 1);
        }
    }
    assert(ns[0] == es[0]);
    assert forall|k: Seq<u8>| #[trigger] leaf_get(ns, k) == if k == key {
        Some(val)
    } else {
        leaf_get(es, k)
    } by {
        if k == key {
            assert(found_at(ns, k, i + 1));
            lemma_leaf_get_at(ns, k, i + 1);
        } else if exists|a: int| found_at(es, k, a) {
            let a = choose|a: int| found_at(es, k, a);
            lemma_leaf_get_at(es, k, a);
            if a <= i {
                assert(ns[a] == es[a]);
                lemma_leaf_get_at(ns, k, a);
            } else {
                assert(ns[a + 1] == es[a]);
                lemma_leaf_get_at(ns, k, a + 1);
            }
        } else if exists|b: int| found_at(ns, k, b) {
            let b = choose|b: int| found_at(ns, k, b);
            if b < i + 1 {
                assert(ns[b] == es[b]);
                assert(found_at(es, k, b));
            } else if b > i + 1 {
                assert(ns[b] == es[b - 1]);
                assert(found_at(es, k, b - 1));
            }
        }
    }
}

/// A leaf with the value at its slot `i`, which holds `key`, replaced.
pub proof fn lemma_leaf_update(
    p: Pages,
    es: Seq<Entry>,
    hi: Option<Seq<u8>>,
    key: Seq<u8>,
    val: Seq<u8>,
    i: int,
)
    requires
        list_ok(p, es, 0, hi),
        found_at(es, key, i),
        val.len() <= max_val(),
    ensures
        list_ok(p, es.update(i, (0u64, key, val)), 0, hi),
        es.update(i, (0u64, key, val))[0].1 == es[0].1,
        forall|k: Seq<u8>|
            #[trigger] leaf_get(es.update(i, (0u64, key, val)), k) == if k == key {
                Some(val)
            } else {
                leaf_get(es, k)
            },
{
    reveal(list_ok);    lemma_lex_order();
    let e: Entry = (0u64, key, val);
    let ns = es.update(i, e);
    assert forall|a: int| 0 <= a < ns.len() implies below(#[trigger] ns[a].1, hi) && (#[trigger] ns[a]).1.len()
        <= max_key() && ns[a].2.len() <= max_val() by {
        if a != i {
            assert(ns[a] == es[a]);
        }
    }
    assert forall|a: int, b: int| 0 <= a < b < ns.len() implies lex_lt(#[trigger] ns[a].1, #[trigger] ns[b].1) by {
        assert(ns[a].1 == es[a].1 && ns[b].1 == es[b].1);
    }
    assert forall|k: Seq<u8>| #[trigger] leaf_get(ns, k) == if k == key {
        Some(val)
    } else {
        leaf_get(es, k)
    } by {
        if k == key {
            lemma_leaf_get_at(ns, k, i);
        } else if exists|a: int| found_at(es, k, a) {
            let a = choose|a: int| found_at(es, k, a);
            lemma_leaf_get_at(es, k, a);
            assert(ns[a] == es[a]);
            lemma_leaf_get_at(ns, k, a);
        } else if exists|b: int| found_at(ns, k, b) {
            let b = choose|b: int| found_at(ns, k, b);
            assert(ns[b] == es[b]);
            assert(found_at(es, k, b));
        }
    }
}

/// Under a valid node, the pages of two runs of its entries do not meet.
pub proof fn lemma_runs_disjoint(p: Pages, es: Seq<Entry>, h: nat, hi: Option<Seq<u8>>, m: int)
    requires
        list_ok(p, es, h, hi),
        0 <= m <= es.len(),
    ensures
        list_pages(p, es.subrange(0, m), h).disjoint(list_pages(p, es.subrange(m, es.len() as int), h)),
{
    reveal(list_ok);    let a = es.subrange(0, m);
    let b = es.subrange(m, es.len() as int);
    lemma_list_pages(p, a, h);
    lemma_list_pages(p, b, h);
    assert forall|q: u64| #[trigger] list_pages(p, a, h).contains(q) implies !list_pages(p, b, h).contains(q) by {
        let i = choose|i: int| 0 <= i < a.len() && #[trigger] pages_of(p, a[i].0, (h - 1) as nat).contains(q);
        if list_pages(p, b, h).contains(q) {
            let j = choose|j: int| 0 <= j < b.len() && #[trigger] pages_of(p, b[j].0, (h - 1) as nat).contains(q);
            assert(a[i] == es[i]);
            assert(b[j] == es[m + j]);
            assert(pages_of(p, es[i].0, (h - 1) as nat).disjoint(pages_of(p, es[m + j].0, (h - 1) as nat)));
        }
    }
}

/// The entries of `kids`, back to back.
pub open spec fn concat_entries(kids: Seq<Seq<u8>>) -> Seq<Entry>
    decreases kids.len(),
{
    if kids.len() == 0 {
        Seq::empty()
    } else {
        concat_entries(kids.drop_last()) + spec_entries(kids.last())
    }
}

/// The separator entries pointing at `kids`, stored under `ptrs`.
pub open spec fn kid_entries(kids: Seq<Seq<u8>>, ptrs: Seq<u64>) -> Seq<Entry> {
    Seq::new(kids.len(), |j: int| (ptrs[j], spec_entries(kids[j])[0].1, Seq::<u8>::empty()))
}

/// Each kid is a complete, non-empty node of height `hc` that fits a
/// page.
pub open spec fn kids_ok(kids: Seq<Seq<u8>>, hc: nat) -> bool {
    forall|j: int|
        0 <= j < kids.len() ==> {
            &&& node_wf(#[trigger] kids[j])
            &&& spec_btype(kids[j]) == type_at(hc)
            &&& spec_nbytes(kids[j]) <= page_size()
            &&& spec_entries(kids[j]).len() >= 1
        }
}

/// One new page heading a run of entries, as the single entry of a node
/// one level up.
pub proof fn lemma_one_kid(p1: Pages, p3: Pages, b: Seq<u8>, ptr: u64, hc: nat, hi: Option<Seq<u8>>)
    requires
        node_wf(b),
        spec_btype(b) == type_at(hc),
        spec_nbytes(b) <= page_size(),
        spec_entries(b).len() >= 1,
        list_ok(p1, spec_entries(b), hc, hi),
        p3.contains_key(ptr),
        p3[ptr] == b,
        !list_pages(p1, spec_entries(b), hc).contains(ptr),
        agree_on(p1, p3, list_pages(p1, spec_entries(b), hc)),
    ensures
        list_ok(p3, seq![(ptr, spec_entries(b)[0].1, Seq::<u8>::empty())], hc + 1, hi),
        list_pages(p3, seq![(ptr, spec_entries(b)[0].1, Seq::<u8>::empty())], hc + 1) == set![ptr].union(
            list_pages(p1, spec_entries(b), hc),
        ),
        forall|k: Seq<u8>|
            #[trigger] list_get(p3, seq![(ptr, spec_entries(b)[0].1, Seq::<u8>::empty())], hc + 1, k)
                == list_get(p1, spec_entries(b), hc, k),
{
    reveal(list_ok);    let es = spec_entries(b);
    let e: Entry = (ptr, es[0].1, Seq::<u8>::empty());
    let m = seq![e];
    lemma_list_frame(p1, p3, es, hc, hi);
    assert(sub_ok(p3, ptr, hc, es[0].1, hi));
    assert(m[0] == e);
    assert(below(es[0].1, hi));
    assert(list_ok(p3, m, hc + 1, hi));
    assert(m.drop_last() =~= Seq::<Entry>::empty());
    assert(list_pages(p3, m.drop_last(), hc + 1) =~= Set::<u64>::empty());
    assert(m.last() == e);
    assert(spec_entries(p3[ptr]) == es);
    assert(pages_of(p3, ptr, hc) == set![ptr].union(list_pages(p3, es, hc)));
    assert(list_pages(p3, m, hc + 1) == Set::<u64>::empty().union(pages_of(p3, ptr, hc)));
    assert(list_pages(p3, m, hc + 1) =~= set![ptr].union(list_pages(p1, es, hc)));
    assert forall|k: Seq<u8>| #[trigger] list_get(p3, m, hc + 1, k) == list_get(p1, es, hc, k) by {
        if lex_le(es[0].1, k) {
            crate::btree::model::lemma_slot(m, k);
            assert(sub_get(p3, ptr, hc, k) == list_get(p3, es, hc, k));
        } else if list_get(p1, es, hc, k) is Some {
            lemma_list_get_range(p1, es, hc, hi, k);
        }
    }
}

/// New pages heading consecutive runs of entries, as the entries of a
/// node one level up: a valid node with the same lookups, whose pages
/// are the runs' pages and the new ones.
pub proof fn lemma_kids(
    p1: Pages,
    p3: Pages,
    kids: Seq<Seq<u8>>,
    ptrs: Seq<u64>,
    hc: nat,
    hi: Option<Seq<u8>>,
)
    requires
        kids.len() >= 1,
        ptrs.len() == kids.len(),
        kids_ok(kids, hc),
        list_ok(p1, concat_entries(kids), hc, hi),
        forall|j: int| 0 <= j < kids.len() ==> p3.contains_key(#[trigger] ptrs[j]) && p3[ptrs[j]] == kids[j],
        forall|i: int, j: int| 0 <= i < j < kids.len() ==> #[trigger] ptrs[i] != #[trigger] ptrs[j],
        forall|j: int| 0 <= j < kids.len() ==> !list_pages(p1, concat_entries(kids), hc).contains(#[trigger] ptrs[j]),
        agree_on(p1, p3, list_pages(p1, concat_entries(kids), hc)),
    ensures
        list_ok(p3, kid_entries(kids, ptrs), hc + 1, hi),
        kid_entries(kids, ptrs)[0].1 == concat_entries(kids)[0].1,
        concat_entries(kids).len() >= 1,
        forall|q: u64| #[trigger]
            list_pages(p3, kid_entries(kids, ptrs), hc + 1).contains(q) ==> list_pages(p1, concat_entries(kids), hc).contains(q)
                || ptrs.contains(q),
        forall|k: Seq<u8>|
            #[trigger] list_get(p3, kid_entries(kids, ptrs), hc + 1, k) == list_get(p1, concat_entries(kids), hc, k),
    decreases kids.len(), 1nat,
{
    let n = kids.len() as int;
    let last = kids[n - 1];
    let el = spec_entries(last);
    let ke = concat_entries(kids);
    if n == 1 {
        assert(kids.drop_last() =~= Seq::<Seq<u8>>::empty());
        assert(concat_entries(kids.drop_last()) =~= Seq::<Entry>::empty());
        assert(kids.last() == last);
        assert(ke =~= el);
        assert(kid_entries(kids, ptrs) =~= seq![(ptrs[0], el[0].1, Seq::<u8>::empty())]);
        lemma_one_kid(p1, p3, last, ptrs[0], hc, hi);
        assert forall|q: u64| #[trigger]
            list_pages(p3, kid_entries(kids, ptrs), hc + 1).contains(q) implies list_pages(p1, ke, hc).contains(q)
                || ptrs.contains(q) by {
            if q == ptrs[0] {
                assert(ptrs.contains(q));
            }
        }
    } else {
        lemma_kids_step(p1, p3, kids, ptrs, hc, hi);
    }
}

/// The facts about the last kid and the ones before it that the
/// induction of `lemma_kids` uses.
proof fn lemma_kids_parts(p1: Pages, kids: Seq<Seq<u8>>, hc: nat, hi: Option<Seq<u8>>)
    requires
        kids.len() >= 2,
        kids_ok(kids, hc),
        list_ok(p1, concat_entries(kids), hc, hi),
    ensures
        kids_ok(kids.drop_last(), hc),
        concat_entries(kids.drop_last()).len() >= 1,
        concat_entries(kids) == concat_entries(kids.drop_last()) + spec_entries(kids.last()),
        concat_entries(kids)[0] == concat_entries(kids.drop_last())[0],
        list_ok(p1, concat_entries(kids.drop_last()), hc, Some(spec_entries(kids.last())[0].1)),
        list_ok(p1, spec_entries(kids.last()), hc, hi),
        list_pages(p1, concat_entries(kids.drop_last()), hc).disjoint(list_pages(p1, spec_entries(kids.last()), hc)),
        list_pages(p1, concat_entries(kids), hc) == list_pages(p1, concat_entries(kids.drop_last()), hc).union(
            list_pages(p1, spec_entries(kids.last()), hc),
        ),
        forall|k: Seq<u8>|
            #[trigger] list_get(p1, concat_entries(kids), hc, k) == if lex_lt(k, spec_entries(kids.last())[0].1) {
                list_get(p1, concat_entries(kids.drop_last()), hc, k)
            } else {
                list_get(p1, spec_entries(kids.last()), hc, k)
            },
{
    let n = kids.len() as int;
    let el = spec_entries(kids.last());
    let ke = concat_entries(kids);
    let kids2 = kids.drop_last();
    let ke2 = concat_entries(kids2);
    assert(kids_ok(kids2, hc)) by {
        assert forall|j: int| 0 <= j < kids2.len() implies {
            &&& node_wf(#[trigger] kids2[j])
            &&& spec_btype(kids2[j]) == type_at(hc)
            &&& spec_nbytes(kids2[j]) <= page_size()
            &&& spec_entries(kids2[j]).len() >= 1
        } by {
            assert(kids2[j] == kids[j]);
        }
    }
    assert(node_wf(kids[n - 1]) && spec_entries(kids[n - 1]).len() >= 1);
    lemma_concat_len(kids2, hc);
    let m = ke2.len() as int;
    assert(ke =~= ke2 + el);
    assert(ke.subrange(0, m) =~= ke2);
    assert(ke.subrange(m, ke.len() as int) =~= el);
    assert(ke[0] == ke2[0]);
    lemma_list_sub(p1, ke, hc, hi, 0, m);
    lemma_list_sub(p1, ke, hc, hi, m, ke.len() as int);
    assert(ke[m] == el[0]);
    lemma_runs_disjoint(p1, ke, hc, hi, m);
    lemma_list_concat(p1, ke2, el, hc, hi);
}

/// The induction step of `lemma_kids`.
#[verifier::rlimit(40)]
proof fn lemma_kids_step(
    p1: Pages,
    p3: Pages,
    kids: Seq<Seq<u8>>,
    ptrs: Seq<u64>,
    hc: nat,
    hi: Option<Seq<u8>>,
)
    requires
        kids.len() >= 2,
        ptrs.len() == kids.len(),
        kids_ok(kids, hc),
        list_ok(p1, concat_entries(kids), hc, hi),
        forall|j: int| 0 <= j < kids.len() ==> p3.contains_key(#[trigger] ptrs[j]) && p3[ptrs[j]] == kids[j],
        forall|i: int, j: int| 0 <= i < j < kids.len() ==> #[trigger] ptrs[i] != #[trigger] ptrs[j],
        forall|j: int| 0 <= j < kids.len() ==> !list_pages(p1, concat_entries(kids), hc).contains(#[trigger] ptrs[j]),
        agree_on(p1, p3, list_pages(p1, concat_entries(kids), hc)),
    ensures
        list_ok(p3, kid_entries(kids, ptrs), hc + 1, hi),
        kid_entries(kids, ptrs)[0].1 == concat_entries(kids)[0].1,
        concat_entries(kids).len() >= 1,
        forall|q: u64| #[trigger]
            list_pages(p3, kid_entries(kids, ptrs), hc + 1).contains(q) ==> list_pages(p1, concat_entries(kids), hc).contains(q)
                || ptrs.contains(q),
        forall|k: Seq<u8>|
            #[trigger] list_get(p3, kid_entries(kids, ptrs), hc + 1, k) == list_get(p1, concat_entries(kids), hc, k),
    decreases kids.len(), 0nat,
{
    let n = kids.len() as int;
    let last = kids[n - 1];
    let el = spec_entries(last);
    let ke = concat_entries(kids);
    let kids2 = kids.drop_last();
    let ptrs2 = ptrs.drop_last();
    let ke2 = concat_entries(kids2);
    lemma_kids_parts(p1, kids, hc, hi);
    assert(kids.last() == last);
    let hi2 = Some(el[0].1);
    assert forall|j: int| 0 <= j < kids2.len() implies p3.contains_key(#[trigger] ptrs2[j]) && p3[ptrs2[j]] == kids2[j] by {
        assert(ptrs2[j] == ptrs[j] && kids2[j] == kids[j]);
    }
    assert forall|i: int, j: int| 0 <= i < j < kids2.len() implies #[trigger] ptrs2[i] != #[trigger] ptrs2[j] by {
        assert(ptrs2[i] == ptrs[i] && ptrs2[j] == ptrs[j]);
    }
    assert forall|j: int| 0 <= j < kids2.len() implies !list_pages(p1, ke2, hc).contains(#[trigger] ptrs2[j]) by {
        assert(ptrs2[j] == ptrs[j]);
        assert(!list_pages(p1, ke, hc).contains(ptrs[j]));
    }
    assert(agree_on(p1, p3, list_pages(p1, ke2, hc))) by {
        assert forall|q: u64| #[trigger] list_pages(p1, ke2, hc).contains(q) implies p1.contains_key(q)
            == p3.contains_key(q) && p1[q] == p3[q] by {
            assert(list_pages(p1, ke, hc).contains(q));
        }
    }
    lemma_kids(p1, p3, kids2, ptrs2, hc, hi2);
    assert(agree_on(p1, p3, list_pages(p1, el, hc))) by {
        assert forall|q: u64| #[trigger] list_pages(p1, el, hc).contains(q) implies p1.contains_key(q)
            == p3.contains_key(q) && p1[q] == p3[q] by {
            assert(list_pages(p1, ke, hc).contains(q));
        }
    }
    assert(p3.contains_key(ptrs[n - 1]) && p3[ptrs[n - 1]] == last);
    assert(!list_pages(p1, ke, hc).contains(ptrs[n - 1]));
    lemma_one_kid(p1, p3, last, ptrs[n - 1], hc, hi);
    let m2 = kid_entries(kids2, ptrs2);
    let one = seq![(ptrs[n - 1], el[0].1, Seq::<u8>::empty())];
    assert(kid_entries(kids, ptrs) =~= m2 + one);
    assert(one[0].1 == el[0].1);
    assert(list_pages(p3, m2, hc + 1).disjoint(list_pages(p3, one, hc + 1))) by {
        assert forall|q: u64| #[trigger] list_pages(p3, m2, hc + 1).contains(q) implies !list_pages(
            p3,
            one,
            hc + 1,
        ).contains(q) by {
            if list_pages(p3, one, hc + 1).contains(q) {
                if q == ptrs[n - 1] {
                    if ptrs2.contains(q) {
                        let j = choose|j: int| 0 <= j < ptrs2.len() && ptrs2[j] == q;
                        assert(ptrs[j] == ptrs2[j]);
                    } else {
                        assert(list_pages(p1, ke, hc).contains(q));
                    }
                } else {
                    assert(list_pages(p1, el, hc).contains(q));
                    if ptrs2.contains(q) {
                        let j = choose|j: int| 0 <= j < ptrs2.len() && ptrs2[j] == q;
                        assert(ptrs[j] == ptrs2[j]);
                        assert(list_pages(p1, ke, hc).contains(q));
                    } else {
                        assert(list_pages(p1, ke2, hc).contains(q));
                    }
                }
            }
        }
    }
    lemma_list_concat(p3, m2, one, hc + 1, hi);
    assert(kid_entries(kids, ptrs)[0] == m2[0]);
    assert forall|q: u64| #[trigger]
        list_pages(p3, kid_entries(kids, ptrs), hc + 1).contains(q) implies list_pages(p1, ke, hc).contains(q)
            || ptrs.contains(q) by {
        if list_pages(p3, m2, hc + 1).contains(q) {
            if ptrs2.contains(q) {
                let j = choose|j: int| 0 <= j < ptrs2.len() && ptrs2[j] == q;
                assert(ptrs[j] == ptrs2[j]);
            }
        } else if q == ptrs[n - 1] {
            assert(ptrs[n - 1] == q);
        }
    }
    assert forall|k: Seq<u8>| #[trigger]
        list_get(p3, kid_entries(kids, ptrs), hc + 1, k) == list_get(p1, ke, hc, k) by {
        assert(list_get(p3, m2 + one, hc + 1, k) == list_get(p3, kid_entries(kids, ptrs), hc + 1, k));
        assert(list_get(p1, ke, hc, k) == if lex_lt(k, el[0].1) {
            list_get(p1, ke2, hc, k)
        } else {
            list_get(p1, el, hc, k)
        });
    }
}

/// Runs of non-empty nodes are not empty.
proof fn lemma_concat_len(kids: Seq<Seq<u8>>, hc: nat)
    requires
        kids.len() >= 1,
        kids_ok(kids, hc),
    ensures
        concat_entries(kids).len() >= 1,
        concat_entries(kids)[0] == spec_entries(kids[0])[0],
    decreases kids.len(),
{
    let k2 = kids.drop_last();
    assert(spec_entries(kids[kids.len() - 1]).len() >= 1);
    if kids.len() > 1 {
        assert(kids_ok(k2, hc)) by {
            assert forall|j: int| 0 <= j < k2.len() implies {
                &&& node_wf(#[trigger] k2[j])
                &&& spec_btype(k2[j]) == type_at(hc)
                &&& spec_nbytes(k2[j]) <= page_size()
                &&& spec_entries(k2[j]).len() >= 1
            } by {
                assert(k2[j] == kids[j]);
            }
        }
        lemma_concat_len(k2, hc);
        assert(k2[0] == kids[0]);
    } else {
        assert(k2 =~= Seq::<Seq<u8>>::empty());
        assert(concat_entries(k2) =~= Seq::<Entry>::empty());
        assert(kids.last() == kids[0]);
        assert(concat_entries(kids) =~= spec_entries(kids[0]));
    }
}

/// The pages below a run of a valid node's entries are in the store.
pub proof fn lemma_list_pages_in_store(p: Pages, es: Seq<Entry>, h: nat, hi: Option<Seq<u8>>)
    requires
        list_ok(p, es, h, hi),
    ensures
        forall|q: u64| #[trigger] list_pages(p, es, h).contains(q) ==> p.contains_key(q),
{
    reveal(list_ok);    lemma_list_pages(p, es, h);
    assert forall|q: u64| #[trigger] list_pages(p, es, h).contains(q) implies p.contains_key(q) by {
        let i = choose|i: int| 0 <= i < es.len() && #[trigger] pages_of(p, es[i].0, (h - 1) as nat).contains(q);
        crate::btree::model::lemma_pages_in_store(p, es[i].0, (h - 1) as nat, es[i].1, next_bound(es, i, hi));
    }
}

/// The left and right runs around `[x, y)`, valid on the new store.
proof fn lemma_splice_sides(
    p: Pages,
    p3: Pages,
    es: Seq<Entry>,
    h: nat,
    hi: Option<Seq<u8>>,
    x: int,
    y: int,
    first: Seq<u8>,
)
    requires
        h >= 1,
        list_ok(p, es, h, hi),
        0 <= x < y <= es.len(),
        lex_le(es[x].1, first),
        agree_on(p, p3, list_pages(p, es.subrange(0, x), h)),
        agree_on(p, p3, list_pages(p, es.subrange(y, es.len() as int), h)),
    ensures
        list_ok(p3, es.subrange(0, x), h, Some(first)),
        list_ok(p3, es.subrange(0, x), h, Some(es[x].1)),
        list_ok(p3, es.subrange(y, es.len() as int), h, hi),
        list_pages(p3, es.subrange(0, x), h) == list_pages(p, es.subrange(0, x), h),
        list_pages(p3, es.subrange(y, es.len() as int), h) == list_pages(p, es.subrange(y, es.len() as int), h),
        forall|k: Seq<u8>|
            lex_lt(k, es[x].1) ==> #[trigger] list_get(p3, es.subrange(0, x), h, k) == list_get(p, es, h, k),
        forall|k: Seq<u8>|
            !below(k, next_bound(es, y - 1, hi)) ==> #[trigger] list_get(p3, es.subrange(y, es.len() as int), h, k)
                == list_get(p, es, h, k),
{
    lemma_lex_order();
    let a = es.subrange(0, x);
    let c = es.subrange(y, es.len() as int);
    if x > 0 {
        lemma_list_sub(p, es, h, hi, 0, x);
        assert(next_bound(es, x - 1, hi) == Some(es[x].1));
        lemma_list_frame(p, p3, a, h, Some(es[x].1));
        crate::btree::model::lemma_list_weaken(p3, a, h, Some(es[x].1), Some(first));
        assert(list_ok(p3, a, h, Some(es[x].1)));
        assert forall|k: Seq<u8>| lex_lt(k, es[x].1) implies #[trigger] list_get(p3, a, h, k) == list_get(p, es, h, k) by {
            if lex_le(es[0].1, k) {
                assert(a[0] == es[0]);
                assert(list_get(p, a, h, k) == list_get(p, es, h, k));
            } else {
                assert(a[0] == es[0]);
            }
        }
    } else {
        assert(a =~= Seq::<Entry>::empty());
        lemma_list_empty(p3, h, Some(first));
        lemma_list_empty(p3, h, Some(es[x].1));
        lemma_list_empty(p, h, Some(first));
    }
    if y < es.len() {
        lemma_list_sub(p, es, h, hi, y, es.len() as int);
        lemma_list_frame(p, p3, c, h, hi);
        assert forall|k: Seq<u8>| !below(k, next_bound(es, y - 1, hi)) implies #[trigger] list_get(p3, c, h, k)
            == list_get(p, es, h, k) by {
            assert(next_bound(es, y - 1, hi) == Some(es[y].1));
            crate::page::keys::lemma_lex_total(k, es[y].1);
            assert(lex_le(es[y].1, k));
            assert(list_get(p3, c, h, k) == list_get(p, c, h, k));
            if !below(k, hi) {
                if list_get(p, es, h, k) is Some {
                    lemma_list_get_range(p, es, h, hi, k);
                }
                if list_get(p, c, h, k) is Some {
                    lemma_list_get_range(p, c, h, hi, k);
                }
            } else {
                assert(next_bound(es, es.len() - 1, hi) == hi);
            }
        }
    } else {
        assert(c =~= Seq::<Entry>::empty());
        lemma_list_empty(p3, h, hi);
        lemma_list_empty(p, h, hi);
        assert forall|k: Seq<u8>| !below(k, next_bound(es, y - 1, hi)) implies #[trigger] list_get(p3, c, h, k)
            == list_get(p, es, h, k) by {
            if list_get(p, es, h, k) is Some {
                lemma_list_get_range(p, es, h, hi, k);
            }
        }
    }
}

/// Entries `[x, y)` of a node replaced by the run `m` that covers their
/// key range: the node stays valid, and holds what `m` holds in that
/// range and what it held elsewhere.
#[verifier::rlimit(40)]
pub proof fn lemma_splice(
    p: Pages,
    p3: Pages,
    es: Seq<Entry>,
    h: nat,
    hi: Option<Seq<u8>>,
    x: int,
    y: int,
    m: Seq<Entry>,
)
    requires
        h >= 1,
        list_ok(p, es, h, hi),
        0 <= x < y <= es.len(),
        m.len() >= 1,
        list_ok(p3, m, h, next_bound(es, y - 1, hi)),
        lex_le(es[x].1, m[0].1),
        forall|q: u64| #[trigger]
            list_pages(p3, m, h).contains(q) ==> list_pages(p, es.subrange(x, y), h).contains(q) || !p.contains_key(q),
        agree_on(p, p3, list_pages(p, es.subrange(0, x), h)),
        agree_on(p, p3, list_pages(p, es.subrange(y, es.len() as int), h)),
    ensures
        list_ok(p3, es.subrange(0, x) + m + es.subrange(y, es.len() as int), h, hi),
        (es.subrange(0, x) + m + es.subrange(y, es.len() as int))[0].1 == if x > 0 {
            es[0].1
        } else {
            m[0].1
        },
        forall|q: u64| #[trigger]
            list_pages(p3, es.subrange(0, x) + m + es.subrange(y, es.len() as int), h).contains(q)
                ==> list_pages(p, es, h).contains(q) || !p.contains_key(q),
        forall|k: Seq<u8>|
            #[trigger] list_get(p3, es.subrange(0, x) + m + es.subrange(y, es.len() as int), h, k) == if lex_le(
                es[x].1,
                k,
            ) && below(k, next_bound(es, y - 1, hi)) {
                list_get(p3, m, h, k)
            } else {
                list_get(p, es, h, k)
            },
{
    lemma_lex_order();
    let a = es.subrange(0, x);
    let b = es.subrange(x, y);
    let c = es.subrange(y, es.len() as int);
    let n = es.len() as int;
    let hm = next_bound(es, y - 1, hi);
    lemma_splice_sides(p, p3, es, h, hi, x, y, m[0].1);
    lemma_list_pages_in_store(p, es, h, hi);
    lemma_runs3(p, es, h, hi, x, y);
    // a and m
    assert(list_pages(p3, a, h).disjoint(list_pages(p3, m, h))) by {
        assert forall|q: u64| #[trigger] list_pages(p3, a, h).contains(q) implies !list_pages(p3, m, h).contains(q) by {
            assert(list_pages(p, a, h).contains(q));
            assert(list_pages(p, es, h).contains(q));
        }
    }
    lemma_list_concat(p3, a, m, h, hm);
    let am = a + m;
    if y < n {
        assert(hm == Some(c[0].1));
        assert(list_pages(p3, am, h).disjoint(list_pages(p3, c, h))) by {
            assert forall|q: u64| #[trigger] list_pages(p3, am, h).contains(q) implies !list_pages(p3, c, h).contains(q) by {
                if list_pages(p3, c, h).contains(q) {
                    assert(list_pages(p, c, h).contains(q));
                    assert(list_pages(p, es, h).contains(q));
                }
            }
        }
        lemma_list_concat(p3, am, c, h, hi);
    } else {
        assert(c =~= Seq::<Entry>::empty());
        assert(am + c =~= am);
    }
    let nn = am + c;
    assert(nn == es.subrange(0, x) + m + es.subrange(y, es.len() as int));
    if x > 0 {
        assert(nn[0] == es[0]);
    } else {
        assert(nn[0] == m[0]);
    }
    assert forall|q: u64| #[trigger] list_pages(p3, nn, h).contains(q) implies list_pages(p, es, h).contains(q)
        || !p.contains_key(q) by {
        if list_pages(p3, m, h).contains(q) && p.contains_key(q) {
            assert(list_pages(p, b, h).contains(q));
        }
    }
    assert forall|k: Seq<u8>| #[trigger] list_get(p3, nn, h, k) == if lex_le(es[x].1, k) && below(k, hm) {
        list_get(p3, m, h, k)
    } else {
        list_get(p, es, h, k)
    } by {
        lemma_splice_get(p, p3, es, h, hi, x, y, m, k);
    }
}

/// Lookups in a node whose entries `[x, y)` were replaced by `m`.
proof fn lemma_splice_get(
    p: Pages,
    p3: Pages,
    es: Seq<Entry>,
    h: nat,
    hi: Option<Seq<u8>>,
    x: int,
    y: int,
    m: Seq<Entry>,
    k: Seq<u8>,
)
    requires
        h >= 1,
        list_ok(p, es, h, hi),
        0 <= x < y <= es.len(),
        m.len() >= 1,
        list_ok(p3, m, h, next_bound(es, y - 1, hi)),
        lex_le(es[x].1, m[0].1),
        list_ok(p3, es.subrange(0, x), h, Some(es[x].1)),
        list_ok(p3, es.subrange(y, es.len() as int), h, hi),
        forall|k: Seq<u8>|
            lex_lt(k, es[x].1) ==> #[trigger] list_get(p3, es.subrange(0, x), h, k) == list_get(p, es, h, k),
        forall|k: Seq<u8>|
            !below(k, next_bound(es, y - 1, hi)) ==> #[trigger] list_get(p3, es.subrange(y, es.len() as int), h, k)
                == list_get(p, es, h, k),
        forall|k: Seq<u8>|
            #[trigger] list_get(p3, es.subrange(0, x) + m, h, k) == if lex_lt(k, m[0].1) {
                if x > 0 {
                    list_get(p3, es.subrange(0, x), h, k)
                } else {
                    None
                }
            } else {
                list_get(p3, m, h, k)
            },
        y < es.len() ==> forall|k: Seq<u8>|
            #[trigger] list_get(p3, es.subrange(0, x) + m + es.subrange(y, es.len() as int), h, k) == if lex_lt(
                k,
                es[y].1,
            ) {
                list_get(p3, es.subrange(0, x) + m, h, k)
            } else {
                list_get(p3, es.subrange(y, es.len() as int), h, k)
            },
    ensures
        list_get(p3, es.subrange(0, x) + m + es.subrange(y, es.len() as int), h, k) == if lex_le(es[x].1, k)
            && below(k, next_bound(es, y - 1, hi)) {
            list_get(p3, m, h, k)
        } else {
            list_get(p, es, h, k)
        },
{
    lemma_lex_order();
    let a = es.subrange(0, x);
    let c = es.subrange(y, es.len() as int);
    let n = es.len() as int;
    let hm = next_bound(es, y - 1, hi);
    let am = a + m;
    if y == n {
        assert(c =~= Seq::<Entry>::empty());
        assert(am + c =~= am);
        assert(hm == hi);
    } else {
        assert(hm == Some(es[y].1));
    }
    if !below(k, hm) {
        if y == n {
            if list_get(p3, m, h, k) is Some {
                lemma_list_get_range(p3, m, h, hm, k);
            }
            if list_get(p, es, h, k) is Some {
                lemma_list_get_range(p, es, h, hi, k);
            }
            if lex_lt(k, m[0].1) {
                lemma_list_ok_facts(p3, m, h, hm);
                assert(below(m[0].1, hm));
            }
        }
    } else {
        if lex_le(es[x].1, k) {
            if lex_lt(k, m[0].1) {
                if list_get(p3, m, h, k) is Some {
                    lemma_list_get_range(p3, m, h, hm, k);
                }
                if x > 0 && list_get(p3, a, h, k) is Some {
                    lemma_list_get_range(p3, a, h, Some(es[x].1), k);
                }
            }
        } else {
            if x == 0 {
                if list_get(p, es, h, k) is Some {
                    lemma_list_get_range(p, es, h, hi, k);
                }
            }
        }
    }
}

/// Three consecutive runs of a valid node's entries have disjoint pages,
/// each among the node's.
pub proof fn lemma_runs3(p: Pages, es: Seq<Entry>, h: nat, hi: Option<Seq<u8>>, x: int, y: int)
    requires
        list_ok(p, es, h, hi),
        0 <= x <= y <= es.len(),
    ensures
        list_pages(p, es.subrange(0, x), h).disjoint(list_pages(p, es.subrange(x, y), h)),
        list_pages(p, es.subrange(0, x), h).disjoint(list_pages(p, es.subrange(y, es.len() as int), h)),
        list_pages(p, es.subrange(x, y), h).disjoint(list_pages(p, es.subrange(y, es.len() as int), h)),
        forall|q: u64| #[trigger] list_pages(p, es.subrange(0, x), h).contains(q) ==> list_pages(p, es, h).contains(q),
        forall|q: u64| #[trigger] list_pages(p, es.subrange(x, y), h).contains(q) ==> list_pages(p, es, h).contains(q),
        forall|q: u64| #[trigger] list_pages(p, es.subrange(y, es.len() as int), h).contains(q) ==> list_pages(p, es, h).contains(q),
{
    let n = es.len() as int;
    lemma_run_pages(p, es, h, hi, 0, x);
    lemma_run_pages(p, es, h, hi, x, y);
    lemma_run_pages(p, es, h, hi, y, n);
    let a = es.subrange(0, x);
    let b = es.subrange(x, y);
    let c = es.subrange(y, n);
    assert forall|q: u64| #[trigger] list_pages(p, a, h).contains(q) implies !list_pages(p, b, h).contains(q)
        && !list_pages(p, c, h).contains(q) by {
        let j = choose|j: int| 0 <= j < x && #[trigger] pages_of(p, es[j].0, (h - 1) as nat).contains(q);
        assert(pages_of(p, es[j].0, (h - 1) as nat).contains(q));
    }
    assert forall|q: u64| #[trigger] list_pages(p, b, h).contains(q) implies !list_pages(p, c, h).contains(q) by {
        let j = choose|j: int| x <= j < y && #[trigger] pages_of(p, es[j].0, (h - 1) as nat).contains(q);
        assert(pages_of(p, es[j].0, (h - 1) as nat).contains(q));
    }
}

/// Every page below a run of a valid node's entries lies under one of
/// the run's entries, and not under any other entry of the node.
proof fn lemma_run_pages(p: Pages, es: Seq<Entry>, h: nat, hi: Option<Seq<u8>>, x: int, y: int)
    requires
        list_ok(p, es, h, hi),
        0 <= x <= y <= es.len(),
    ensures
        forall|q: u64| #[trigger] list_pages(p, es.subrange(x, y), h).contains(q) ==> list_pages(p, es, h).contains(q),
        forall|q: u64| #[trigger]
            list_pages(p, es.subrange(x, y), h).contains(q) ==> exists|j: int|
                x <= j < y && #[trigger] pages_of(p, es[j].0, (h - 1) as nat).contains(q),
        forall|q: u64, j: int|
            #[trigger] list_pages(p, es.subrange(x, y), h).contains(q) && 0 <= j < es.len() && !(x <= j < y)
                ==> !#[trigger] pages_of(p, es[j].0, (h - 1) as nat).contains(q),
{
    lemma_list_ok_facts(p, es, h, hi);
    let sub = es.subrange(x, y);
    lemma_list_pages(p, sub, h);
    lemma_list_pages(p, es, h);
    assert forall|q: u64| #[trigger] list_pages(p, sub, h).contains(q) implies list_pages(p, es, h).contains(q)
        && exists|j: int| x <= j < y && #[trigger] pages_of(p, es[j].0, (h - 1) as nat).contains(q) by {
        let i = choose|i: int| 0 <= i < sub.len() && #[trigger] pages_of(p, sub[i].0, (h - 1) as nat).contains(q);
        assert(sub[i] == es[x + i]);
        assert(pages_of(p, es[x + i].0, (h - 1) as nat).contains(q));
    }
    assert forall|q: u64, j: int|
        #[trigger] list_pages(p, sub, h).contains(q) && 0 <= j < es.len() && !(x <= j < y) implies !#[trigger] pages_of(
        p,
        es[j].0,
        (h - 1) as nat,
    ).contains(q) by {
        let i = choose|i: int| 0 <= i < sub.len() && #[trigger] pages_of(p, sub[i].0, (h - 1) as nat).contains(q);
        assert(sub[i] == es[x + i]);
        if j < x + i {
            assert(pages_of(p, es[j].0, (h - 1) as nat).disjoint(pages_of(p, es[x + i].0, (h - 1) as nat)));
        } else {
            assert(pages_of(p, es[x + i].0, (h - 1) as nat).disjoint(pages_of(p, es[j].0, (h - 1) as nat)));
        }
    }
}

} // verus!
