//! How a node's shape and contents change when it is rebuilt: a leaf
//! takes an entry or splits, an internal node takes a new child or a
//! split child, splits itself, or a new root is put on top.
use vstd::prelude::*;

use crate::io::PageId;
use crate::page::internal::{covers, keys_fit_u16, keys_size, keys_sorted};
use crate::page::keys::{lemma_lex_irreflexive, lemma_lex_order, lex_le, lex_lt};
use crate::page::leaf::{belongs_at, entries_sorted, found_at, LeafEntry};
use crate::page::{spec_max_kv_size, PageView};
use crate::storage::model::{
    above, agree_on, below, child_hi, child_lo, child_slot, keys_ok, leaf_lookup, lemma_child_slot,
    lemma_subtree_frame, lemma_view_pages_internal, pages_of, shape_ok, strictly_above, subtree_ok,
    tree_get, view_get, view_nbytes, view_ok, view_pages, Disk,
};

verus! {

/// In a sorted leaf a key is stored at most once, so a hit names the value.
pub proof fn lemma_leaf_lookup_at(m: Seq<LeafEntry>, k: Seq<u8>, i: int)
    requires
        entries_sorted(m),
        found_at(m, k, i),
    ensures
        leaf_lookup(m, k) == Some(m[i].1),
{
    let j = choose|j: int| found_at(m, k, j);
    lemma_lex_irreflexive(k);
    if j < i {
        assert(lex_lt(m[j].0, m[i].0));
    } else if i < j {
        assert(lex_lt(m[i].0, m[j].0));
    }
}

/// Inserting `(key, val)` where it belongs keeps the leaf inside its
/// bounds and changes the lookup of `key` alone.
pub proof fn lemma_leaf_insert(
    m: Seq<LeafEntry>,
    idx: int,
    key: Seq<u8>,
    val: Seq<u8>,
    lo: Option<Seq<u8>>,
    hi: Option<Seq<u8>>,
    ps: nat,
)
    requires
        entries_sorted(m),
        belongs_at(m, key, idx),
        forall|i: int| 0 <= i < m.len() ==> above(#[trigger] m[i].0, lo) && below(m[i].0, hi),
        forall|i: int| 0 <= i < m.len() ==> (#[trigger] m[i]).0.len() + m[i].1.len() <= spec_max_kv_size(ps),
        above(key, lo),
        below(key, hi),
        key.len() + val.len() <= spec_max_kv_size(ps),
        entries_sorted(m.take(idx).push((key, val)) + m.skip(idx)),
    ensures
        ({
            let m2 = m.take(idx).push((key, val)) + m.skip(idx);
            &&& forall|i: int| 0 <= i < m2.len() ==> above(#[trigger] m2[i].0, lo) && below(m2[i].0, hi)
            &&& forall|i: int|
                0 <= i < m2.len() ==> (#[trigger] m2[i]).0.len() + m2[i].1.len() <= spec_max_kv_size(ps)
            &&& forall|k: Seq<u8>|
                leaf_lookup(m2, k) == if k == key {
                    Some(val)
                } else {
                    leaf_lookup(m, k)
                }
        }),
{
    let m2 = m.take(idx).push((key, val)) + m.skip(idx);
    assert forall|i: int| 0 <= i < m2.len() implies (i < idx ==> m2[i] == m[i]) && (i == idx ==> m2[i] == (
    key, val)) && (i > idx ==> m2[i] == m[i - 1]) by {}
    assert forall|i: int| 0 <= i < m2.len() implies above(#[trigger] m2[i].0, lo) && below(m2[i].0, hi) by {
        if i > idx {
            assert(m2[i] == m[i - 1]);
        }
    }
    assert forall|i: int|
        0 <= i < m2.len() implies (#[trigger] m2[i]).0.len() + m2[i].1.len() <= spec_max_kv_size(ps) by {
        if i > idx {
            assert(m2[i] == m[i - 1]);
        }
    }
    assert forall|k: Seq<u8>| leaf_lookup(m2, k) == if k == key {
        Some(val)
    } else {
        leaf_lookup(m, k)
    } by {
        if k == key {
            assert(found_at(m2, k, idx));
            lemma_leaf_lookup_at(m2, k, idx);
        } else if exists|j: int| found_at(m, k, j) {
            let j = choose|j: int| found_at(m, k, j);
            lemma_leaf_lookup_at(m, k, j);
            let j2 = if j < idx {
                j
            } else {
                j + 1
            };
            assert(m2[j2] == m[j]);
            assert(found_at(m2, k, j2));
            lemma_leaf_lookup_at(m2, k, j2);
        } else {
            assert forall|j: int| !found_at(m2, k, j) by {
                if found_at(m2, k, j) {
                    if j < idx {
                        assert(found_at(m, k, j));
                    } else if j > idx {
                        assert(m2[j] == m[j - 1]);
                        assert(found_at(m, k, j - 1));
                    }
                }
            }
        }
    }
}

/// Replacing the entry stored under `key` keeps the leaf inside its
/// bounds and changes the lookup of `key` alone.
pub proof fn lemma_leaf_update(
    m: Seq<LeafEntry>,
    idx: int,
    key: Seq<u8>,
    val: Seq<u8>,
    lo: Option<Seq<u8>>,
    hi: Option<Seq<u8>>,
    ps: nat,
)
    requires
        entries_sorted(m),
        found_at(m, key, idx),
        forall|i: int| 0 <= i < m.len() ==> above(#[trigger] m[i].0, lo) && below(m[i].0, hi),
        forall|i: int| 0 <= i < m.len() ==> (#[trigger] m[i]).0.len() + m[i].1.len() <= spec_max_kv_size(ps),
        key.len() + val.len() <= spec_max_kv_size(ps),
        entries_sorted(m.update(idx, (key, val))),
    ensures
        ({
            let m2 = m.update(idx, (key, val));
            &&& forall|i: int| 0 <= i < m2.len() ==> above(#[trigger] m2[i].0, lo) && below(m2[i].0, hi)
            &&& forall|i: int|
                0 <= i < m2.len() ==> (#[trigger] m2[i]).0.len() + m2[i].1.len() <= spec_max_kv_size(ps)
            &&& forall|k: Seq<u8>|
                leaf_lookup(m2, k) == if k == key {
                    Some(val)
                } else {
                    leaf_lookup(m, k)
                }
        }),
{
    let m2 = m.update(idx, (key, val));
    assert forall|i: int| 0 <= i < m2.len() implies above(#[trigger] m2[i].0, lo) && below(m2[i].0, hi) by {
        assert(m2[i].0 == m[i].0);
    }
    assert forall|k: Seq<u8>| leaf_lookup(m2, k) == if k == key {
        Some(val)
    } else {
        leaf_lookup(m, k)
    } by {
        if k == key {
            assert(found_at(m2, k, idx));
            lemma_leaf_lookup_at(m2, k, idx);
        } else if exists|j: int| found_at(m, k, j) {
            let j = choose|j: int| found_at(m, k, j);
            lemma_leaf_lookup_at(m, k, j);
            assert(found_at(m2, k, j));
            lemma_leaf_lookup_at(m2, k, j);
        } else {
            assert forall|j: int| !found_at(m2, k, j) by {
                if found_at(m2, k, j) {
                    assert(found_at(m, k, j));
                }
            }
        }
    }
}

/// Splitting a leaf's entries into two runs: the right run's first key
/// separates them, each run stays inside its half of the bounds, and
/// each answers the lookups of its half.
pub proof fn lemma_leaf_split(
    m: Seq<LeafEntry>,
    l: Seq<LeafEntry>,
    r: Seq<LeafEntry>,
    lo: Option<Seq<u8>>,
    hi: Option<Seq<u8>>,
)
    requires
        entries_sorted(m),
        l + r == m,
        l.len() >= 1,
        r.len() >= 1,
        forall|i: int| 0 <= i < m.len() ==> above(#[trigger] m[i].0, lo) && below(m[i].0, hi),
    ensures
        entries_sorted(l),
        entries_sorted(r),
        forall|i: int| 0 <= i < l.len() ==> above(#[trigger] l[i].0, lo) && below(l[i].0, Some(r[0].0)),
        forall|i: int| 0 <= i < r.len() ==> above(#[trigger] r[i].0, Some(r[0].0)) && below(r[i].0, hi),
        strictly_above(r[0].0, lo),
        below(r[0].0, hi),
        forall|k: Seq<u8>| lex_lt(k, r[0].0) ==> leaf_lookup(l, k) == leaf_lookup(m, k),
        forall|k: Seq<u8>| lex_le(r[0].0, k) ==> leaf_lookup(r, k) == leaf_lookup(m, k),
{
    lemma_lex_order();
    let n = l.len() as int;
    let sep = r[0].0;
    assert(m[n] == r[0]);
    assert forall|i: int| 0 <= i < l.len() implies l[i] == m[i] by {}
    assert forall|i: int| 0 <= i < r.len() implies r[i] == m[n + i] by {}
    assert forall|i: int| 0 <= i < l.len() implies above(#[trigger] l[i].0, lo) && below(l[i].0, Some(sep)) by {
        assert(l[i] == m[i]);
        assert(lex_lt(m[i].0, m[n].0));
    }
    assert forall|i: int| 0 <= i < r.len() implies above(#[trigger] r[i].0, Some(sep)) && below(r[i].0, hi) by {
        assert(r[i] == m[n + i]);
        if i > 0 {
            assert(lex_lt(m[n].0, m[n + i].0));
        }
    }
    assert(above(m[0].0, lo));
    assert(lex_lt(m[0].0, m[n].0));
    assert forall|k: Seq<u8>| lex_lt(k, sep) implies leaf_lookup(l, k) == leaf_lookup(m, k) by {
        if exists|j: int| found_at(m, k, j) {
            let j = choose|j: int| found_at(m, k, j);
            if j >= n {
                if j > n {
                    assert(lex_lt(m[n].0, m[j].0));
                }
            }
            assert(found_at(l, k, j));
            lemma_leaf_lookup_at(m, k, j);
            lemma_leaf_lookup_at(l, k, j);
        } else {
            assert forall|j: int| !found_at(l, k, j) by {
                if found_at(l, k, j) {
                    assert(found_at(m, k, j));
                }
            }
        }
    }
    assert forall|k: Seq<u8>| lex_le(sep, k) implies leaf_lookup(r, k) == leaf_lookup(m, k) by {
        if exists|j: int| found_at(m, k, j) {
            let j = choose|j: int| found_at(m, k, j);
            if j < n {
                assert(lex_lt(m[j].0, m[n].0));
            }
            assert(found_at(r, k, j - n));
            lemma_leaf_lookup_at(m, k, j);
            lemma_leaf_lookup_at(r, k, j - n);
        } else {
            assert forall|j: int| !found_at(r, k, j) by {
                if found_at(r, k, j) {
                    assert(found_at(m, k, n + j));
                }
            }
        }
    }
}


/// Swapping one child of an internal node for another subtree over the
/// same key range. The other children are unchanged on the new disk.
pub proof fn lemma_replace_child(
    d1: Disk,
    d2: Disk,
    ks: Seq<Seq<u8>>,
    cs: Seq<PageId>,
    h: nat,
    lo: Option<Seq<u8>>,
    hi: Option<Seq<u8>>,
    ps: nat,
    i: int,
    c: PageId,
)
    requires
        shape_ok(d1, PageView::Internal(ks, cs), h, lo, hi, ps),
        0 <= i < cs.len(),
        forall|j: int|
            0 <= j < cs.len() && j != i ==> agree_on(d1, d2, pages_of(d1, #[trigger] cs[j], (h - 1) as nat)),
        subtree_ok(d2, c, (h - 1) as nat, child_lo(ks, lo, i), child_hi(ks, hi, i), ps),
        forall|j: int|
            0 <= j < cs.len() && j != i ==> pages_of(d2, c, (h - 1) as nat).disjoint(
                pages_of(d1, #[trigger] cs[j], (h - 1) as nat),
            ),
    ensures
        shape_ok(d2, PageView::Internal(ks, cs.update(i, c)), h, lo, hi, ps),
        forall|p: PageId| #[trigger]
            view_pages(d2, PageView::Internal(ks, cs.update(i, c)), h).contains(p) ==> pages_of(
                d2,
                c,
                (h - 1) as nat,
            ).contains(p) || (view_pages(d1, PageView::Internal(ks, cs), h).contains(p) && !pages_of(
                d1,
                cs[i],
                (h - 1) as nat,
            ).contains(p)),
        forall|k: Seq<u8>|
            view_get(d2, PageView::Internal(ks, cs.update(i, c)), h, k) == if child_slot(ks, k) == i {
                tree_get(d2, c, (h - 1) as nat, k)
            } else {
                view_get(d1, PageView::Internal(ks, cs), h, k)
            },
{
    let hc = (h - 1) as nat;
    let cs2 = cs.update(i, c);
    assert forall|j: int| 0 <= j < cs.len() && j != i implies subtree_ok(
        d2,
        #[trigger] cs[j],
        hc,
        child_lo(ks, lo, j),
        child_hi(ks, hi, j),
        ps,
    ) && pages_of(d2, cs[j], hc) == pages_of(d1, cs[j], hc) && (forall|k: Seq<u8>|
        tree_get(d2, cs[j], hc, k) == tree_get(d1, cs[j], hc, k)) by {
        assert(subtree_ok(d1, cs[j], hc, child_lo(ks, lo, j), child_hi(ks, hi, j), ps));
        lemma_subtree_frame(d1, d2, cs[j], hc, child_lo(ks, lo, j), child_hi(ks, hi, j), ps);
    }
    assert forall|j: int| 0 <= j < cs2.len() implies subtree_ok(
        d2,
        #[trigger] cs2[j],
        hc,
        child_lo(ks, lo, j),
        child_hi(ks, hi, j),
        ps,
    ) by {
        if j != i {
            assert(cs2[j] == cs[j]);
        }
    }
    assert forall|j1: int, j2: int| 0 <= j1 < j2 < cs2.len() implies pages_of(d2, #[trigger] cs2[j1], hc).disjoint(
        pages_of(d2, #[trigger] cs2[j2], hc),
    ) by {
        if j1 == i {
            assert(cs2[j2] == cs[j2]);
        } else if j2 == i {
            assert(cs2[j1] == cs[j1]);
            assert(pages_of(d2, c, hc).disjoint(pages_of(d1, cs[j1], hc)));
        } else {
            assert(cs2[j1] == cs[j1] && cs2[j2] == cs[j2]);
            assert(pages_of(d1, cs[j1], hc).disjoint(pages_of(d1, cs[j2], hc)));
        }
    }
    lemma_view_pages_internal(d1, ks, cs, h);
    lemma_view_pages_internal(d2, ks, cs2, h);
    assert forall|p: PageId| #[trigger]
        view_pages(d2, PageView::Internal(ks, cs2), h).contains(p) implies pages_of(d2, c, hc).contains(p)
        || (view_pages(d1, PageView::Internal(ks, cs), h).contains(p) && !pages_of(d1, cs[i], hc).contains(
        p,
    )) by {
        let j = choose|j: int| 0 <= j < cs2.len() && #[trigger] pages_of(d2, cs2[j], hc).contains(p);
        if j != i {
            assert(cs2[j] == cs[j]);
            assert(pages_of(d1, cs[j], hc).contains(p));
            if j < i {
                assert(pages_of(d1, cs[j], hc).disjoint(pages_of(d1, cs[i], hc)));
            } else {
                assert(pages_of(d1, cs[i], hc).disjoint(pages_of(d1, cs[j], hc)));
            }
        }
    }
    assert forall|k: Seq<u8>| view_get(d2, PageView::Internal(ks, cs2), h, k) == if child_slot(ks, k) == i {
        tree_get(d2, c, hc, k)
    } else {
        view_get(d1, PageView::Internal(ks, cs), h, k)
    } by {
        lemma_child_slot(ks, k);
        let sl = child_slot(ks, k);
        assert(h > 1);
        assert(view_get(d2, PageView::Internal(ks, cs2), h, k) == tree_get(d2, cs2[sl], hc, k));
        assert(view_get(d1, PageView::Internal(ks, cs), h, k) == tree_get(d1, cs[sl], hc, k));
        if sl != i {
            assert(cs2[sl] == cs[sl]);
            assert(subtree_ok(d1, cs[sl], hc, child_lo(ks, lo, sl), child_hi(ks, hi, sl), ps));
            lemma_subtree_frame(d1, d2, cs[sl], hc, child_lo(ks, lo, sl), child_hi(ks, hi, sl), ps);
        }
    }
}

/// A node with the one separator `sep` over children `l` and `r`.
pub open spec fn two_child_node(sep: Seq<u8>, l: PageId, r: PageId) -> PageView {
    PageView::Internal(seq![sep], seq![l, r])
}

/// A fresh root over two subtrees split at `sep`.
pub proof fn lemma_new_root(d: Disk, sep: Seq<u8>, l: PageId, r: PageId, hc: nat, ps: nat)
    requires
        subtree_ok(d, l, hc, None, Some(sep), ps),
        subtree_ok(d, r, hc, Some(sep), None, ps),
        pages_of(d, l, hc).disjoint(pages_of(d, r, hc)),
        sep.len() <= spec_max_kv_size(ps),
        ps >= 49,
        ps <= u16::MAX,
    ensures
        view_ok(d, two_child_node(sep, l, r), hc + 1, None, None, ps),
        forall|p: PageId| #[trigger]
            view_pages(d, two_child_node(sep, l, r), hc + 1).contains(p) ==> pages_of(
                d,
                l,
                hc,
            ).contains(p) || pages_of(d, r, hc).contains(p),
        forall|k: Seq<u8>|
            view_get(d, two_child_node(sep, l, r), hc + 1, k) == if lex_lt(k, sep) {
                tree_get(d, l, hc, k)
            } else {
                tree_get(d, r, hc, k)
            },
{
    lemma_lex_order();
    let ks = seq![sep];
    let cs = seq![l, r];
    let h = hc + 1;
    assert(keys_size(ks) == 2 + sep.len()) by {
        let e = ks.drop_last();
        assert(e =~= Seq::<Seq<u8>>::empty());
        assert(keys_size(e) == 0);
        assert(ks.last() == sep);
    }
    assert(keys_ok(ks, None, None, ps));
    assert(child_lo(ks, None, 0) == None::<Seq<u8>>);
    assert(child_hi(ks, None, 0) == Some(sep));
    assert(child_lo(ks, None, 1) == Some(sep));
    assert(child_hi(ks, None, 1) == None::<Seq<u8>>);
    assert forall|j: int| 0 <= j < cs.len() implies subtree_ok(
        d,
        #[trigger] cs[j],
        (h - 1) as nat,
        child_lo(ks, None, j),
        child_hi(ks, None, j),
        ps,
    ) by {}
    assert(shape_ok(d, PageView::Internal(ks, cs), h, None, None, ps));
    lemma_view_pages_internal(d, ks, cs, h);
    assert forall|k: Seq<u8>| view_get(d, PageView::Internal(ks, cs), h, k) == if lex_lt(k, sep) {
        tree_get(d, l, hc, k)
    } else {
        tree_get(d, r, hc, k)
    } by {
        lemma_child_slot(ks, k);
        if lex_lt(k, sep) {
            assert(covers(ks, k, 0));
        } else {
            assert(covers(ks, k, 1));
        }
    }
}


/// Separators after splicing `sep` in at slot `i`.
pub open spec fn spliced_keys(ks: Seq<Seq<u8>>, i: int, sep: Seq<u8>) -> Seq<Seq<u8>> {
    ks.take(i).push(sep) + ks.skip(i)
}

/// Children after child `i` is replaced by the two halves `l` and `r`.
pub open spec fn spliced_children(cs: Seq<PageId>, i: int, l: PageId, r: PageId) -> Seq<PageId> {
    cs.take(i).push(l).push(r) + cs.skip(i + 1)
}

/// Replacing child `i` of an internal node by two subtrees split at
/// `sep`, with `sep` spliced in among the separators. The other children
/// are unchanged on the new disk.
#[verifier::rlimit(60)]
pub proof fn lemma_splice_children(
    d1: Disk,
    d2: Disk,
    ks: Seq<Seq<u8>>,
    cs: Seq<PageId>,
    h: nat,
    lo: Option<Seq<u8>>,
    hi: Option<Seq<u8>>,
    ps: nat,
    i: int,
    sep: Seq<u8>,
    l: PageId,
    r: PageId,
)
    requires
        shape_ok(d1, PageView::Internal(ks, cs), h, lo, hi, ps),
        0 <= i < cs.len(),
        strictly_above(sep, child_lo(ks, lo, i)),
        below(sep, child_hi(ks, hi, i)),
        sep.len() <= spec_max_kv_size(ps),
        keys_sorted(spliced_keys(ks, i, sep)),
        keys_fit_u16(spliced_keys(ks, i, sep)),
        forall|j: int|
            0 <= j < cs.len() && j != i ==> agree_on(d1, d2, pages_of(d1, #[trigger] cs[j], (h - 1) as nat)),
        subtree_ok(d2, l, (h - 1) as nat, child_lo(ks, lo, i), Some(sep), ps),
        subtree_ok(d2, r, (h - 1) as nat, Some(sep), child_hi(ks, hi, i), ps),
        pages_of(d2, l, (h - 1) as nat).disjoint(pages_of(d2, r, (h - 1) as nat)),
        forall|j: int|
            0 <= j < cs.len() && j != i ==> pages_of(d2, l, (h - 1) as nat).disjoint(
                pages_of(d1, #[trigger] cs[j], (h - 1) as nat),
            ) && pages_of(d2, r, (h - 1) as nat).disjoint(pages_of(d1, cs[j], (h - 1) as nat)),
    ensures
        shape_ok(
            d2,
            PageView::Internal(spliced_keys(ks, i, sep), spliced_children(cs, i, l, r)),
            h,
            lo,
            hi,
            ps,
        ),
        forall|p: PageId| #[trigger]
            view_pages(
                d2,
                PageView::Internal(spliced_keys(ks, i, sep), spliced_children(cs, i, l, r)),
                h,
            ).contains(p) ==> pages_of(d2, l, (h - 1) as nat).contains(p) || pages_of(
                d2,
                r,
                (h - 1) as nat,
            ).contains(p) || (view_pages(d1, PageView::Internal(ks, cs), h).contains(p) && !pages_of(
                d1,
                cs[i],
                (h - 1) as nat,
            ).contains(p)),
        forall|k: Seq<u8>|
            view_get(
                d2,
                PageView::Internal(spliced_keys(ks, i, sep), spliced_children(cs, i, l, r)),
                h,
                k,
            ) == if child_slot(ks, k) == i {
                if lex_lt(k, sep) {
                    tree_get(d2, l, (h - 1) as nat, k)
                } else {
                    tree_get(d2, r, (h - 1) as nat, k)
                }
            } else {
                view_get(d1, PageView::Internal(ks, cs), h, k)
            },
{
    lemma_lex_order();
    let hc = (h - 1) as nat;
    let ks2 = spliced_keys(ks, i, sep);
    let cs2 = spliced_children(cs, i, l, r);
    let v1 = PageView::Internal(ks, cs);
    let v2 = PageView::Internal(ks2, cs2);
    assert(h > 1);
    assert(ks2.len() == ks.len() + 1);
    assert(cs2.len() == cs.len() + 1);
    assert forall|j: int| 0 <= j < ks2.len() implies (j < i ==> ks2[j] == ks[j]) && (j == i ==> ks2[j] == sep)
        && (j > i ==> ks2[j] == ks[j - 1]) by {}
    assert forall|j: int| 0 <= j < cs2.len() implies (j < i ==> cs2[j] == cs[j]) && (j == i ==> cs2[j] == l)
        && (j == i + 1 ==> cs2[j] == r) && (j > i + 1 ==> cs2[j] == cs[j - 1]) by {}
    // the separators stay inside the bounds
    assert(strictly_above(sep, lo)) by {
        if i > 0 {
            assert(strictly_above(ks[i - 1], lo));
        }
    }
    assert(below(sep, hi)) by {
        if i < ks.len() {
            assert(below(ks[i], hi));
        }
    }
    assert(keys_ok(ks2, lo, hi, ps)) by {
        assert forall|j: int| 0 <= j < ks2.len() implies strictly_above(#[trigger] ks2[j], lo) && below(
            ks2[j],
            hi,
        ) && ks2[j].len() <= spec_max_kv_size(ps) by {
            if j < i {
                assert(ks2[j] == ks[j]);
            } else if j > i {
                assert(ks2[j] == ks[j - 1]);
            }
        }
    }
    // the children, their bounds, and their pages
    assert forall|j: int| 0 <= j < cs.len() && j != i implies subtree_ok(
        d2,
        #[trigger] cs[j],
        hc,
        child_lo(ks, lo, j),
        child_hi(ks, hi, j),
        ps,
    ) && pages_of(d2, cs[j], hc) == pages_of(d1, cs[j], hc) by {
        assert(subtree_ok(d1, cs[j], hc, child_lo(ks, lo, j), child_hi(ks, hi, j), ps));
        lemma_subtree_frame(d1, d2, cs[j], hc, child_lo(ks, lo, j), child_hi(ks, hi, j), ps);
    }
    assert forall|j: int| 0 <= j < cs2.len() implies subtree_ok(
        d2,
        #[trigger] cs2[j],
        hc,
        child_lo(ks2, lo, j),
        child_hi(ks2, hi, j),
        ps,
    ) by {
        if j < i {
            assert(cs2[j] == cs[j]);
            assert(child_lo(ks2, lo, j) == child_lo(ks, lo, j));
            assert(child_hi(ks2, hi, j) == child_hi(ks, hi, j));
        } else if j == i {
            assert(child_lo(ks2, lo, j) == child_lo(ks, lo, i));
            assert(child_hi(ks2, hi, j) == Some(sep));
        } else if j == i + 1 {
            assert(child_lo(ks2, lo, j) == Some(sep));
            assert(child_hi(ks2, hi, j) == child_hi(ks, hi, i));
        } else {
            assert(cs2[j] == cs[j - 1]);
            assert(child_lo(ks2, lo, j) == child_lo(ks, lo, j - 1));
            assert(child_hi(ks2, hi, j) == child_hi(ks, hi, j - 1));
        }
    }
    assert forall|j1: int, j2: int| 0 <= j1 < j2 < cs2.len() implies pages_of(d2, #[trigger] cs2[j1], hc).disjoint(
        pages_of(d2, #[trigger] cs2[j2], hc),
    ) by {
        let o1 = if j1 < i { j1 } else { j1 - 1 };
        let o2 = if j2 < i { j2 } else { j2 - 1 };
        if j1 == i && j2 == i + 1 {
        } else if j1 == i {
            assert(cs2[j2] == cs[o2]);
            assert(pages_of(d2, l, hc).disjoint(pages_of(d1, cs[o2], hc)));
        } else if j1 == i + 1 {
            assert(cs2[j2] == cs[o2]);
            assert(pages_of(d2, r, hc).disjoint(pages_of(d1, cs[o2], hc)));
        } else if j2 == i {
            assert(cs2[j1] == cs[o1]);
            assert(pages_of(d2, l, hc).disjoint(pages_of(d1, cs[o1], hc)));
        } else if j2 == i + 1 {
            assert(cs2[j1] == cs[o1]);
            assert(pages_of(d2, r, hc).disjoint(pages_of(d1, cs[o1], hc)));
        } else {
            assert(cs2[j1] == cs[o1] && cs2[j2] == cs[o2]);
            assert(o1 < o2);
            assert(pages_of(d1, cs[o1], hc).disjoint(pages_of(d1, cs[o2], hc)));
        }
    }
    assert(shape_ok(d2, v2, h, lo, hi, ps));
    lemma_view_pages_internal(d1, ks, cs, h);
    lemma_view_pages_internal(d2, ks2, cs2, h);
    assert forall|p: PageId| #[trigger] view_pages(d2, v2, h).contains(p) implies pages_of(d2, l, hc).contains(p)
        || pages_of(d2, r, hc).contains(p) || (view_pages(d1, v1, h).contains(p) && !pages_of(
        d1,
        cs[i],
        hc,
    ).contains(p)) by {
        let j = choose|j: int| 0 <= j < cs2.len() && #[trigger] pages_of(d2, cs2[j], hc).contains(p);
        if j != i && j != i + 1 {
            let o = if j < i { j } else { j - 1 };
            assert(cs2[j] == cs[o]);
            assert(pages_of(d1, cs[o], hc).contains(p));
            if o < i {
                assert(pages_of(d1, cs[o], hc).disjoint(pages_of(d1, cs[i], hc)));
            } else {
                assert(pages_of(d1, cs[i], hc).disjoint(pages_of(d1, cs[o], hc)));
            }
        }
    }
    // lookups
    assert forall|k: Seq<u8>| view_get(d2, v2, h, k) == if child_slot(ks, k) == i {
        if lex_lt(k, sep) {
            tree_get(d2, l, hc, k)
        } else {
            tree_get(d2, r, hc, k)
        }
    } else {
        view_get(d1, v1, h, k)
    } by {
        lemma_child_slot(ks, k);
        let s1 = child_slot(ks, k);
        let s2 = if s1 < i {
            s1
        } else if s1 > i {
            s1 + 1
        } else if lex_lt(k, sep) {
            i
        } else {
            i + 1
        };
        assert(covers(ks2, k, s2)) by {
            assert forall|t: int| 0 <= t < s2 implies lex_le(#[trigger] ks2[t], k) by {
                if t < i {
                    assert(ks2[t] == ks[t]);
                } else if t == i {
                    // s2 > i: either the slot lies to the right, or k is not below sep
                    if s1 > i {
                        assert(lex_lt(sep, ks[i]));
                        assert(lex_le(ks[i], k));
                    }
                } else {
                    assert(ks2[t] == ks[t - 1]);
                }
            }
            assert forall|t: int| s2 <= t < ks2.len() implies lex_lt(k, #[trigger] ks2[t]) by {
                if t < i {
                    assert(ks2[t] == ks[t]);
                } else if t == i {
                    // s2 <= i: either the slot lies to the left, or k is below sep
                    if s1 < i {
                        assert(lex_lt(k, ks[s1]));
                        if s1 < i - 1 {
                            assert(lex_lt(ks[s1], ks[i - 1]));
                        }
                        assert(lex_lt(ks[i - 1], sep));
                    }
                } else {
                    assert(ks2[t] == ks[t - 1]);
                }
            }
        }
        lemma_child_slot(ks2, k);
        assert(child_slot(ks2, k) == s2);
        assert(view_get(d2, v2, h, k) == tree_get(d2, cs2[s2], hc, k));
        assert(view_get(d1, v1, h, k) == tree_get(d1, cs[s1], hc, k));
        if s1 != i {
            assert(cs2[s2] == cs[s1]);
            assert(subtree_ok(d1, cs[s1], hc, child_lo(ks, lo, s1), child_hi(ks, hi, s1), ps));
            lemma_subtree_frame(d1, d2, cs[s1], hc, child_lo(ks, lo, s1), child_hi(ks, hi, s1), ps);
        }
    }
}


/// Splitting an internal node at separator `m`, which moves up: the left
/// half keeps keys `[0, m)` and children `[0, m]`, the right half keys
/// `(m, n)` and the children after. Each half answers the lookups of its
/// side of the promoted key, and they share no page.
#[verifier::rlimit(40)]
pub proof fn lemma_split_internal(
    d: Disk,
    ks: Seq<Seq<u8>>,
    cs: Seq<PageId>,
    h: nat,
    lo: Option<Seq<u8>>,
    hi: Option<Seq<u8>>,
    ps: nat,
    m: int,
)
    requires
        shape_ok(d, PageView::Internal(ks, cs), h, lo, hi, ps),
        0 <= m < ks.len(),
    ensures
        shape_ok(d, PageView::Internal(ks.take(m), cs.take(m + 1)), h, lo, Some(ks[m]), ps),
        shape_ok(d, PageView::Internal(ks.skip(m + 1), cs.skip(m + 1)), h, Some(ks[m]), hi, ps),
        strictly_above(ks[m], lo),
        below(ks[m], hi),
        ks[m].len() <= spec_max_kv_size(ps),
        forall|p: PageId| #[trigger]
            view_pages(d, PageView::Internal(ks.take(m), cs.take(m + 1)), h).contains(p) ==> view_pages(
                d,
                PageView::Internal(ks, cs),
                h,
            ).contains(p) && !view_pages(d, PageView::Internal(ks.skip(m + 1), cs.skip(m + 1)), h).contains(p),
        forall|p: PageId| #[trigger]
            view_pages(d, PageView::Internal(ks.skip(m + 1), cs.skip(m + 1)), h).contains(p) ==> view_pages(
                d,
                PageView::Internal(ks, cs),
                h,
            ).contains(p),
        forall|k: Seq<u8>|
            lex_lt(k, ks[m]) ==> view_get(d, PageView::Internal(ks.take(m), cs.take(m + 1)), h, k) == view_get(
                d,
                PageView::Internal(ks, cs),
                h,
                k,
            ),
        forall|k: Seq<u8>|
            lex_le(ks[m], k) ==> view_get(d, PageView::Internal(ks.skip(m + 1), cs.skip(m + 1)), h, k)
                == view_get(d, PageView::Internal(ks, cs), h, k),
{
    lemma_lex_order();
    let hc = (h - 1) as nat;
    let sep = ks[m];
    let kl = ks.take(m);
    let cl = cs.take(m + 1);
    let kr = ks.skip(m + 1);
    let cr = cs.skip(m + 1);
    let v = PageView::Internal(ks, cs);
    let vl = PageView::Internal(kl, cl);
    let vr = PageView::Internal(kr, cr);
    assert(h > 1);
    assert forall|j: int| 0 <= j < kl.len() implies kl[j] == ks[j] by {}
    assert forall|j: int| 0 <= j < kr.len() implies kr[j] == ks[m + 1 + j] by {}
    assert forall|j: int| 0 <= j < cl.len() implies cl[j] == cs[j] by {}
    assert forall|j: int| 0 <= j < cr.len() implies cr[j] == cs[m + 1 + j] by {}
    assert(keys_ok(kl, lo, Some(sep), ps)) by {
        assert forall|j: int| 0 <= j < kl.len() implies strictly_above(#[trigger] kl[j], lo) && below(
            kl[j],
            Some(sep),
        ) && kl[j].len() <= spec_max_kv_size(ps) by {
            assert(kl[j] == ks[j]);
        }
        assert forall|a: int, b: int| 0 <= a < b < kl.len() implies lex_lt(#[trigger] kl[a], #[trigger] kl[b]) by {
            assert(kl[a] == ks[a] && kl[b] == ks[b]);
        }
    }
    assert(keys_ok(kr, Some(sep), hi, ps)) by {
        assert forall|j: int| 0 <= j < kr.len() implies strictly_above(#[trigger] kr[j], Some(sep)) && below(
            kr[j],
            hi,
        ) && kr[j].len() <= spec_max_kv_size(ps) by {
            assert(kr[j] == ks[m + 1 + j]);
        }
        assert forall|a: int, b: int| 0 <= a < b < kr.len() implies lex_lt(#[trigger] kr[a], #[trigger] kr[b]) by {
            assert(kr[a] == ks[m + 1 + a] && kr[b] == ks[m + 1 + b]);
        }
    }
    assert forall|j: int| 0 <= j < cl.len() implies subtree_ok(
        d,
        #[trigger] cl[j],
        hc,
        child_lo(kl, lo, j),
        child_hi(kl, Some(sep), j),
        ps,
    ) by {
        assert(cl[j] == cs[j]);
        assert(child_lo(kl, lo, j) == child_lo(ks, lo, j));
        assert(child_hi(kl, Some(sep), j) == child_hi(ks, hi, j));
    }
    assert forall|j: int| 0 <= j < cr.len() implies subtree_ok(
        d,
        #[trigger] cr[j],
        hc,
        child_lo(kr, Some(sep), j),
        child_hi(kr, hi, j),
        ps,
    ) by {
        assert(cr[j] == cs[m + 1 + j]);
        assert(child_lo(kr, Some(sep), j) == child_lo(ks, lo, m + 1 + j));
        assert(child_hi(kr, hi, j) == child_hi(ks, hi, m + 1 + j));
    }
    assert forall|a: int, b: int| 0 <= a < b < cl.len() implies pages_of(d, #[trigger] cl[a], hc).disjoint(
        pages_of(d, #[trigger] cl[b], hc),
    ) by {
        assert(cl[a] == cs[a] && cl[b] == cs[b]);
    }
    assert forall|a: int, b: int| 0 <= a < b < cr.len() implies pages_of(d, #[trigger] cr[a], hc).disjoint(
        pages_of(d, #[trigger] cr[b], hc),
    ) by {
        assert(cr[a] == cs[m + 1 + a] && cr[b] == cs[m + 1 + b]);
    }
    assert(shape_ok(d, vl, h, lo, Some(sep), ps));
    assert(shape_ok(d, vr, h, Some(sep), hi, ps));
    lemma_view_pages_internal(d, ks, cs, h);
    lemma_view_pages_internal(d, kl, cl, h);
    lemma_view_pages_internal(d, kr, cr, h);
    assert forall|p: PageId| #[trigger] view_pages(d, vl, h).contains(p) implies view_pages(d, v, h).contains(p)
        && !view_pages(d, vr, h).contains(p) by {
        let a = choose|a: int| 0 <= a < cl.len() && #[trigger] pages_of(d, cl[a], hc).contains(p);
        assert(cl[a] == cs[a]);
        assert(pages_of(d, cs[a], hc).contains(p));
        if view_pages(d, vr, h).contains(p) {
            let b = choose|b: int| 0 <= b < cr.len() && #[trigger] pages_of(d, cr[b], hc).contains(p);
            assert(cr[b] == cs[m + 1 + b]);
            assert(pages_of(d, cs[a], hc).disjoint(pages_of(d, cs[m + 1 + b], hc)));
        }
    }
    assert forall|p: PageId| #[trigger] view_pages(d, vr, h).contains(p) implies view_pages(d, v, h).contains(p) by {
        let b = choose|b: int| 0 <= b < cr.len() && #[trigger] pages_of(d, cr[b], hc).contains(p);
        assert(cr[b] == cs[m + 1 + b]);
        assert(pages_of(d, cs[m + 1 + b], hc).contains(p));
    }
    assert forall|k: Seq<u8>| lex_lt(k, sep) implies view_get(d, vl, h, k) == view_get(d, v, h, k) by {
        lemma_child_slot(ks, k);
        let s = child_slot(ks, k);
        if s > m {
            assert(lex_le(ks[m], k));
        }
        assert(covers(kl, k, s)) by {
            assert forall|t: int| 0 <= t < s implies lex_le(#[trigger] kl[t], k) by {
                assert(kl[t] == ks[t]);
            }
            assert forall|t: int| s <= t < kl.len() implies lex_lt(k, #[trigger] kl[t]) by {
                assert(kl[t] == ks[t]);
            }
        }
        lemma_child_slot(kl, k);
        assert(cl[s] == cs[s]);
    }
    assert forall|k: Seq<u8>| lex_le(sep, k) implies view_get(d, vr, h, k) == view_get(d, v, h, k) by {
        lemma_child_slot(ks, k);
        let s = child_slot(ks, k);
        if s <= m {
            assert(lex_lt(k, ks[m]));
        }
        let s2 = s - m - 1;
        assert(covers(kr, k, s2)) by {
            assert forall|t: int| 0 <= t < s2 implies lex_le(#[trigger] kr[t], k) by {
                assert(kr[t] == ks[m + 1 + t]);
            }
            assert forall|t: int| s2 <= t < kr.len() implies lex_lt(k, #[trigger] kr[t]) by {
                assert(kr[t] == ks[m + 1 + t]);
            }
        }
        lemma_child_slot(kr, k);
        assert(cr[s2] == cs[s]);
    }
}

} // verus!
