//! Copy-on-write B+Tree insert and lookup over a `Store`.
use vstd::prelude::*;

use crate::io::{read_disk, PageId, PageIo};
use crate::page::codec::to_vec;
use crate::page::internal::{
    internal_child_index, internal_insert_split_child, internal_replace_child,
    internal_split_with_promotion, keys_fit_u16, keys_size, keys_sorted, InternalNode,
};
use crate::page::keys::{lemma_lex_order, lex_le, lex_lt};
use crate::page::leaf::{
    entries_size, entry_size, lemma_enc_entries_append, lemma_enc_entries_push, lemma_enc_entries_take,
    leaf_insert, leaf_search, leaf_split_by_size, leaf_update, LeafEntry, LeafNode,
};
use crate::page::{check_limits, decodable, spec_max_kv_size, Error, Page, PageView};
use crate::storage::model::{
    above, agree_on, below, child_hi, child_lo, child_slot, leaf_ok, lemma_child_slot,
    lemma_view_frame, lemma_view_pages_internal, node_at, pages_of, strictly_above, subtree_ok,
    shape_ok, tree_get, tree_map, view_get, view_ok, view_pages, Disk,
};
use crate::storage::shape::{
    lemma_leaf_insert, lemma_leaf_split, lemma_leaf_update, lemma_replace_child,
    lemma_splice_children, spliced_children, spliced_keys,
};
use crate::storage::store::{chain_cap, no_dup, page_size_ok, pages_needed, ReadGuard, Store, WriteTxn};

verus! {

/// The result of inserting into a node: either it still fits in one
/// page, or it overflowed and had to split. A `Split` always carries
/// exactly one promoted separator key — the caller either absorbs it
/// into a copy of the parent or, if that overflows too, splits again and
/// keeps propagating upward.
enum InsertResult {
    Single(Page),
    Split { left: Page, sep_key: Vec<u8>, right: Page },
}

/// What the subtree headed by `v` holds under `k` once `(key, val)` is put.
spec fn inserted(d: Disk, v: PageView, h: nat, key: Seq<u8>, val: Seq<u8>, k: Seq<u8>) -> Option<Seq<u8>> {
    if k == key {
        Some(val)
    } else {
        view_get(d, v, h, k)
    }
}

/// The nodes of `r`, rebuilt from node `v` of height `h` with keys in
/// `[lo, hi)` by putting `(key, val)`, are well shaped on `d2` and hold
/// what `v` held on `d`, with the put applied.
spec fn result_ok(
    r: InsertResult,
    d2: Disk,
    h: nat,
    lo: Option<Seq<u8>>,
    hi: Option<Seq<u8>>,
    ps: nat,
    d: Disk,
    v: PageView,
    key: Seq<u8>,
    val: Seq<u8>,
) -> bool {
    match r {
        InsertResult::Single(p) => {
            &&& p.wf()
            &&& view_ok(d2, p.view(), h, lo, hi, ps)
            &&& forall|k: Seq<u8>| #[trigger] view_get(d2, p.view(), h, k) == inserted(d, v, h, key, val, k)
        },
        InsertResult::Split { left, sep_key, right } => {
            let sep = sep_key@;
            &&& left.wf()
            &&& right.wf()
            &&& view_ok(d2, left.view(), h, lo, Some(sep), ps)
            &&& view_ok(d2, right.view(), h, Some(sep), hi, ps)
            &&& strictly_above(sep, lo)
            &&& below(sep, hi)
            &&& sep.len() <= spec_max_kv_size(ps)
            &&& view_pages(d2, left.view(), h).disjoint(view_pages(d2, right.view(), h))
            &&& forall|k: Seq<u8>|
                lex_lt(k, sep) ==> #[trigger] view_get(d2, left.view(), h, k) == inserted(d, v, h, key, val, k)
            &&& forall|k: Seq<u8>|
                lex_le(sep, k) ==> #[trigger] view_get(d2, right.view(), h, k) == inserted(d, v, h, key, val, k)
        },
    }
}

/// From `s` to `t` at most `k` ids were taken from the allocator, and new
/// ids were minted only once the reusable list had run dry.
spec fn took_at_most<IO: PageIo>(s: Store<IO>, t: Store<IO>, k: int) -> bool {
    &&& t.spec_next_page_id() >= s.spec_next_page_id()
    &&& t.spec_next_page_id() - t.spec_free_list().len() <= s.spec_next_page_id() - s.spec_free_list().len() + k
    &&& t.spec_next_page_id() == s.spec_next_page_id() || t.spec_free_list().len() == 0
}

/// Every page below the nodes of `r`.
spec fn result_pages(r: InsertResult, d2: Disk, h: nat) -> Set<PageId> {
    match r {
        InsertResult::Single(p) => view_pages(d2, p.view(), h),
        InsertResult::Split { left, sep_key, right } => view_pages(d2, left.view(), h).union(
            view_pages(d2, right.view(), h),
        ),
    }
}

#[verifier::rlimit(40)]
fn insert_leaf(
    node: &LeafNode,
    key: &[u8],
    val: &[u8],
    page_size: usize,
    Ghost(d2): Ghost<Disk>,
    Ghost(d): Ghost<Disk>,
    Ghost(lo): Ghost<Option<Seq<u8>>>,
    Ghost(hi): Ghost<Option<Seq<u8>>>,
) -> (r: InsertResult)
    requires
        node.wf(),
        page_size_ok(page_size as nat),
        leaf_ok(node.view_entries(), lo, hi, page_size as nat),
        above(key@, lo),
        below(key@, hi),
        key@.len() + val@.len() <= spec_max_kv_size(page_size as nat),
    ensures
        result_ok(r, d2, 1, lo, hi, page_size as nat, d, PageView::Leaf(node.view_entries()), key@, val@),
        result_pages(r, d2, 1) == Set::<PageId>::empty(),
{
    let ghost m = node.view_entries();
    let ghost ps = page_size as nat;
    proof {
        node.lemma_wf_facts();
        lemma_lex_order();
    }
    let built = match leaf_search(node, key) {
        Ok(idx) => {
            proof {
                let i = idx as int;
                lemma_enc_entries_take(m, i);
                lemma_enc_entries_take(m.skip(i), 1);
                assert(m.skip(i).take(1) =~= seq![m[i]]);
                assert(m.skip(i).skip(1) =~= m.skip(i + 1));
                lemma_enc_entries_push(Seq::<LeafEntry>::empty(), m[i]);
                assert(Seq::<LeafEntry>::empty().push(m[i]) =~= seq![m[i]]);
            }
            let b = leaf_update(node, idx, key, val);
            proof {
                let i = idx as int;
                let m2 = b.view_entries();
                b.lemma_wf_facts();
                lemma_leaf_update(m, i, key@, val@, lo, hi, ps);
                assert(m2 =~= m.take(i) + (seq![(key@, val@)] + m.skip(i + 1)));
                lemma_enc_entries_append(m.take(i), seq![(key@, val@)] + m.skip(i + 1));
                lemma_enc_entries_append(seq![(key@, val@)], m.skip(i + 1));
                lemma_enc_entries_push(Seq::<LeafEntry>::empty(), (key@, val@));
                assert(Seq::<LeafEntry>::empty().push((key@, val@)) =~= seq![(key@, val@)]);
                assert(entries_size(m2) <= entries_size(m) + 4 + key@.len() + val@.len());
            }
            b
        },
        Err(idx) => {
            let b = leaf_insert(node, idx, key, val);
            proof {
                let i = idx as int;
                let m2 = b.view_entries();
                b.lemma_wf_facts();
                lemma_leaf_insert(m, i, key@, val@, lo, hi, ps);
                lemma_enc_entries_take(m, i);
                lemma_enc_entries_push(m.take(i), (key@, val@));
                lemma_enc_entries_append(m.take(i).push((key@, val@)), m.skip(i));
                assert(entries_size(m2) == entries_size(m) + 4 + key@.len() + val@.len());
            }
            b
        },
    };
    let ghost m2 = built.view_entries();
    proof {
        built.lemma_wf_facts();
        assert forall|k: Seq<u8>| crate::storage::model::leaf_lookup(m2, k) == inserted(
            d,
            PageView::Leaf(m),
            1,
            key@,
            val@,
            k,
        ) by {}
    }
    if built.nbytes() <= page_size {
        proof {
            assert(leaf_ok(m2, lo, hi, ps));
            assert forall|k: Seq<u8>| #[trigger] view_get(d2, PageView::Leaf(m2), 1, k) == inserted(
                d,
                PageView::Leaf(m),
                1,
                key@,
                val@,
                k,
            ) by {
                assert(crate::storage::model::leaf_lookup(m2, k) == inserted(d, PageView::Leaf(m), 1, key@, val@, k));
            }
            assert(view_pages(d2, PageView::Leaf(m2), 1) =~= Set::<PageId>::empty());
        }
        InsertResult::Single(Page::Leaf(built))
    } else {
        proof {
            assert forall|i: int| 0 <= i < m2.len() implies entries_size(m2) + entry_size(
                #[trigger] m2[i],
            ) <= 2 * (page_size - 11) by {}
            if m2.len() < 2 {
                assert(m2.len() == 1);
                assert(m2.drop_last() =~= Seq::<LeafEntry>::empty());
                assert(entries_size(m2) == entry_size(m2[0]));
            }
        }
        proof {
            let v = crate::page::leaf::lemma_split_point_exists(m2, (page_size - 11) as nat);
            assert(crate::page::leaf::leaf_cut_fits(m2, (page_size - 11) as nat, v));
        }
        let (left, right) = leaf_split_by_size(built, page_size);
        let sep_key = to_vec(right.get_key(0));
        proof {
            let l = left.view_entries();
            let r = right.view_entries();
            left.lemma_wf_facts();
            right.lemma_wf_facts();
            lemma_leaf_split(m2, l, r, lo, hi);
            assert forall|i: int| 0 <= i < l.len() implies (#[trigger] l[i]).0.len() + l[i].1.len()
                <= spec_max_kv_size(ps) by {
                assert(l[i] == m2[i]);
            }
            assert forall|i: int| 0 <= i < r.len() implies (#[trigger] r[i]).0.len() + r[i].1.len()
                <= spec_max_kv_size(ps) by {
                assert(r[i] == m2[l.len() + i]);
            }
            assert(leaf_ok(l, lo, Some(sep_key@), ps));
            assert(leaf_ok(r, Some(sep_key@), hi, ps));
            assert(view_pages(d2, PageView::Leaf(l), 1) =~= Set::<PageId>::empty());
            assert(view_pages(d2, PageView::Leaf(r), 1) =~= Set::<PageId>::empty());
            assert(result_pages(
                InsertResult::Split { left: Page::Leaf(left), sep_key, right: Page::Leaf(right) },
                d2,
                1,
            ) =~= Set::<PageId>::empty());
        }
        InsertResult::Split { left: Page::Leaf(left), sep_key, right: Page::Leaf(right) }
    }
}


/// The old node `Internal(ks, cs)` at page `id` and its child `i` on
/// `d`, rebuilt with child `i` replaced by page `nid` holding `cv`.
/// `a` are the pages the transaction allocated, `f` the pages it freed.
#[verifier::rlimit(40)]
proof fn lemma_rebuilt_single(
    d: Disk,
    d2: Disk,
    d3: Disk,
    id: PageId,
    ks: Seq<Seq<u8>>,
    cs: Seq<PageId>,
    h: nat,
    lo: Option<Seq<u8>>,
    hi: Option<Seq<u8>>,
    ps: nat,
    i: int,
    nid: PageId,
    cv: PageView,
    a: Set<PageId>,
    f0: Seq<PageId>,
    f: Seq<PageId>,
    key: Seq<u8>,
    val: Seq<u8>,
)
    requires
        subtree_ok(d, id, h, lo, hi, ps),
        node_at(d, id) == Some(PageView::Internal(ks, cs)),
        0 <= i < cs.len(),
        child_slot(ks, key) == i,
        view_ok(d2, cv, (h - 1) as nat, child_lo(ks, lo, i), child_hi(ks, hi, i), ps),
        forall|k: Seq<u8>|
            #[trigger] view_get(d2, cv, (h - 1) as nat, k) == inserted(
                d,
                node_at(d, cs[i]).unwrap(),
                (h - 1) as nat,
                key,
                val,
                k,
            ),
        d3 == d2.insert(nid, d3[nid]),
        node_at(d3, nid) == Some(cv),
        d3[nid].len() == ps,
        forall|p: PageId| #[trigger]
            pages_of(d, id, h).contains(p) ==> d3.contains_key(p) == d.contains_key(p) && d3[p] == d[p],
        a.contains(nid),
        !pages_of(d, id, h).contains(nid),
        !view_pages(d2, cv, (h - 1) as nat).contains(nid),
        forall|q: PageId| #[trigger]
            view_pages(d2, cv, (h - 1) as nat).contains(q) ==> (a.contains(q) && !pages_of(d, id, h).contains(q))
                || (view_pages(d, node_at(d, cs[i]).unwrap(), (h - 1) as nat).contains(q) && !f.contains(q)),
        forall|p: PageId| #[trigger] f.contains(p) ==> f0.contains(p) || pages_of(d, cs[i], (h - 1) as nat).contains(p),
        forall|p: PageId| #[trigger] pages_of(d, id, h).contains(p) ==> !f0.contains(p),
    ensures
        view_ok(d3, PageView::Internal(ks, cs.update(i, nid)), h, lo, hi, ps),
        forall|k: Seq<u8>|
            #[trigger] view_get(d3, PageView::Internal(ks, cs.update(i, nid)), h, k) == inserted(
                d,
                PageView::Internal(ks, cs),
                h,
                key,
                val,
                k,
            ),
        forall|q: PageId| #[trigger]
            view_pages(d3, PageView::Internal(ks, cs.update(i, nid)), h).contains(q) ==> a.contains(q) || (
            view_pages(d, PageView::Internal(ks, cs), h).contains(q) && !f.contains(q)),
{
    let hc = (h - 1) as nat;
    let v = PageView::Internal(ks, cs);
    let vc = node_at(d, cs[i]).unwrap();
    let clo = child_lo(ks, lo, i);
    let chi = child_hi(ks, hi, i);
    assert(h > 1);
    lemma_view_pages_internal(d, ks, cs, h);
    assert(pages_of(d, id, h) == set![id].union(view_pages(d, v, h)));
    assert(subtree_ok(d, cs[i], hc, clo, chi, ps));
    assert(agree_on(d2, d3, view_pages(d2, cv, hc)));
    lemma_view_frame(d2, d3, cv, hc, clo, chi, ps);
    assert(subtree_ok(d3, nid, hc, clo, chi, ps));
    assert(pages_of(d3, nid, hc) == set![nid].union(view_pages(d3, cv, hc)));
    assert(pages_of(d, cs[i], hc) == set![cs[i]].union(view_pages(d, vc, hc)));
    assert forall|j: int| 0 <= j < cs.len() && j != i implies agree_on(d, d3, pages_of(d, #[trigger] cs[j], hc))
        && pages_of(d3, nid, hc).disjoint(pages_of(d, cs[j], hc)) by {
        assert forall|p: PageId| #[trigger] pages_of(d, cs[j], hc).contains(p) implies d.contains_key(p)
            == d3.contains_key(p) && d[p] == d3[p] && !pages_of(d3, nid, hc).contains(p) by {
            assert(view_pages(d, v, h).contains(p));
            assert(pages_of(d, id, h).contains(p));
            if j < i {
                assert(pages_of(d, cs[j], hc).disjoint(pages_of(d, cs[i], hc)));
            } else {
                assert(pages_of(d, cs[i], hc).disjoint(pages_of(d, cs[j], hc)));
            }
        }
    }
    crate::storage::shape::lemma_replace_child(d, d3, ks, cs, h, lo, hi, ps, i, nid);
    let nv = PageView::Internal(ks, cs.update(i, nid));
    assert forall|k: Seq<u8>| view_get(d3, nv, h, k) == inserted(d, v, h, key, val, k) by {
        lemma_child_slot(ks, k);
        if child_slot(ks, k) == i {
            assert(tree_get(d3, nid, hc, k) == view_get(d3, cv, hc, k));
            assert(tree_get(d, cs[i], hc, k) == view_get(d, vc, hc, k));
            assert(view_get(d, v, h, k) == tree_get(d, cs[i], hc, k));
        } else {
            assert(k != key);
        }
    }
    assert forall|q: PageId| #[trigger] view_pages(d3, nv, h).contains(q) implies a.contains(q) || (view_pages(
        d,
        v,
        h,
    ).contains(q) && !f.contains(q)) by {
        if pages_of(d3, nid, hc).contains(q) {
            if q != nid {
                assert(view_pages(d2, cv, hc).contains(q));
                if !a.contains(q) {
                    assert(view_pages(d, vc, hc).contains(q));
                    assert(pages_of(d, cs[i], hc).contains(q));
                }
            }
        } else {
            assert(view_pages(d, v, h).contains(q) && !pages_of(d, cs[i], hc).contains(q));
            assert(pages_of(d, id, h).contains(q));
        }
    }
}

/// The old node `Internal(ks, cs)` at page `id` on `d`, rebuilt with
/// child `i` replaced by pages `lid` and `rid` holding `lv` and `rv`,
/// split at `sep`.
#[verifier::rlimit(60)]
proof fn lemma_rebuilt_split(
    d: Disk,
    d2: Disk,
    d4: Disk,
    id: PageId,
    ks: Seq<Seq<u8>>,
    cs: Seq<PageId>,
    h: nat,
    lo: Option<Seq<u8>>,
    hi: Option<Seq<u8>>,
    ps: nat,
    i: int,
    sep: Seq<u8>,
    lid: PageId,
    rid: PageId,
    lv: PageView,
    rv: PageView,
    a: Set<PageId>,
    f0: Seq<PageId>,
    f: Seq<PageId>,
    key: Seq<u8>,
    val: Seq<u8>,
)
    requires
        subtree_ok(d, id, h, lo, hi, ps),
        node_at(d, id) == Some(PageView::Internal(ks, cs)),
        0 <= i < cs.len(),
        child_slot(ks, key) == i,
        keys_sorted(spliced_keys(ks, i, sep)),
        keys_fit_u16(spliced_keys(ks, i, sep)),
        view_ok(d2, lv, (h - 1) as nat, child_lo(ks, lo, i), Some(sep), ps),
        view_ok(d2, rv, (h - 1) as nat, Some(sep), child_hi(ks, hi, i), ps),
        strictly_above(sep, child_lo(ks, lo, i)),
        below(sep, child_hi(ks, hi, i)),
        sep.len() <= spec_max_kv_size(ps),
        view_pages(d2, lv, (h - 1) as nat).disjoint(view_pages(d2, rv, (h - 1) as nat)),
        forall|k: Seq<u8>|
            lex_lt(k, sep) ==> #[trigger] view_get(d2, lv, (h - 1) as nat, k) == inserted(
                d,
                node_at(d, cs[i]).unwrap(),
                (h - 1) as nat,
                key,
                val,
                k,
            ),
        forall|k: Seq<u8>|
            lex_le(sep, k) ==> #[trigger] view_get(d2, rv, (h - 1) as nat, k) == inserted(
                d,
                node_at(d, cs[i]).unwrap(),
                (h - 1) as nat,
                key,
                val,
                k,
            ),
        lid != rid,
        d4 == d2.insert(lid, d4[lid]).insert(rid, d4[rid]),
        node_at(d4, lid) == Some(lv),
        node_at(d4, rid) == Some(rv),
        d4[lid].len() == ps,
        d4[rid].len() == ps,
        forall|p: PageId| #[trigger]
            pages_of(d, id, h).contains(p) ==> d4.contains_key(p) == d.contains_key(p) && d4[p] == d[p],
        a.contains(lid),
        a.contains(rid),
        !pages_of(d, id, h).contains(lid),
        !pages_of(d, id, h).contains(rid),
        !view_pages(d2, lv, (h - 1) as nat).contains(lid),
        !view_pages(d2, lv, (h - 1) as nat).contains(rid),
        !view_pages(d2, rv, (h - 1) as nat).contains(lid),
        !view_pages(d2, rv, (h - 1) as nat).contains(rid),
        forall|q: PageId| #[trigger]
            view_pages(d2, lv, (h - 1) as nat).contains(q) ==> (a.contains(q) && !pages_of(d, id, h).contains(q))
                || (view_pages(d, node_at(d, cs[i]).unwrap(), (h - 1) as nat).contains(q) && !f.contains(q)),
        forall|q: PageId| #[trigger]
            view_pages(d2, rv, (h - 1) as nat).contains(q) ==> (a.contains(q) && !pages_of(d, id, h).contains(q))
                || (view_pages(d, node_at(d, cs[i]).unwrap(), (h - 1) as nat).contains(q) && !f.contains(q)),
        forall|p: PageId| #[trigger] f.contains(p) ==> f0.contains(p) || pages_of(d, cs[i], (h - 1) as nat).contains(p),
        forall|p: PageId| #[trigger] pages_of(d, id, h).contains(p) ==> !f0.contains(p),
    ensures
        shape_ok(
            d4,
            PageView::Internal(spliced_keys(ks, i, sep), spliced_children(cs, i, lid, rid)),
            h,
            lo,
            hi,
            ps,
        ),
        forall|k: Seq<u8>|
            #[trigger] view_get(d4, PageView::Internal(spliced_keys(ks, i, sep), spliced_children(cs, i, lid, rid)), h, k)
                == inserted(d, PageView::Internal(ks, cs), h, key, val, k),
        forall|q: PageId| #[trigger]
            view_pages(
                d4,
                PageView::Internal(spliced_keys(ks, i, sep), spliced_children(cs, i, lid, rid)),
                h,
            ).contains(q) ==> a.contains(q) || (view_pages(d, PageView::Internal(ks, cs), h).contains(q)
                && !f.contains(q)),
{
    let hc = (h - 1) as nat;
    let v = PageView::Internal(ks, cs);
    let vc = node_at(d, cs[i]).unwrap();
    let clo = child_lo(ks, lo, i);
    let chi = child_hi(ks, hi, i);
    assert(h > 1);
    lemma_view_pages_internal(d, ks, cs, h);
    assert(pages_of(d, id, h) == set![id].union(view_pages(d, v, h)));
    assert(subtree_ok(d, cs[i], hc, clo, chi, ps));
    assert(agree_on(d2, d4, view_pages(d2, lv, hc)));
    assert(agree_on(d2, d4, view_pages(d2, rv, hc)));
    lemma_view_frame(d2, d4, lv, hc, clo, Some(sep), ps);
    lemma_view_frame(d2, d4, rv, hc, Some(sep), chi, ps);
    assert(subtree_ok(d4, lid, hc, clo, Some(sep), ps));
    assert(subtree_ok(d4, rid, hc, Some(sep), chi, ps));
    assert(pages_of(d4, lid, hc) == set![lid].union(view_pages(d4, lv, hc)));
    assert(pages_of(d4, rid, hc) == set![rid].union(view_pages(d4, rv, hc)));
    assert(pages_of(d, cs[i], hc) == set![cs[i]].union(view_pages(d, vc, hc)));
    assert(pages_of(d4, lid, hc).disjoint(pages_of(d4, rid, hc)));
    assert forall|j: int| 0 <= j < cs.len() && j != i implies agree_on(d, d4, pages_of(d, #[trigger] cs[j], hc))
        && pages_of(d4, lid, hc).disjoint(pages_of(d, cs[j], hc)) && pages_of(d4, rid, hc).disjoint(
        pages_of(d, cs[j], hc),
    ) by {
        assert forall|p: PageId| #[trigger] pages_of(d, cs[j], hc).contains(p) implies d.contains_key(p)
            == d4.contains_key(p) && d[p] == d4[p] && !pages_of(d4, lid, hc).contains(p) && !pages_of(
            d4,
            rid,
            hc,
        ).contains(p) by {
            assert(view_pages(d, v, h).contains(p));
            assert(pages_of(d, id, h).contains(p));
            if j < i {
                assert(pages_of(d, cs[j], hc).disjoint(pages_of(d, cs[i], hc)));
            } else {
                assert(pages_of(d, cs[i], hc).disjoint(pages_of(d, cs[j], hc)));
            }
        }
        assert(pages_of(d4, lid, hc).disjoint(pages_of(d, cs[j], hc)));
    }
    crate::storage::shape::lemma_splice_children(d, d4, ks, cs, h, lo, hi, ps, i, sep, lid, rid);
    let gv = PageView::Internal(spliced_keys(ks, i, sep), spliced_children(cs, i, lid, rid));
    assert forall|k: Seq<u8>| view_get(d4, gv, h, k) == inserted(d, v, h, key, val, k) by {
        lemma_child_slot(ks, k);
        assert(view_get(d, v, h, k) == tree_get(d, cs[child_slot(ks, k)], hc, k));
        if child_slot(ks, k) == i {
            assert(tree_get(d4, lid, hc, k) == view_get(d4, lv, hc, k));
            assert(tree_get(d4, rid, hc, k) == view_get(d4, rv, hc, k));
            assert(tree_get(d, cs[i], hc, k) == view_get(d, vc, hc, k));
            crate::page::keys::lemma_lex_total(k, sep);
            if !lex_lt(k, sep) {
                assert(lex_le(sep, k));
            }
        } else {
            assert(k != key);
        }
    }
    assert forall|q: PageId| #[trigger] view_pages(d4, gv, h).contains(q) implies a.contains(q) || (view_pages(
        d,
        v,
        h,
    ).contains(q) && !f.contains(q)) by {
        if pages_of(d4, lid, hc).contains(q) || pages_of(d4, rid, hc).contains(q) {
            if q != lid && q != rid && !a.contains(q) {
                assert(view_pages(d2, lv, hc).contains(q) || view_pages(d2, rv, hc).contains(q));
                assert(view_pages(d, vc, hc).contains(q));
                assert(pages_of(d, cs[i], hc).contains(q));
            }
        } else {
            assert(view_pages(d, v, h).contains(q) && !pages_of(d, cs[i], hc).contains(q));
            assert(pages_of(d, id, h).contains(q));
        }
    }
}


/// A prefix of a prefix is a prefix.
proof fn lemma_prefix_trans(a: Seq<PageId>, b: Seq<PageId>, c: Seq<PageId>)
    requires
        a.is_prefix_of(b),
        b.is_prefix_of(c),
    ensures
        a.is_prefix_of(c),
{
    assert forall|i: int| 0 <= i < a.len() implies a[i] == c[i] by {
        assert(a[i] == b[i]);
    }
    assert(a =~= c.subrange(0, a.len() as int));
}

/// Separators of at most `b` bytes each take at most `2 + b` bytes apiece.
proof fn lemma_keys_size_bound(ks: Seq<Seq<u8>>, b: nat)
    requires
        forall|i: int| 0 <= i < ks.len() ==> (#[trigger] ks[i]).len() <= b,
    ensures
        keys_size(ks) <= ks.len() * (2 + b),
    decreases ks.len(),
{
    if ks.len() > 0 {
        let k2 = ks.drop_last();
        assert forall|i: int| 0 <= i < k2.len() implies (#[trigger] k2[i]).len() <= b by {
            assert(k2[i] == ks[i]);
        }
        lemma_keys_size_bound(k2, b);
        assert(ks.len() * (2 + b) == k2.len() * (2 + b) + (2 + b)) by (nonlinear_arith)
            requires
                ks.len() == k2.len() + 1,
        ;
    }
}

/// A node grown by one separator that no longer fits a page still has
/// at least three separators, small enough to split.
proof fn lemma_grown_splittable(ks: Seq<Seq<u8>>, ncs: nat, ps: nat, lo: Option<Seq<u8>>, hi: Option<Seq<u8>>)
    requires
        crate::storage::model::keys_ok(ks, lo, hi, ps),
        ncs == ks.len() + 1,
        11 + keys_size(ks) + 8 * ncs > ps,
        ps >= 49,
    ensures
        ks.len() >= 3,
        forall|j: int| 0 <= j < ks.len() ==> 29 + (#[trigger] ks[j]).len() <= ps,
{
    let b = spec_max_kv_size(ps);
    assert forall|j: int| 0 <= j < ks.len() implies 29 + (#[trigger] ks[j]).len() <= ps by {
        assert(ks[j].len() <= b);
    }
    if ks.len() < 3 {
        lemma_keys_size_bound(ks, b);
        assert(ks.len() * (2 + b) <= 2 * (2 + b)) by (nonlinear_arith)
            requires
                ks.len() <= 2,
        ;
    }
}

/// Inserts into the subtree of the internal node `node`, stored at page
/// `id` with height `h` and keys in `[lo, hi)`: recurses into the child
/// covering `key`, frees it (always orphaned by copy-on-write, whether
/// the child split or not), writes its replacement(s) to fresh pages and
/// rebuilds `node` around them.
#[verifier::rlimit(60)]
fn insert_internal<IO: PageIo>(
    txn: &mut WriteTxn<IO>,
    node: &InternalNode,
    key: &[u8],
    val: &[u8],
    page_size: usize,
    Ghost(id): Ghost<PageId>,
    Ghost(h): Ghost<nat>,
    Ghost(lo): Ghost<Option<Seq<u8>>>,
    Ghost(hi): Ghost<Option<Seq<u8>>>,
) -> (r: InsertResult)
    requires
        old(txn).wf(),
        page_size == old(txn).st().spec_page_size(),
        node.wf(),
        node.complete(),
        subtree_ok(old(txn).st().disk(), id, h, lo, hi, page_size as nat),
        node_at(old(txn).st().disk(), id) == Some(
            PageView::Internal(node.view_keys(), node.view_children()),
        ),
        forall|p: PageId| #[trigger]
            pages_of(old(txn).st().disk(), id, h).contains(p) ==> old(txn).st().tree_pages().contains(p)
                && !old(txn).log.freed_view().contains(p),
        above(key@, lo),
        below(key@, hi),
        key@.len() + val@.len() <= spec_max_kv_size(page_size as nat),
        old(txn).st().spec_next_page_id() + 2 * h <= u64::MAX,
    ensures
        final(txn).wf(),
        final(txn).st().same_tree(&old(txn).st()),
        final(txn).st().spec_free_list().is_prefix_of(old(txn).st().spec_free_list()),
        final(txn).st().spec_next_page_id() <= old(txn).st().spec_next_page_id() + 2 * (h - 1),
        took_at_most(old(txn).st(), final(txn).st(), 2 * (h - 1)),
        final(txn).log.freed_view().len() == old(txn).log.freed_view().len() + (h - 1),
        forall|p: PageId| #[trigger]
            final(txn).log.freed_view().contains(p) ==> old(txn).log.freed_view().contains(p) || view_pages(
                old(txn).st().disk(),
                PageView::Internal(node.view_keys(), node.view_children()),
                h,
            ).contains(p),
        forall|p: PageId| #[trigger]
            old(txn).log.allocated().contains(p) ==> final(txn).log.allocated().contains(p),
        result_ok(
            r,
            final(txn).disk(),
            h,
            lo,
            hi,
            page_size as nat,
            old(txn).st().disk(),
            PageView::Internal(node.view_keys(), node.view_children()),
            key@,
            val@,
        ),
        forall|q: PageId| #[trigger]
            result_pages(r, final(txn).disk(), h).contains(q) ==> final(txn).log.allocated().contains(q)
                || (view_pages(
                old(txn).st().disk(),
                PageView::Internal(node.view_keys(), node.view_children()),
                h,
            ).contains(q) && !final(txn).log.freed_view().contains(q)),
        *final(final(txn).store) == *final(old(txn).store),
    decreases h,
{
    let ghost d = txn.st().disk();
    let ghost ps = page_size as nat;
    let ghost ks = node.view_keys();
    let ghost cs = node.view_children();
    let ghost v = PageView::Internal(ks, cs);
    let ghost hc = (h - 1) as nat;
    let ghost t0 = txn.st().tree_pages();
    let ghost f0 = txn.log.freed_view();
    let ghost fl0 = txn.st().spec_free_list();
    proof {
        assert(fl0 =~= fl0.subrange(0, fl0.len() as int));
        node.lemma_wf_facts();
        lemma_lex_order();
        lemma_view_pages_internal(d, ks, cs, h);
        txn.lemma_wf_facts();
        txn.st().lemma_inv_facts();
        assert(pages_of(d, id, h) == set![id].union(view_pages(d, v, h)));
    }
    let idx = internal_child_index(node, key);
    let child_id = node.get_child(idx);
    let ghost i = idx as int;
    let ghost clo = child_lo(ks, lo, i);
    let ghost chi = child_hi(ks, hi, i);
    let ghost vc = node_at(d, child_id).unwrap();
    proof {
        lemma_child_slot(ks, key@);
        assert(h > 1);
        assert(subtree_ok(d, child_id, hc, clo, chi, ps));
        assert forall|p: PageId| #[trigger] pages_of(d, child_id, hc).contains(p) implies pages_of(d, id, h).contains(
            p,
        ) && view_pages(d, v, h).contains(p) by {
            assert(view_pages(d, v, h).contains(p));
        }
        assert(above(key@, clo)) by {
            if i > 0 {
                assert(lex_le(ks[i - 1], key@));
            }
        }
        assert(below(key@, chi));
        crate::storage::model::lemma_pages_finite(d, child_id, hc, clo, chi, ps);
        assert(pages_of(d, child_id, hc).contains(child_id));
        assert(t0.contains(child_id));
        txn.lemma_disk_outside_allocated(child_id);
        assert(read_disk(txn.disk(), child_id, ps) == d[child_id]);
        assert(view_ok(d, vc, hc, clo, chi, ps));
        match vc {
            PageView::Leaf(m) => assert(leaf_ok(m, clo, chi, ps)),
            PageView::Internal(ks3, cs3) => assert(crate::storage::model::keys_ok(ks3, clo, chi, ps)),
        }
        assert(decodable(child_id, d[child_id]));
        assert(pages_of(d, child_id, hc) == set![child_id].union(view_pages(d, vc, hc)));
    }
    let result = match txn.read(child_id) {
        Page::Leaf(l) => {
            proof {
                assert(vc == PageView::Leaf(l.view_entries()));
            }
            insert_leaf(&l, key, val, page_size, Ghost(txn.disk()), Ghost(d), Ghost(clo), Ghost(chi))
        },
        Page::Internal(n2) => {
            proof {
                assert(vc == PageView::Internal(n2.view_keys(), n2.view_children()));
                assert forall|p: PageId| #[trigger] pages_of(d, child_id, hc).contains(p) implies t0.contains(p)
                    && !txn.log.freed_view().contains(p) by {
                    assert(pages_of(d, id, h).contains(p));
                }
            }
            insert_internal(txn, &n2, key, val, page_size, Ghost(child_id), Ghost(hc), Ghost(clo), Ghost(chi))
        },
    };
    let ghost d2 = txn.disk();
    let ghost a2 = txn.log.allocated();
    proof {
        txn.lemma_wf_facts();
        assert(!txn.log.freed_view().contains(child_id)) by {
            if txn.log.freed_view().contains(child_id) {
                assert(f0.contains(child_id) || view_pages(d, vc, hc).contains(child_id));
                assert(pages_of(d, id, h).contains(child_id));
            }
        }
    }
    let ghost fr2 = txn.log.freed_view();
    proof {
        assert forall|p: PageId| #[trigger] fr2.contains(p) implies f0.contains(p) || view_pages(d, vc, hc).contains(p) by {
        }
    }
    txn.free(child_id);
    let ghost f3 = txn.log.freed_view();
    proof {
        // what the rebuilt child may use: fresh pages, or old pages of the child not freed
        assert forall|q: PageId| #[trigger] result_pages(result, d2, hc).contains(q) implies (a2.contains(q)
            && !pages_of(d, id, h).contains(q)) || (view_pages(d, vc, hc).contains(q) && !f3.contains(q)) by {
            if a2.contains(q) {
                assert(!t0.contains(q));
            } else {
                assert(q != child_id);
            }
        }
        assert(cs[i] == child_id);
        assert forall|p: PageId| #[trigger] f3.contains(p) implies f0.contains(p) || pages_of(d, cs[i], hc).contains(p) by {
            if p != child_id && !f0.contains(p) {
                let j = choose|j: int| 0 <= j < f3.len() && f3[j] == p;
                assert(j < fr2.len());
                assert(fr2[j] == p);
                assert(fr2.contains(p));
                assert(view_pages(d, vc, hc).contains(p));
            }
        }
        assert forall|p: PageId| #[trigger] pages_of(d, id, h).contains(p) implies d2.contains_key(p) == d.contains_key(p)
            && d2[p] == d[p] by {
            txn.lemma_disk_outside_allocated(p);
        }
    }
    let ghost flc = txn.st().spec_free_list();
    proof {
        assert forall|p: PageId| #[trigger] pages_of(d, id, h).contains(p) implies txn.st().tree_pages().contains(p) by {}
    }
    let r = rebuild(
        txn,
        node,
        idx,
        result,
        page_size,
        Ghost(key@),
        Ghost(val@),
        Ghost(id),
        Ghost(h),
        Ghost(lo),
        Ghost(hi),
        Ghost(f0),
    );
    proof {
        lemma_prefix_trans(txn.st().spec_free_list(), flc, fl0);
    }
    r
}


/// Rebuilds the internal node `node` (page `id`, height `h`, keys in
/// `[lo, hi)`) around the result of inserting into its child `idx`:
/// writes the new child, or both halves of a split child, to fresh pages
/// and splits `node` in turn if it no longer fits a page.
#[verifier::rlimit(60)]
fn rebuild<IO: PageIo>(
    txn: &mut WriteTxn<IO>,
    node: &InternalNode,
    idx: u16,
    result: InsertResult,
    page_size: usize,
    Ghost(key): Ghost<Seq<u8>>,
    Ghost(val): Ghost<Seq<u8>>,
    Ghost(id): Ghost<PageId>,
    Ghost(h): Ghost<nat>,
    Ghost(lo): Ghost<Option<Seq<u8>>>,
    Ghost(hi): Ghost<Option<Seq<u8>>>,
    Ghost(f0): Ghost<Seq<PageId>>,
) -> (r: InsertResult)
    requires
        old(txn).wf(),
        page_size == old(txn).st().spec_page_size(),
        node.wf(),
        node.complete(),
        subtree_ok(old(txn).st().disk(), id, h, lo, hi, page_size as nat),
        node_at(old(txn).st().disk(), id) == Some(
            PageView::Internal(node.view_keys(), node.view_children()),
        ),
        idx < node.view_children().len(),
        child_slot(node.view_keys(), key) == idx,
        result_ok(
            result,
            old(txn).disk(),
            (h - 1) as nat,
            child_lo(node.view_keys(), lo, idx as int),
            child_hi(node.view_keys(), hi, idx as int),
            page_size as nat,
            old(txn).st().disk(),
            node_at(old(txn).st().disk(), node.view_children()[idx as int]).unwrap(),
            key,
            val,
        ),
        forall|q: PageId| #[trigger]
            result_pages(result, old(txn).disk(), (h - 1) as nat).contains(q) ==> (old(
                txn,
            ).log.allocated().contains(q) && !pages_of(old(txn).st().disk(), id, h).contains(q)) || (
            view_pages(
                old(txn).st().disk(),
                node_at(old(txn).st().disk(), node.view_children()[idx as int]).unwrap(),
                (h - 1) as nat,
            ).contains(q) && !old(txn).log.freed_view().contains(q)),
        forall|p: PageId| #[trigger]
            old(txn).log.freed_view().contains(p) ==> f0.contains(p) || pages_of(
                old(txn).st().disk(),
                node.view_children()[idx as int],
                (h - 1) as nat,
            ).contains(p),
        forall|p: PageId| #[trigger]
            pages_of(old(txn).st().disk(), id, h).contains(p) ==> !f0.contains(p) && old(
                txn,
            ).st().tree_pages().contains(p),
        old(txn).st().spec_next_page_id() + 2 <= u64::MAX,
    ensures
        final(txn).wf(),
        final(txn).st().same_tree(&old(txn).st()),
        final(txn).st().spec_free_list().is_prefix_of(old(txn).st().spec_free_list()),
        final(txn).st().spec_next_page_id() <= old(txn).st().spec_next_page_id() + 2,
        took_at_most(old(txn).st(), final(txn).st(), 2),
        final(txn).log.freed_view() == old(txn).log.freed_view(),
        forall|p: PageId| #[trigger]
            old(txn).log.allocated().contains(p) ==> final(txn).log.allocated().contains(p),
        result_ok(
            r,
            final(txn).disk(),
            h,
            lo,
            hi,
            page_size as nat,
            old(txn).st().disk(),
            PageView::Internal(node.view_keys(), node.view_children()),
            key,
            val,
        ),
        forall|q: PageId| #[trigger]
            result_pages(r, final(txn).disk(), h).contains(q) ==> final(txn).log.allocated().contains(q)
                || (view_pages(
                old(txn).st().disk(),
                PageView::Internal(node.view_keys(), node.view_children()),
                h,
            ).contains(q) && !final(txn).log.freed_view().contains(q)),
        *final(final(txn).store) == *final(old(txn).store),
{
    let ghost d = txn.st().disk();
    let ghost d2 = txn.disk();
    let ghost ps = page_size as nat;
    let ghost ks = node.view_keys();
    let ghost cs = node.view_children();
    let ghost v = PageView::Internal(ks, cs);
    let ghost hc = (h - 1) as nat;
    let ghost i = idx as int;
    let ghost clo = child_lo(ks, lo, i);
    let ghost chi = child_hi(ks, hi, i);
    let ghost vc = node_at(d, cs[i]).unwrap();
    let ghost f3 = txn.log.freed_view();
    proof {
        node.lemma_wf_facts();
        txn.lemma_wf_facts();
        txn.st().lemma_inv_facts();
        assert(h > 1);
        assert forall|p: PageId| #[trigger] pages_of(d, id, h).contains(p) implies d2.contains_key(p) == d.contains_key(p)
            && d2[p] == d[p] by {
            txn.lemma_disk_outside_allocated(p);
        }
        lemma_view_pages_internal(d, ks, cs, h);
        assert(pages_of(d, id, h) == set![id].union(view_pages(d, v, h)));
        assert(subtree_ok(d, cs[i], hc, clo, chi, ps));
        assert(pages_of(d, cs[i], hc) == set![cs[i]].union(view_pages(d, vc, hc)));
        assert forall|q: PageId| #[trigger] view_pages(d, vc, hc).contains(q) implies txn.st().tree_pages().contains(q) by {
            assert(pages_of(d, cs[i], hc).contains(q));
            assert(view_pages(d, v, h).contains(q));
            assert(pages_of(d, id, h).contains(q));
        }
    }
    match result {
        InsertResult::Single(new_child) => {
            let nid = txn.allocate();
            proof {
                assert(new_child.spec_nbytes() == crate::storage::model::view_nbytes(new_child.view()));
            }
            txn.write(nid, new_child);
            let new_node = internal_replace_child(node, idx, nid);
            proof {
                let d3 = txn.disk();
                let cv = new_child.view();
                txn.lemma_wf_facts();
                assert(!pages_of(d, id, h).contains(nid));
                assert(!view_pages(d2, cv, hc).contains(nid)) by {
                    if view_pages(d2, cv, hc).contains(nid) {
                        assert(result_pages(result, d2, hc).contains(nid));
                        if view_pages(d, vc, hc).contains(nid) {
                            assert(old(txn).st().tree_pages().contains(nid));
                        }
                    }
                }
                assert forall|q: PageId| #[trigger] view_pages(d2, cv, hc).contains(q) implies (txn.log.allocated().contains(q)
                    && !pages_of(d, id, h).contains(q)) || (view_pages(d, vc, hc).contains(q) && !f3.contains(q)) by {
                    assert(result_pages(result, d2, hc).contains(q));
                }
                assert forall|p: PageId| #[trigger] pages_of(d, id, h).contains(p) implies d3.contains_key(p)
                    == d.contains_key(p) && d3[p] == d[p] by {
                    assert(p != nid);
                }
                lemma_rebuilt_single(
                    d, d2, d3, id, ks, cs, h, lo, hi, ps, i, nid, cv, txn.log.allocated(), f0, f3, key, val,
                );
                assert(Page::Internal(new_node).view() == PageView::Internal(ks, cs.update(i, nid)));
            }
            InsertResult::Single(Page::Internal(new_node))
        },
        InsertResult::Split { left, sep_key, right } => {
            let ghost flr = txn.st().spec_free_list();
            let lid = txn.allocate();
            proof {
                assert(left.spec_nbytes() == crate::storage::model::view_nbytes(left.view()));
                assert(right.spec_nbytes() == crate::storage::model::view_nbytes(right.view()));
            }
            txn.write(lid, left);
            let ghost fll = txn.st().spec_free_list();
            let rid = txn.allocate();
            txn.write(rid, right);
            let ghost sep = sep_key@;
            proof {
                lemma_prefix_trans(txn.st().spec_free_list(), fll, flr);
                assert(view_ok(d, v, h, lo, hi, ps));
                assert(keys_size(ks) + 2 + sep.len() <= u16::MAX);
            }
            let grown = internal_insert_split_child(node, idx, sep_key.as_slice(), lid, rid);
            let ghost gv = PageView::Internal(spliced_keys(ks, i, sep), spliced_children(cs, i, lid, rid));
            proof {
                let d4 = txn.disk();
                let lv = left.view();
                let rv = right.view();
                grown.lemma_wf_facts();
                txn.lemma_wf_facts();
                assert(Page::Internal(grown).view() == gv);
                assert(!pages_of(d, id, h).contains(lid) && !pages_of(d, id, h).contains(rid));
                assert(!view_pages(d2, lv, hc).contains(lid) && !view_pages(d2, lv, hc).contains(rid)
                    && !view_pages(d2, rv, hc).contains(lid) && !view_pages(d2, rv, hc).contains(rid)) by {
                    if view_pages(d2, lv, hc).contains(lid) || view_pages(d2, rv, hc).contains(lid) {
                        assert(result_pages(result, d2, hc).contains(lid));
                        if view_pages(d, vc, hc).contains(lid) {
                            assert(old(txn).st().tree_pages().contains(lid));
                        }
                    }
                    if view_pages(d2, lv, hc).contains(rid) || view_pages(d2, rv, hc).contains(rid) {
                        assert(result_pages(result, d2, hc).contains(rid));
                        if view_pages(d, vc, hc).contains(rid) {
                            assert(old(txn).st().tree_pages().contains(rid));
                        }
                    }
                }
                assert forall|q: PageId| #[trigger] view_pages(d2, lv, hc).contains(q) implies (txn.log.allocated().contains(q)
                    && !pages_of(d, id, h).contains(q)) || (view_pages(d, vc, hc).contains(q) && !f3.contains(q)) by {
                    assert(result_pages(result, d2, hc).contains(q));
                }
                assert forall|q: PageId| #[trigger] view_pages(d2, rv, hc).contains(q) implies (txn.log.allocated().contains(q)
                    && !pages_of(d, id, h).contains(q)) || (view_pages(d, vc, hc).contains(q) && !f3.contains(q)) by {
                    assert(result_pages(result, d2, hc).contains(q));
                }
                assert forall|p: PageId| #[trigger] pages_of(d, id, h).contains(p) implies d4.contains_key(p)
                    == d.contains_key(p) && d4[p] == d[p] by {
                    assert(p != lid && p != rid);
                }
                assert(d4 == d2.insert(lid, d4[lid]).insert(rid, d4[rid]));
                crate::page::internal::lemma_spliced_sorted(ks, i, sep);
                lemma_rebuilt_split(
                    d, d2, d4, id, ks, cs, h, lo, hi, ps, i, sep, lid, rid, lv, rv, txn.log.allocated(), f0, f3,
                    key, val,
                );
            }
            if grown.nbytes() <= page_size {
                InsertResult::Single(Page::Internal(grown))
            } else {
                proof {
                    let ks2 = spliced_keys(ks, i, sep);
                    assert(grown.view_keys() == ks2);
                    assert(grown.view_children().len() == cs.len() + 1);
                    assert(11 + keys_size(ks2) + 8 * (cs.len() + 1) > ps);
                    lemma_grown_splittable(ks2, (cs.len() + 1) as nat, ps, lo, hi);
                    assert(keys_size(ks2) == keys_size(ks) + 2 + sep.len()) by {
                        crate::page::internal::lemma_enc_keys_append(ks.take(i).push(sep), ks.skip(i));
                        crate::page::internal::lemma_enc_keys_append(ks.take(i), seq![sep]);
                        crate::page::internal::lemma_enc_keys_single(sep);
                        assert(ks.take(i).push(sep) =~= ks.take(i) + seq![sep]);
                        assert(ks =~= ks.take(i) + ks.skip(i));
                        crate::page::internal::lemma_enc_keys_append(ks.take(i), ks.skip(i));
                    }
                }
                let (l2, promoted, r2) = internal_split_with_promotion(grown, page_size);
                proof {
                    let d4 = txn.disk();
                    let ks2 = spliced_keys(ks, i, sep);
                    let cs2 = spliced_children(cs, i, lid, rid);
                    let m = choose|m: int|
                        1 <= m <= ks2.len() - 2 && l2.view_keys() == ks2.take(m) && promoted@ == ks2[m]
                            && r2.view_keys() == ks2.skip(m + 1) && l2.view_children() == cs2.take(m + 1)
                            && r2.view_children() == cs2.skip(m + 1);
                    crate::storage::shape::lemma_split_internal(d4, ks2, cs2, h, lo, hi, ps, m);
                    let res = InsertResult::Split {
                        left: Page::Internal(l2),
                        sep_key: promoted,
                        right: Page::Internal(r2),
                    };
                    assert(view_pages(d4, Page::Internal(l2).view(), h).disjoint(
                        view_pages(d4, Page::Internal(r2).view(), h),
                    ));
                    assert(result_ok(res, d4, h, lo, hi, ps, d, v, key, val));
                    assert forall|q: PageId| #[trigger] result_pages(res, d4, h).contains(q) implies view_pages(
                        d4,
                        gv,
                        h,
                    ).contains(q) by {}
                }
                InsertResult::Split {
                    left: Page::Internal(l2),
                    sep_key: promoted,
                    right: Page::Internal(r2),
                }
            }
        },
    }
}


/// Writes the rebuilt root — or, if the root split, both halves and a
/// brand new, always-minimal root over them (one key, two children),
/// growing the tree by one level — and returns the page of the new root.
#[verifier::rlimit(60)]
fn install_root<IO: PageIo>(
    txn: &mut WriteTxn<IO>,
    result: InsertResult,
    page_size: usize,
    Ghost(key): Ghost<Seq<u8>>,
    Ghost(val): Ghost<Seq<u8>>,
    Ghost(vr): Ghost<PageView>,
    Ghost(h): Ghost<nat>,
) -> (new_root: PageId)
    requires
        old(txn).wf(),
        page_size == old(txn).st().spec_page_size(),
        h >= 1,
        result_ok(result, old(txn).disk(), h, None, None, page_size as nat, old(txn).st().disk(), vr, key, val),
        forall|q: PageId| #[trigger]
            result_pages(result, old(txn).disk(), h).contains(q) ==> old(txn).usable(q),
        old(txn).st().spec_next_page_id() + 3 <= u64::MAX,
    ensures
        final(txn).wf(),
        final(txn).st().same_tree(&old(txn).st()),
        final(txn).st().spec_free_list().is_prefix_of(old(txn).st().spec_free_list()),
        final(txn).st().spec_next_page_id() <= old(txn).st().spec_next_page_id() + 3,
        took_at_most(old(txn).st(), final(txn).st(), 3),
        final(txn).log.freed_view() == old(txn).log.freed_view(),
        exists|h2: nat|
            h2 <= h + 1 && final(txn).ready(new_root, h2) && forall|k: Seq<u8>| #[trigger]
                tree_get(final(txn).disk(), new_root, h2, k) == inserted(old(txn).st().disk(), vr, h, key, val, k),
        *final(final(txn).store) == *final(old(txn).store),
{
    let ghost d = txn.st().disk();
    let ghost d2 = txn.disk();
    let ghost ps = page_size as nat;
    let ghost a2 = txn.log.allocated();
    let ghost fl0 = txn.st().spec_free_list();
    proof {
        txn.lemma_wf_facts();
        txn.st().lemma_inv_facts();
    }
    match result {
        InsertResult::Single(node) => {
            proof {
                assert(node.spec_nbytes() == crate::storage::model::view_nbytes(node.view()));
            }
            let id = txn.allocate();
            txn.write(id, node);
            proof {
                let td = txn.disk();
                let nv = node.view();
                assert(!view_pages(d2, nv, h).contains(id)) by {
                    if view_pages(d2, nv, h).contains(id) {
                        assert(result_pages(result, d2, h).contains(id));
                    }
                }
                assert(agree_on(d2, td, view_pages(d2, nv, h)));
                lemma_view_frame(d2, td, nv, h, None, None, ps);
                assert(subtree_ok(td, id, h, None, None, ps));
                assert(pages_of(td, id, h) == set![id].union(view_pages(td, nv, h)));
                assert forall|p: PageId| #[trigger] pages_of(td, id, h).contains(p) implies txn.usable(p) by {
                    if p != id {
                        assert(result_pages(result, d2, h).contains(p));
                    }
                }
                assert(txn.ready(id, h));
                assert forall|k: Seq<u8>| #[trigger] tree_get(td, id, h, k) == inserted(d, vr, h, key, val, k) by {
                    assert(tree_get(td, id, h, k) == view_get(td, nv, h, k));
                }
            }
            id
        },
        InsertResult::Split { left, sep_key, right } => {
            proof {
                assert(left.spec_nbytes() == crate::storage::model::view_nbytes(left.view()));
                assert(right.spec_nbytes() == crate::storage::model::view_nbytes(right.view()));
            }
            let lid = txn.allocate();
            txn.write(lid, left);
            let ghost fll = txn.st().spec_free_list();
            let rid = txn.allocate();
            txn.write(rid, right);
            let ghost flr = txn.st().spec_free_list();
            let ghost d4 = txn.disk();
            let ghost a4 = txn.log.allocated();
            let ghost sep = sep_key@;
            let ghost lv = left.view();
            let ghost rv = right.view();
            proof {
                lemma_prefix_trans(flr, fll, fl0);
                assert(!view_pages(d2, lv, h).contains(lid) && !view_pages(d2, lv, h).contains(rid)
                    && !view_pages(d2, rv, h).contains(lid) && !view_pages(d2, rv, h).contains(rid)) by {
                    if view_pages(d2, lv, h).contains(lid) || view_pages(d2, rv, h).contains(lid) {
                        assert(result_pages(result, d2, h).contains(lid));
                    }
                    if view_pages(d2, lv, h).contains(rid) || view_pages(d2, rv, h).contains(rid) {
                        assert(result_pages(result, d2, h).contains(rid));
                    }
                }
                assert(agree_on(d2, d4, view_pages(d2, lv, h)));
                assert(agree_on(d2, d4, view_pages(d2, rv, h)));
                lemma_view_frame(d2, d4, lv, h, None, Some(sep), ps);
                lemma_view_frame(d2, d4, rv, h, Some(sep), None, ps);
                assert(subtree_ok(d4, lid, h, None, Some(sep), ps));
                assert(subtree_ok(d4, rid, h, Some(sep), None, ps));
                assert(pages_of(d4, lid, h) == set![lid].union(view_pages(d4, lv, h)));
                assert(pages_of(d4, rid, h) == set![rid].union(view_pages(d4, rv, h)));
                assert(pages_of(d4, lid, h).disjoint(pages_of(d4, rid, h)));
                crate::storage::shape::lemma_new_root(d4, sep, lid, rid, h, ps);
                assert(keys_size(Seq::<Seq<u8>>::empty()) == 0);
                // every page under the two halves may be published
                assert forall|p: PageId| #[trigger] pages_of(d4, lid, h).contains(p) || pages_of(d4, rid, h).contains(p)
                    implies a4.contains(p) || (txn.st().tree_pages().contains(p) && !txn.log.freed_view().contains(p)) by {
                    if p != lid && p != rid {
                        assert(view_pages(d2, lv, h).contains(p) || view_pages(d2, rv, h).contains(p));
                        assert(result_pages(result, d2, h).contains(p));
                    }
                }
            }
            let mut root = InternalNode::empty(page_size);
            root.push_key(sep_key.as_slice());
            root.push_child(lid);
            root.push_child(rid);
            let id = txn.allocate();
            let ghost rootv = crate::storage::shape::two_child_node(sep, lid, rid);
            proof {
                lemma_prefix_trans(txn.st().spec_free_list(), flr, fl0);
                assert(root.view_keys() =~= seq![sep]);
                assert(root.view_children() =~= seq![lid, rid]);
                assert(Page::Internal(root).view() == rootv);
                crate::page::internal::lemma_enc_keys_single(sep);
                assert(Page::Internal(root).spec_nbytes() == crate::storage::model::view_nbytes(rootv));
                assert(!a4.contains(id));
                txn.lemma_wf_facts();
                assert(!view_pages(d4, rootv, h + 1).contains(id)) by {
                    if view_pages(d4, rootv, h + 1).contains(id) {
                        assert(pages_of(d4, lid, h).contains(id) || pages_of(d4, rid, h).contains(id));
                    }
                }
            }
            txn.write(id, Page::Internal(root));
            proof {
                let td = txn.disk();
                assert(agree_on(d4, td, view_pages(d4, rootv, h + 1))) by {
                    assert forall|p: PageId| #[trigger] view_pages(d4, rootv, h + 1).contains(p) implies d4.contains_key(p)
                        == td.contains_key(p) && d4[p] == td[p] by {
                        assert(p != id);
                    }
                }
                lemma_view_frame(d4, td, rootv, h + 1, None, None, ps);
                assert(subtree_ok(td, id, h + 1, None, None, ps));
                assert(pages_of(td, id, h + 1) == set![id].union(view_pages(td, rootv, h + 1)));
                assert forall|p: PageId| #[trigger] pages_of(td, id, h + 1).contains(p) implies txn.usable(p) by {
                    if p != id {
                        assert(pages_of(d4, lid, h).contains(p) || pages_of(d4, rid, h).contains(p));
                    }
                }
                assert(txn.ready(id, h + 1));
                assert forall|k: Seq<u8>| #[trigger] tree_get(td, id, h + 1, k) == inserted(d, vr, h, key, val, k) by {
                    assert(tree_get(td, id, h + 1, k) == view_get(td, rootv, h + 1, k));
                    assert(tree_get(d4, lid, h, k) == view_get(d4, lv, h, k));
                    assert(tree_get(d4, rid, h, k) == view_get(d4, rv, h, k));
                    crate::page::keys::lemma_lex_total(k, sep);
                    if !lex_lt(k, sep) {
                        assert(lex_le(sep, k));
                    }
                }
            }
            id
        },
    }
}

/// Inserts or upserts a key, copying every node on the root-to-leaf path
/// and growing the tree by one level if the root splits, then commits.
/// An empty root leaf needs no special-casing: `leaf_search` on zero
/// entries returns `Err(0)`, the only possible insertion point, so the
/// very first `put` goes through the same path every later one uses.
#[verifier::rlimit(60)]
pub fn put<IO: PageIo>(txn: &mut WriteTxn<IO>, key: &[u8], val: &[u8]) -> (r: Result<(), Error>)
    requires
        old(txn).wf(),
        old(txn).log.freed_view() == Seq::<PageId>::empty(),
        key@.len() + val@.len() <= usize::MAX,
        old(txn).st().spec_next_page_id() + 3 * old(txn).st().spec_height() + old(
            txn,
        ).st().payload().len() + 1 <= u64::MAX,
    ensures
        r is Ok <==> key@.len() + val@.len() <= spec_max_kv_size(old(txn).st().spec_page_size()),
        r matches Err(Error::EntryTooLarge { len, max }) ==> len == key@.len() + val@.len() && max
            == spec_max_kv_size(old(txn).st().spec_page_size()),
        r is Err ==> final(txn).st() == old(txn).st() && final(txn).log == old(txn).log,
        r is Ok ==> final(txn).st().inv(),
        r is Ok ==> final(txn).st().view() == old(txn).st().view().insert(key@, val@),
        r is Ok ==> final(txn).st().spec_page_size() == old(txn).st().spec_page_size(),
        r is Ok ==> final(txn).st().spec_readers() == old(txn).st().spec_readers(),
        r is Ok ==> final(txn).st().durable_free_ids() == final(txn).st().payload(),
        r is Ok ==> final(txn).st().spec_height() <= old(txn).st().spec_height() + 1,
        r is Ok ==> exists|k: int, fr: Seq<PageId>|
            #![trigger old(txn).st().spec_free_list().take(k), fr.len()]
            0 <= k <= old(txn).st().spec_free_list().len() && fr.len() == old(txn).st().spec_height()
                && no_dup(fr) && (forall|i: int|
                0 <= i < fr.len() ==> old(txn).st().tree_pages().contains(#[trigger] fr[i])
                    && !final(txn).st().tree_pages().contains(fr[i])) && final(txn).st().payload() == old(
                txn,
            ).st().spec_free_list().take(k) + old(txn).st().spec_pending_free() + fr,
        r is Ok ==> final(txn).st().payload().len() <= old(txn).st().payload().len() + old(
            txn,
        ).st().spec_height(),
        r is Ok ==> final(txn).st().spec_next_page_id() <= old(txn).st().spec_next_page_id() + 2
            * old(txn).st().spec_height() + 1 + final(txn).st().payload().len(),
        r is Ok && old(txn).st().spec_free_list().len() >= 2 * old(txn).st().spec_height() + 1
            && pages_needed(final(txn).st().payload().len(), chain_cap(old(txn).st().spec_page_size()))
            <= old(txn).st().spec_chain().len() ==> final(txn).st().spec_next_page_id() == old(
            txn,
        ).st().spec_next_page_id(),
        r is Ok ==> forall|t: (PageId, nat)| #[trigger]
            old(txn).st().snapshots().contains(t) ==> final(txn).st().snapshots().contains(t)
                && final(txn).st().snapshot_view(t) == old(txn).st().snapshot_view(t),
        r is Ok && old(txn).st().spec_readers() == 0 ==> final(txn).st().spec_pending_free() == Seq::<
            PageId,
        >::empty(),
        r is Ok && old(txn).st().spec_readers() > 0 ==> final(txn).st().spec_free_list().is_prefix_of(
            old(txn).st().spec_free_list(),
        ) && old(txn).st().spec_pending_free().is_prefix_of(final(txn).st().spec_pending_free()),
        *final(final(txn).store) == *final(old(txn).store),
{
    let page_size = txn.page_size();
    match check_limits(page_size, key, val) {
        Err(e) => {
            return Err(e);
        },
        Ok(()) => {},
    }
    let ghost d = txn.st().disk();
    let ghost ps = page_size as nat;
    let ghost h = txn.st().spec_height();
    let root_id = txn.root();
    let ghost vr = node_at(d, root_id).unwrap();
    proof {
        txn.lemma_wf_facts();
        txn.st().lemma_inv_facts();
        crate::storage::model::lemma_pages_finite(d, root_id, h, None, None, ps);
        txn.lemma_disk_outside_allocated(root_id);
        match vr {
            PageView::Leaf(m) => assert(leaf_ok(m, None, None, ps)),
            PageView::Internal(ks3, cs3) => assert(crate::storage::model::keys_ok(ks3, None, None, ps)),
        }
        assert(decodable(root_id, read_disk(txn.disk(), root_id, ps)));
        assert(pages_of(d, root_id, h) == set![root_id].union(view_pages(d, vr, h)));
    }
    let result = match txn.read(root_id) {
        Page::Leaf(l) => {
            proof {
                assert(vr == PageView::Leaf(l.view_entries()));
            }
            insert_leaf(&l, key, val, page_size, Ghost(txn.disk()), Ghost(d), Ghost(None), Ghost(None))
        },
        Page::Internal(n) => {
            proof {
                assert(vr == PageView::Internal(n.view_keys(), n.view_children()));
            }
            insert_internal(txn, &n, key, val, page_size, Ghost(root_id), Ghost(h), Ghost(None), Ghost(None))
        },
    };
    let ghost d2 = txn.disk();
    let ghost fl1 = txn.st().spec_free_list();
    proof {
        txn.lemma_wf_facts();
        assert(!view_pages(d, vr, h).contains(root_id));
        assert(!txn.log.freed_view().contains(root_id));
    }
    txn.free(root_id);
    proof {
        assert forall|q: PageId| #[trigger] result_pages(result, d2, h).contains(q) implies txn.usable(q) by {
            if !txn.log.allocated().contains(q) {
                assert(view_pages(d, vr, h).contains(q));
                assert(pages_of(d, root_id, h).contains(q));
            }
        }
    }
    let new_root = install_root(txn, result, page_size, Ghost(key@), Ghost(val@), Ghost(vr), Ghost(h));
    let ghost td = txn.disk();
    let ghost h2 = choose|hh: nat|
        hh <= h + 1 && txn.ready(new_root, hh) && forall|k: Seq<u8>| #[trigger]
            tree_get(td, new_root, hh, k) == inserted(d, vr, h, key@, val@, k);
    proof {
        let fl0 = old(txn).st().spec_free_list();
        if vr is Leaf {
            assert(fl1 =~= fl0);
        }
        assert(fl1.is_prefix_of(fl0));
        lemma_prefix_trans(txn.st().spec_free_list(), fl1, fl0);
        assert(txn.st().payload().len() <= old(txn).st().payload().len());
    }
    let ghost fl_pre = txn.st().spec_free_list();
    let ghost fr = txn.log.freed_view();
    proof {
        txn.lemma_wf_facts();
    }
    txn.commit(new_root);
    proof {
        let s1 = txn.st();
        let fl0 = old(txn).st().spec_free_list();
        let k = fl_pre.len() as int;
        assert(fl_pre =~= fl0.take(k));
        s1.lemma_inv_facts();
        assert(s1.payload() =~= fl0.take(k) + old(txn).st().spec_pending_free() + fr);
        assert forall|i: int| 0 <= i < fr.len() implies old(txn).st().tree_pages().contains(#[trigger] fr[i])
            && !s1.tree_pages().contains(fr[i]) by {
            let j = fl0.take(k).len() + old(txn).st().spec_pending_free().len() + i;
            assert(s1.payload()[j] == fr[i]);
        }
        assert(fr.len() == h);
        assert(0 <= k <= fl0.len() && fr.len() == old(txn).st().spec_height() && no_dup(fr));
        assert(s1.payload() == fl0.take(k) + old(txn).st().spec_pending_free() + fr);
        crate::storage::model::lemma_height_unique(td, new_root, s1.spec_height(), h2, None, None, None, None, ps);
        assert(s1.view() =~= old(txn).st().view().insert(key@, val@)) by {
            assert forall|k: Seq<u8>| #[trigger] s1.view().contains_key(k) == old(txn).st().view().insert(
                key@,
                val@,
            ).contains_key(k) && (s1.view().contains_key(k) ==> s1.view()[k] == old(txn).st().view().insert(
                key@,
                val@,
            )[k]) by {
                assert(tree_get(td, new_root, h2, k) == inserted(d, vr, h, key@, val@, k));
                assert(view_get(d, vr, h, k) == tree_get(d, root_id, h, k));
            }
        }
    }
    Ok(())
}


/// Returns the value for `key`, or `None` if absent or the store is
/// empty (an empty root leaf's `leaf_search` naturally returns `Err(0)`,
/// which maps to `None`). Reads only through the reader `view`.
pub fn get<IO: PageIo>(store: &Store<IO>, view: &ReadGuard, key: &[u8]) -> (r: Option<Vec<u8>>)
    requires
        store.inv(),
    ensures
        match r {
            Some(v) => store.view().contains_key(key@) && store.view()[key@] == v@,
            None => !store.view().contains_key(key@),
        },
{
    let ghost d = store.disk();
    let ghost ps = store.spec_page_size();
    let ghost height = store.spec_height();
    let root = view.root(store);
    proof {
        store.lemma_inv_facts();
        lemma_lex_order();
    }
    let ghost mut id = root;
    let ghost mut h = height;
    let ghost mut lo: Option<Seq<u8>> = None;
    let ghost mut hi: Option<Seq<u8>> = None;
    proof {
        let v = node_at(d, id).unwrap();
        match v {
            PageView::Leaf(m) => assert(leaf_ok(m, lo, hi, ps)),
            PageView::Internal(ks3, cs3) => assert(crate::storage::model::keys_ok(ks3, lo, hi, ps)),
        }
    }
    let mut page = view.read(store, root);
    loop
        invariant
            d == store.disk(),
            ps == store.spec_page_size(),
            page_size_ok(ps),
            subtree_ok(d, id, h, lo, hi, ps),
            page.wf(),
            page.view() == node_at(d, id).unwrap(),
            tree_get(d, id, h, key@) == tree_get(d, root, height, key@),
            store.view() == tree_map(d, root, height),
        decreases h,
    {
        match page {
            Page::Leaf(l) => {
                let ghost m = l.view_entries();
                proof {
                    l.lemma_wf_facts();
                    assert(tree_get(d, id, h, key@) == crate::storage::model::leaf_lookup(m, key@));
                }
                match leaf_search(&l, key) {
                    Ok(idx) => {
                        proof {
                            crate::storage::shape::lemma_leaf_lookup_at(m, key@, idx as int);
                        }
                        return Some(to_vec(l.get_val(idx)));
                    },
                    Err(_) => {
                        return None;
                    },
                }
            },
            Page::Internal(n) => {
                let ghost ks = n.view_keys();
                let ghost cs = n.view_children();
                proof {
                    n.lemma_wf_facts();
                }
                let idx = internal_child_index(&n, key);
                let child = n.get_child(idx);
                proof {
                    lemma_child_slot(ks, key@);
                    let i = idx as int;
                    assert(h > 1);
                    assert(tree_get(d, id, h, key@) == tree_get(d, child, (h - 1) as nat, key@));
                    assert(subtree_ok(d, child, (h - 1) as nat, child_lo(ks, lo, i), child_hi(ks, hi, i), ps));
                    let vc = node_at(d, child).unwrap();
                    match vc {
                        PageView::Leaf(m) => assert(leaf_ok(m, child_lo(ks, lo, i), child_hi(ks, hi, i), ps)),
                        PageView::Internal(ks3, cs3) => assert(crate::storage::model::keys_ok(
                            ks3,
                            child_lo(ks, lo, i),
                            child_hi(ks, hi, i),
                            ps,
                        )),
                    }
                    lo = child_lo(ks, lo, i);
                    hi = child_hi(ks, hi, i);
                    id = child;
                    h = (h - 1) as nat;
                }
                page = view.read(store, child);
            },
        }
    }
}

} // verus!
