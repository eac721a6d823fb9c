//! The abstract meaning of the pages on a disk: which pages form a
//! well-shaped B+Tree and which key-value map that tree holds.
use vstd::prelude::*;

use crate::io::PageId;
use crate::page::internal::{covers, keys_fit_u16, keys_size, keys_sorted};
use crate::page::keys::{lex_le, lex_lt};
use crate::page::leaf::{entries_fit_u16, entries_size, entries_sorted, found_at, LeafEntry};
use crate::page::{parse_page, spec_max_kv_size, PageView};

verus! {

/// Pages written so far, by id.
pub type Disk = Map<PageId, Seq<u8>>;

/// The tree node stored at `id`: present when `id` holds a tree page
/// stamped with its own id.
pub open spec fn node_at(d: Disk, id: PageId) -> Option<PageView> {
    if d.contains_key(id) {
        match parse_page(d[id]) {
            Some((pid, v)) => if pid == id {
                Some(v)
            } else {
                None
            },
            None => None,
        }
    } else {
        None
    }
}

/// `k` is at or above the lower bound `lo` (none = unbounded).
pub open spec fn above(k: Seq<u8>, lo: Option<Seq<u8>>) -> bool {
    lo is None || lex_le(lo.unwrap(), k)
}

/// `k` is strictly above the lower bound `lo`.
pub open spec fn strictly_above(k: Seq<u8>, lo: Option<Seq<u8>>) -> bool {
    lo is None || lex_lt(lo.unwrap(), k)
}

/// `k` is strictly below the upper bound `hi` (none = unbounded).
pub open spec fn below(k: Seq<u8>, hi: Option<Seq<u8>>) -> bool {
    hi is None || lex_lt(k, hi.unwrap())
}

/// Lower bound of the keys under child `i`.
pub open spec fn child_lo(ks: Seq<Seq<u8>>, lo: Option<Seq<u8>>, i: int) -> Option<Seq<u8>> {
    if i == 0 {
        lo
    } else {
        Some(ks[i - 1])
    }
}

/// Upper bound of the keys under child `i`.
pub open spec fn child_hi(ks: Seq<Seq<u8>>, hi: Option<Seq<u8>>, i: int) -> Option<Seq<u8>> {
    if i == ks.len() {
        hi
    } else {
        Some(ks[i])
    }
}

/// A leaf's entries: sorted, inside `[lo, hi)`, each within the per-entry
/// limit, and the whole fitting one page.
pub open spec fn leaf_ok(m: Seq<LeafEntry>, lo: Option<Seq<u8>>, hi: Option<Seq<u8>>, ps: nat) -> bool {
    &&& entries_sorted(m)
    &&& entries_fit_u16(m)
    &&& forall|i: int| 0 <= i < m.len() ==> above(#[trigger] m[i].0, lo) && below(m[i].0, hi)
    &&& forall|i: int| 0 <= i < m.len() ==> (#[trigger] m[i]).0.len() + m[i].1.len() <= spec_max_kv_size(ps)
    &&& 11 + entries_size(m) <= ps
}

/// Separator keys: sorted, strictly inside `(lo, hi)`, each within the
/// per-entry limit.
pub open spec fn keys_ok(ks: Seq<Seq<u8>>, lo: Option<Seq<u8>>, hi: Option<Seq<u8>>, ps: nat) -> bool {
    &&& keys_sorted(ks)
    &&& keys_fit_u16(ks)
    &&& forall|i: int| 0 <= i < ks.len() ==> strictly_above(#[trigger] ks[i], lo) && below(ks[i], hi)
    &&& forall|i: int| 0 <= i < ks.len() ==> (#[trigger] ks[i]).len() <= spec_max_kv_size(ps)
}

/// The subtree at `id` is a well-shaped B+Tree of height `h` holding keys
/// in `[lo, hi)`, on pages of `ps` bytes, and no page is used twice.
pub open spec fn subtree_ok(
    d: Disk,
    id: PageId,
    h: nat,
    lo: Option<Seq<u8>>,
    hi: Option<Seq<u8>>,
    ps: nat,
) -> bool
    decreases h, 2nat,
{
    match node_at(d, id) {
        Some(v) => d[id].len() == ps && view_ok(d, v, h, lo, hi, ps) && !view_pages(d, v, h).contains(id),
        None => false,
    }
}

/// A node (held in memory or on a page) heads a well-shaped subtree,
/// the node's own size aside.
pub open spec fn shape_ok(
    d: Disk,
    v: PageView,
    h: nat,
    lo: Option<Seq<u8>>,
    hi: Option<Seq<u8>>,
    ps: nat,
) -> bool
    decreases h, 0nat,
{
    match v {
        PageView::Leaf(m) => h == 1 && leaf_ok(m, lo, hi, ps),
        PageView::Internal(ks, cs) => {
            if h <= 1 {
                false
            } else {
                &&& keys_ok(ks, lo, hi, ps)
                &&& cs.len() == ks.len() + 1
                &&& forall|i: int|
                    0 <= i < cs.len() ==> subtree_ok(
                        d,
                        #[trigger] cs[i],
                        (h - 1) as nat,
                        child_lo(ks, lo, i),
                        child_hi(ks, hi, i),
                        ps,
                    )
                &&& forall|i: int, j: int|
                    0 <= i < j < cs.len() ==> pages_of(d, #[trigger] cs[i], (h - 1) as nat).disjoint(
                        pages_of(d, #[trigger] cs[j], (h - 1) as nat),
                    )
            }
        },
    }
}

/// Serialized size of a node.
pub open spec fn view_nbytes(v: PageView) -> nat {
    match v {
        PageView::Leaf(m) => 11 + entries_size(m),
        PageView::Internal(ks, cs) => 11 + keys_size(ks) + 8 * cs.len(),
    }
}

/// `shape_ok`, and the node itself fits a page.
pub open spec fn view_ok(
    d: Disk,
    v: PageView,
    h: nat,
    lo: Option<Seq<u8>>,
    hi: Option<Seq<u8>>,
    ps: nat,
) -> bool
    decreases h, 1nat,
{
    shape_ok(d, v, h, lo, hi, ps) && view_nbytes(v) <= ps
}

/// Every page of the subtree at `id`, `id` included.
pub open spec fn pages_of(d: Disk, id: PageId, h: nat) -> Set<PageId>
    decreases h, 2nat, 0nat,
{
    match node_at(d, id) {
        Some(v) => set![id].union(view_pages(d, v, h)),
        None => set![id],
    }
}

/// Every page below a node.
pub open spec fn view_pages(d: Disk, v: PageView, h: nat) -> Set<PageId>
    decreases h, 1nat, 0nat,
{
    match v {
        PageView::Leaf(_) => Set::empty(),
        PageView::Internal(_, cs) => if h <= 1 {
            Set::empty()
        } else {
            children_pages(d, cs, (h - 1) as nat)
        },
    }
}

/// Every page of the subtrees at `cs`, each of height `hc`.
pub open spec fn children_pages(d: Disk, cs: Seq<PageId>, hc: nat) -> Set<PageId>
    decreases hc, 3nat, cs.len(),
{
    if cs.len() == 0 {
        Set::empty()
    } else {
        children_pages(d, cs.drop_last(), hc).union(pages_of(d, cs.last(), hc))
    }
}

/// The value stored under `key` in a leaf.
pub open spec fn leaf_lookup(m: Seq<LeafEntry>, key: Seq<u8>) -> Option<Seq<u8>> {
    if exists|i: int| found_at(m, key, i) {
        Some(m[choose|i: int| found_at(m, key, i)].1)
    } else {
        None
    }
}

/// The child slot whose range holds `key`.
pub open spec fn child_slot(ks: Seq<Seq<u8>>, key: Seq<u8>) -> int {
    choose|i: int| covers(ks, key, i)
}

/// The value stored under `key` below a node.
pub open spec fn view_get(d: Disk, v: PageView, h: nat, key: Seq<u8>) -> Option<Seq<u8>>
    decreases h, 1nat,
{
    match v {
        PageView::Leaf(m) => leaf_lookup(m, key),
        PageView::Internal(ks, cs) => if h <= 1 {
            None
        } else {
            tree_get(d, cs[child_slot(ks, key)], (h - 1) as nat, key)
        },
    }
}

/// The value stored under `key` in the subtree at `id`.
pub open spec fn tree_get(d: Disk, id: PageId, h: nat, key: Seq<u8>) -> Option<Seq<u8>>
    decreases h, 2nat,
{
    match node_at(d, id) {
        Some(v) => view_get(d, v, h, key),
        None => None,
    }
}

/// The key-value map held by the tree rooted at `root`.
pub open spec fn tree_map(d: Disk, root: PageId, h: nat) -> Map<Seq<u8>, Seq<u8>> {
    Map::new(|k: Seq<u8>| tree_get(d, root, h, k) is Some, |k: Seq<u8>| tree_get(d, root, h, k).unwrap())
}

/// `d2` holds the same bytes as `d1` on every page of `s`.
pub open spec fn agree_on(d1: Disk, d2: Disk, s: Set<PageId>) -> bool {
    forall|p: PageId| #[trigger] s.contains(p) ==> d1.contains_key(p) == d2.contains_key(p) && d1[p] == d2[p]
}

proof fn lemma_covers_exists(ks: Seq<Seq<u8>>, key: Seq<u8>) -> (i: int)
    requires
        keys_sorted(ks),
    ensures
        covers(ks, key, i),
    decreases ks.len(),
{
    if ks.len() == 0 {
        0
    } else {
        let ks2 = ks.drop_last();
        assert(keys_sorted(ks2)) by {
            assert forall|a: int, b: int| 0 <= a < b < ks2.len() implies lex_lt(#[trigger] ks2[a], #[trigger] ks2[b]) by {
                assert(ks2[a] == ks[a] && ks2[b] == ks[b]);
            }
        }
        let i2 = lemma_covers_exists(ks2, key);
        let last = ks.len() - 1;
        if i2 < ks2.len() {
            assert(lex_lt(key, ks2[i2]));
            assert(lex_lt(ks[i2], ks[last]));
            crate::page::keys::lemma_lex_transitive(key, ks[i2], ks[last]);
            assert forall|j: int| 0 <= j < i2 implies lex_le(#[trigger] ks[j], key) by {
                assert(ks[j] == ks2[j]);
            }
            assert forall|j: int| i2 <= j < ks.len() implies lex_lt(key, #[trigger] ks[j]) by {
                if j < last {
                    assert(ks[j] == ks2[j]);
                }
            }
            i2
        } else {
            crate::page::keys::lemma_lex_total(ks[last], key);
            if lex_le(ks[last], key) {
                assert forall|j: int| 0 <= j < ks.len() implies lex_le(#[trigger] ks[j], key) by {
                    if j < last {
                        assert(ks[j] == ks2[j]);
                    }
                }
                ks.len() as int
            } else {
                assert forall|j: int| 0 <= j < i2 implies lex_le(#[trigger] ks[j], key) by {
                    assert(ks[j] == ks2[j]);
                }
                i2
            }
        }
    }
}

/// With sorted separators every key has exactly one child slot.
pub proof fn lemma_child_slot(ks: Seq<Seq<u8>>, key: Seq<u8>)
    requires
        keys_sorted(ks),
    ensures
        covers(ks, key, child_slot(ks, key)),
        0 <= child_slot(ks, key) <= ks.len(),
        forall|i: int| covers(ks, key, i) ==> i == child_slot(ks, key),
{
    let w = lemma_covers_exists(ks, key);
    let s = child_slot(ks, key);
    assert(covers(ks, key, s));
    assert forall|i: int| covers(ks, key, i) implies i == s by {
        if i < s {
            assert(lex_lt(key, ks[i]));
            assert(lex_le(ks[i], key));
            crate::page::keys::lemma_lex_asymmetric(key, ks[i]);
            crate::page::keys::lemma_lex_irreflexive(key);
        } else if s < i {
            assert(lex_lt(key, ks[s]));
            assert(lex_le(ks[s], key));
            crate::page::keys::lemma_lex_asymmetric(key, ks[s]);
            crate::page::keys::lemma_lex_irreflexive(key);
        }
    }
}

pub proof fn lemma_children_pages(d: Disk, cs: Seq<PageId>, hc: nat)
    ensures
        forall|i: int, p: PageId|
            0 <= i < cs.len() && #[trigger] pages_of(d, cs[i], hc).contains(p) ==> children_pages(
                d,
                cs,
                hc,
            ).contains(p),
        forall|p: PageId|
            #[trigger] children_pages(d, cs, hc).contains(p) ==> exists|i: int|
                0 <= i < cs.len() && #[trigger] pages_of(d, cs[i], hc).contains(p),
    decreases cs.len(),
{
    if cs.len() > 0 {
        let cs2 = cs.drop_last();
        lemma_children_pages(d, cs2, hc);
        assert(children_pages(d, cs, hc) == children_pages(d, cs2, hc).union(pages_of(d, cs.last(), hc)));
        assert forall|i: int, p: PageId|
            0 <= i < cs.len() && #[trigger] pages_of(d, cs[i], hc).contains(p) implies children_pages(
                d,
                cs,
                hc,
            ).contains(p) by {
            if i < cs.len() - 1 {
                assert(cs2[i] == cs[i]);
                assert(pages_of(d, cs2[i], hc).contains(p));
            }
        }
        assert forall|p: PageId| #[trigger] children_pages(d, cs, hc).contains(p) implies exists|i: int|
            0 <= i < cs.len() && #[trigger] pages_of(d, cs[i], hc).contains(p) by {
            if children_pages(d, cs2, hc).contains(p) {
                let i = choose|i: int| 0 <= i < cs2.len() && #[trigger] pages_of(d, cs2[i], hc).contains(p);
                assert(cs[i] == cs2[i]);
                assert(pages_of(d, cs[i], hc).contains(p));
            } else {
                assert(pages_of(d, cs[cs.len() - 1], hc).contains(p));
            }
        }
    }
}

/// Children pages of an internal node: the union of its children's pages.
pub proof fn lemma_view_pages_internal(d: Disk, ks: Seq<Seq<u8>>, cs: Seq<PageId>, h: nat)
    requires
        h > 1,
    ensures
        view_pages(d, PageView::Internal(ks, cs), h) == children_pages(d, cs, (h - 1) as nat),
        forall|i: int, p: PageId|
            0 <= i < cs.len() && #[trigger] pages_of(d, cs[i], (h - 1) as nat).contains(p) ==> view_pages(
                d,
                PageView::Internal(ks, cs),
                h,
            ).contains(p),
        forall|p: PageId|
            #[trigger] view_pages(d, PageView::Internal(ks, cs), h).contains(p) ==> exists|i: int|
                0 <= i < cs.len() && #[trigger] pages_of(d, cs[i], (h - 1) as nat).contains(p),
{
    lemma_children_pages(d, cs, (h - 1) as nat);
}

/// A subtree only looks at its own pages: another disk that agrees on
/// them gives the same shape, pages and lookups.
pub proof fn lemma_subtree_frame(
    d1: Disk,
    d2: Disk,
    id: PageId,
    h: nat,
    lo: Option<Seq<u8>>,
    hi: Option<Seq<u8>>,
    ps: nat,
)
    requires
        subtree_ok(d1, id, h, lo, hi, ps),
        agree_on(d1, d2, pages_of(d1, id, h)),
    ensures
        subtree_ok(d2, id, h, lo, hi, ps),
        pages_of(d2, id, h) == pages_of(d1, id, h),
        forall|k: Seq<u8>| tree_get(d2, id, h, k) == tree_get(d1, id, h, k),
    decreases h, 2nat,
{
    assert(pages_of(d1, id, h).contains(id));
    assert(node_at(d2, id) == node_at(d1, id));
    let v = node_at(d1, id).unwrap();
    assert(pages_of(d1, id, h) == set![id].union(view_pages(d1, v, h)));
    assert(agree_on(d1, d2, view_pages(d1, v, h))) by {
        assert forall|p: PageId| #[trigger] view_pages(d1, v, h).contains(p) implies d1.contains_key(p)
            == d2.contains_key(p) && d1[p] == d2[p] by {
            assert(pages_of(d1, id, h).contains(p));
        }
    }
    lemma_view_frame(d1, d2, v, h, lo, hi, ps);
    assert(pages_of(d2, id, h) == set![id].union(view_pages(d2, v, h)));
    assert forall|k: Seq<u8>| tree_get(d2, id, h, k) == tree_get(d1, id, h, k) by {
        assert(tree_get(d2, id, h, k) == view_get(d2, v, h, k));
        assert(tree_get(d1, id, h, k) == view_get(d1, v, h, k));
    }
}

/// Node-level form of `lemma_subtree_frame`.
pub proof fn lemma_view_frame(
    d1: Disk,
    d2: Disk,
    v: PageView,
    h: nat,
    lo: Option<Seq<u8>>,
    hi: Option<Seq<u8>>,
    ps: nat,
)
    requires
        shape_ok(d1, v, h, lo, hi, ps),
        agree_on(d1, d2, view_pages(d1, v, h)),
    ensures
        shape_ok(d2, v, h, lo, hi, ps),
        view_pages(d2, v, h) == view_pages(d1, v, h),
        forall|k: Seq<u8>| view_get(d2, v, h, k) == view_get(d1, v, h, k),
    decreases h, 1nat,
{
    match v {
        PageView::Leaf(m) => {},
        PageView::Internal(ks, cs) => {
            let hc = (h - 1) as nat;
            lemma_view_pages_internal(d1, ks, cs, h);
            lemma_view_pages_internal(d2, ks, cs, h);
            assert forall|i: int| 0 <= i < cs.len() implies subtree_ok(
                d2,
                #[trigger] cs[i],
                hc,
                child_lo(ks, lo, i),
                child_hi(ks, hi, i),
                ps,
            ) && pages_of(d2, cs[i], hc) == pages_of(d1, cs[i], hc) && (forall|k: Seq<u8>|
                tree_get(d2, cs[i], hc, k) == tree_get(d1, cs[i], hc, k)) by {
                assert forall|p: PageId| #[trigger] pages_of(d1, cs[i], hc).contains(p) implies view_pages(
                    d1,
                    v,
                    h,
                ).contains(p) by {}
                lemma_subtree_frame(d1, d2, cs[i], hc, child_lo(ks, lo, i), child_hi(ks, hi, i), ps);
            }
            assert(view_pages(d2, v, h) =~= view_pages(d1, v, h));
            assert forall|k: Seq<u8>| view_get(d2, v, h, k) == view_get(d1, v, h, k) by {
                lemma_child_slot(ks, k);
                let s = child_slot(ks, k);
                assert(tree_get(d2, cs[s], hc, k) == tree_get(d1, cs[s], hc, k));
            }
        },
    }
}

proof fn lemma_children_pages_finite(d: Disk, cs: Seq<PageId>, hc: nat)
    requires
        forall|i: int| 0 <= i < cs.len() ==> (#[trigger] pages_of(d, cs[i], hc)).finite(),
    ensures
        children_pages(d, cs, hc).finite(),
    decreases cs.len(),
{
    if cs.len() > 0 {
        let cs2 = cs.drop_last();
        assert forall|i: int| 0 <= i < cs2.len() implies (#[trigger] pages_of(d, cs2[i], hc)).finite() by {
            assert(cs2[i] == cs[i]);
        }
        lemma_children_pages_finite(d, cs2, hc);
        assert(pages_of(d, cs[cs.len() - 1], hc).finite());
    }
}

/// The pages of a well-shaped subtree form a finite set with at least
/// one page per level.
pub proof fn lemma_pages_finite(
    d: Disk,
    id: PageId,
    h: nat,
    lo: Option<Seq<u8>>,
    hi: Option<Seq<u8>>,
    ps: nat,
)
    requires
        subtree_ok(d, id, h, lo, hi, ps),
    ensures
        pages_of(d, id, h).finite(),
        pages_of(d, id, h).len() >= h,
        pages_of(d, id, h).contains(id),
    decreases h,
{
    let v = node_at(d, id).unwrap();
    match v {
        PageView::Leaf(_) => {
            assert(pages_of(d, id, h) =~= set![id]);
        },
        PageView::Internal(ks, cs) => {
            let hc = (h - 1) as nat;
            assert forall|i: int| 0 <= i < cs.len() implies (#[trigger] pages_of(d, cs[i], hc)).finite() by {
                lemma_pages_finite(d, cs[i], hc, child_lo(ks, lo, i), child_hi(ks, hi, i), ps);
            }
            lemma_children_pages_finite(d, cs, hc);
            lemma_view_pages_internal(d, ks, cs, h);
            let cp = children_pages(d, cs, hc);
            lemma_pages_finite(d, cs[0], hc, child_lo(ks, lo, 0), child_hi(ks, hi, 0), ps);
            assert(pages_of(d, cs[0], hc).subset_of(cp));
            vstd::set_lib::lemma_len_subset(pages_of(d, cs[0], hc), cp);
            assert(pages_of(d, id, h) =~= cp.insert(id));
        },
    }
}


/// A page heads subtrees of one height only.
pub proof fn lemma_height_unique(
    d: Disk,
    id: PageId,
    h1: nat,
    h2: nat,
    lo1: Option<Seq<u8>>,
    hi1: Option<Seq<u8>>,
    lo2: Option<Seq<u8>>,
    hi2: Option<Seq<u8>>,
    ps: nat,
)
    requires
        subtree_ok(d, id, h1, lo1, hi1, ps),
        subtree_ok(d, id, h2, lo2, hi2, ps),
    ensures
        h1 == h2,
    decreases h1,
{
    match node_at(d, id).unwrap() {
        PageView::Leaf(_) => {},
        PageView::Internal(ks, cs) => {
            assert(subtree_ok(d, cs[0], (h1 - 1) as nat, child_lo(ks, lo1, 0), child_hi(ks, hi1, 0), ps));
            assert(subtree_ok(d, cs[0], (h2 - 1) as nat, child_lo(ks, lo2, 0), child_hi(ks, hi2, 0), ps));
            lemma_height_unique(
                d,
                cs[0],
                (h1 - 1) as nat,
                (h2 - 1) as nat,
                child_lo(ks, lo1, 0),
                child_hi(ks, hi1, 0),
                child_lo(ks, lo2, 0),
                child_hi(ks, hi2, 0),
                ps,
            );
        },
    }
}

/// The disk seen through a list of buffered page writes, later writes
/// winning.
pub open spec fn overlay(d: Disk, w: Seq<(PageId, Seq<u8>)>) -> Disk
    decreases w.len(),
{
    if w.len() == 0 {
        d
    } else {
        overlay(d, w.drop_last()).insert(w.last().0, w.last().1)
    }
}

/// A page no buffered write touches reads as on the disk below.
pub proof fn lemma_overlay_untouched(d: Disk, w: Seq<(PageId, Seq<u8>)>, p: PageId)
    requires
        forall|i: int| 0 <= i < w.len() ==> (#[trigger] w[i]).0 != p,
    ensures
        overlay(d, w).contains_key(p) == d.contains_key(p),
        overlay(d, w)[p] == d[p],
    decreases w.len(),
{
    if w.len() > 0 {
        let w2 = w.drop_last();
        assert forall|i: int| 0 <= i < w2.len() implies (#[trigger] w2[i]).0 != p by {
            assert(w2[i] == w[i]);
        }
        lemma_overlay_untouched(d, w2, p);
        assert(w[w.len() - 1].0 != p);
    }
}

/// Writes after position `i` that miss `p` do not change what `p` reads.
pub proof fn lemma_overlay_tail_untouched(d: Disk, w: Seq<(PageId, Seq<u8>)>, i: int, p: PageId)
    requires
        0 <= i <= w.len(),
        forall|j: int| i <= j < w.len() ==> (#[trigger] w[j]).0 != p,
    ensures
        overlay(d, w).contains_key(p) == overlay(d, w.take(i)).contains_key(p),
        overlay(d, w)[p] == overlay(d, w.take(i))[p],
    decreases w.len() - i,
{
    if i < w.len() {
        let w2 = w.drop_last();
        assert(w2.take(i) =~= w.take(i));
        assert forall|j: int| i <= j < w2.len() implies (#[trigger] w2[j]).0 != p by {
            assert(w2[j] == w[j]);
        }
        lemma_overlay_tail_untouched(d, w2, i, p);
        assert(w[w.len() - 1].0 != p);
    } else {
        assert(w.take(i) =~= w);
    }
}

/// Writing the entry at position `i` last: `p` reads what entry `i` wrote.
pub proof fn lemma_overlay_hit(d: Disk, w: Seq<(PageId, Seq<u8>)>, i: int)
    requires
        0 <= i < w.len(),
        forall|j: int| i < j < w.len() ==> (#[trigger] w[j]).0 != w[i].0,
    ensures
        overlay(d, w).contains_key(w[i].0),
        overlay(d, w)[w[i].0] == w[i].1,
{
    lemma_overlay_tail_untouched(d, w, i + 1, w[i].0);
    assert(w.take(i + 1).drop_last() =~= w.take(i));
    assert(w.take(i + 1).last() == w[i]);
}

} // verus!
