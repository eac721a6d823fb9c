//! What the dumps of the tree show: every page of the published tree, a
//! node before its children, and the printable form of raw page bytes.
use vstd::prelude::*;

use crate::io::{PageId, PageIo};
use crate::page::{Page, PageView};
use crate::storage::model::{child_hi, child_lo, keys_ok, leaf_ok, node_at, subtree_ok, Disk};
use crate::storage::store::{page_size_ok, ReadGuard, Store};

verus! {

/// The pages of the subtree at `id` (of height `h`) in pre-order, each
/// with its depth, `depth` being that of `id`.
pub open spec fn preorder(d: Disk, id: PageId, h: nat, depth: nat) -> Seq<(PageId, nat)>
    decreases h, 1nat, 0nat,
{
    match node_at(d, id) {
        Some(PageView::Internal(_, cs)) => if h > 1 {
            seq![(id, depth)] + children_preorder(d, cs, (h - 1) as nat, depth + 1)
        } else {
            seq![(id, depth)]
        },
        _ => seq![(id, depth)],
    }
}

/// The pre-orders of the subtrees at `cs`, one after the other.
pub open spec fn children_preorder(d: Disk, cs: Seq<PageId>, hc: nat, depth: nat) -> Seq<(PageId, nat)>
    decreases hc, 2nat, cs.len(),
{
    if cs.len() == 0 {
        Seq::empty()
    } else {
        children_preorder(d, cs.drop_last(), hc, depth) + preorder(d, cs.last(), hc, depth)
    }
}

/// `out` is `prev` followed by the pages of `order`, each with its depth
/// and its decoded node.
pub open spec fn walked(
    out: Seq<(PageId, usize, Page)>,
    prev: Seq<(PageId, usize, Page)>,
    order: Seq<(PageId, nat)>,
    d: Disk,
) -> bool {
    &&& out.len() == prev.len() + order.len()
    &&& out.subrange(0, prev.len() as int) == prev
    &&& forall|i: int|
        0 <= i < order.len() ==> {
            &&& (#[trigger] out[prev.len() + i]).0 == order[i].0
            &&& out[prev.len() + i].1 == order[i].1
            &&& out[prev.len() + i].2.wf()
            &&& node_at(d, order[i].0) == Some(out[prev.len() + i].2.view())
        }
}

/// `walked` grows by concatenation.
proof fn lemma_walked_concat(
    a: Seq<(PageId, usize, Page)>,
    b: Seq<(PageId, usize, Page)>,
    c: Seq<(PageId, usize, Page)>,
    s: Seq<(PageId, nat)>,
    t: Seq<(PageId, nat)>,
    d: Disk,
)
    requires
        walked(b, a, s, d),
        walked(c, b, t, d),
    ensures
        walked(c, a, s + t, d),
{
    assert(c.subrange(0, a.len() as int) =~= b.subrange(0, a.len() as int));
    assert forall|i: int| 0 <= i < (s + t).len() implies {
        &&& (#[trigger] c[a.len() + i]).0 == (s + t)[i].0
        &&& c[a.len() + i].1 == (s + t)[i].1
        &&& c[a.len() + i].2.wf()
        &&& node_at(d, (s + t)[i].0) == Some(c[a.len() + i].2.view())
    } by {
        if i < s.len() {
            assert(c[a.len() + i] == c.subrange(0, b.len() as int)[a.len() + i]);
            assert(b[a.len() + i] == c[a.len() + i]);
        } else {
            let j = i - s.len();
            assert(c[b.len() + j] == c[a.len() + i]);
        }
    }
}

/// Appends the pages of the subtree at `id` to `out`, in pre-order.
fn walk_from<IO: PageIo>(
    store: &Store<IO>,
    view: &ReadGuard,
    id: PageId,
    depth: usize,
    out: &mut Vec<(PageId, usize, Page)>,
    Ghost(h): Ghost<nat>,
    Ghost(lo): Ghost<Option<Seq<u8>>>,
    Ghost(hi): Ghost<Option<Seq<u8>>>,
)
    requires
        page_size_ok(store.spec_page_size()),
        subtree_ok(store.disk(), id, h, lo, hi, store.spec_page_size()),
        depth + h <= usize::MAX,
    ensures
        walked(final(out)@, old(out)@, preorder(store.disk(), id, h, depth as nat), store.disk()),
    decreases h,
{
    let ghost d = store.disk();
    let ghost ps = store.spec_page_size();
    let ghost prev = out@;
    proof {
        match node_at(d, id).unwrap() {
            PageView::Leaf(m) => assert(leaf_ok(m, lo, hi, ps)),
            PageView::Internal(ks, cs) => assert(keys_ok(ks, lo, hi, ps)),
        }
    }
    let page = view.read(store, id);
    let mut kids: Vec<PageId> = Vec::new();
    if let Page::Internal(n) = &page {
        let nc = n.nchildren();
        let mut i: u16 = 0;
        while i < nc
            invariant
                n.wf(),
                nc == n.view_children().len(),
                i <= nc,
                kids@ == n.view_children().subrange(0, i as int),
            decreases nc - i,
        {
            kids.push(n.get_child(i));
            i = i + 1;
        }
        proof {
            assert(kids@ =~= n.view_children());
        }
    }
    let ghost v = page.view();
    out.push((id, depth, page));
    proof {
        assert(walked(out@, prev, seq![(id, depth as nat)], d)) by {
            assert(out@.subrange(0, prev.len() as int) =~= prev);
            assert(out@[prev.len() + 0int] == out@[prev.len() as int]);
        }
    }
    let ghost cs = match v {
        PageView::Internal(_, cs) => cs,
        PageView::Leaf(_) => Seq::<PageId>::empty(),
    };
    let ghost ks = match v {
        PageView::Internal(ks, _) => ks,
        PageView::Leaf(_) => Seq::<Seq<u8>>::empty(),
    };
    if kids.len() > 0 {
        assert(h > 1);
        let ghost hc = (h - 1) as nat;
        let ghost mid = out@;
        proof {
            assert(mid.subrange(0, mid.len() as int) =~= mid);
            assert(cs.subrange(0, 0) =~= Seq::<PageId>::empty());
        }
        let nk = kids.len();
        let mut j: usize = 0;
        while j < nk
            invariant
                page_size_ok(ps),
                ps == store.spec_page_size(),
                d == store.disk(),
                h > 1,
                hc == h - 1,
                depth + h <= usize::MAX,
                nk == kids@.len(),
                kids@ == cs,
                v == PageView::Internal(ks, cs),
                node_at(d, id) == Some(v),
                forall|i: int|
                    0 <= i < cs.len() ==> subtree_ok(
                        d,
                        #[trigger] cs[i],
                        hc,
                        child_lo(ks, lo, i),
                        child_hi(ks, hi, i),
                        ps,
                    ),
                j <= nk,
                walked(out@, mid, children_preorder(d, cs.subrange(0, j as int), hc, (depth + 1) as nat), d),
            decreases nk - j,
        {
            let ghost before = out@;
            walk_from(
                store,
                view,
                kids[j],
                depth + 1,
                out,
                Ghost(hc),
                Ghost(child_lo(ks, lo, j as int)),
                Ghost(child_hi(ks, hi, j as int)),
            );
            proof {
                let sub = cs.subrange(0, j + 1);
                assert(sub.drop_last() =~= cs.subrange(0, j as int));
                assert(sub.last() == cs[j as int]);
                lemma_walked_concat(
                    mid,
                    before,
                    out@,
                    children_preorder(d, cs.subrange(0, j as int), hc, (depth + 1) as nat),
                    preorder(d, cs[j as int], hc, (depth + 1) as nat),
                    d,
                );
            }
            j = j + 1;
        }
        proof {
            assert(cs.subrange(0, nk as int) =~= cs);
            lemma_walked_concat(
                prev,
                mid,
                out@,
                seq![(id, depth as nat)],
                children_preorder(d, cs, hc, (depth + 1) as nat),
                d,
            );
        }
    } else {
        proof {
            if let PageView::Internal(_, cs2) = v {
                assert(cs2.len() >= 1);
            }
        }
    }
}

/// Every page of the tree the store publishes, in pre-order (a node
/// before its children), each with its depth below the root and its
/// decoded node.
pub fn walk<IO: PageIo>(store: &Store<IO>, view: &ReadGuard) -> (r: Vec<(PageId, usize, Page)>)
    requires
        store.inv(),
        store.spec_height() <= usize::MAX,
    ensures
        walked(r@, Seq::empty(), preorder(store.disk(), store.spec_root(), store.spec_height(), 0), store.disk()),
{
    proof {
        store.lemma_inv_facts();
    }
    let mut out: Vec<(PageId, usize, Page)> = Vec::new();
    let root = view.root(store);
    walk_from(store, view, root, 0, &mut out, Ghost(store.spec_height()), Ghost(None), Ghost(None));
    out
}

/// How a byte shows in the ascii column of a dump: printable ASCII and
/// the space as themselves, anything else as a dot.
pub open spec fn shown(b: u8) -> u8 {
    if 0x20 <= b <= 0x7e {
        b
    } else {
        0x2e
    }
}

/// The ascii column of a dump of `bytes`.
pub fn ascii_gutter(bytes: &[u8]) -> (r: Vec<u8>)
    ensures
        r@ == bytes@.map_values(|b: u8| shown(b)),
{
    let mut r: Vec<u8> = Vec::new();
    let n = bytes.len();
    let mut i: usize = 0;
    while i < n
        invariant
            n == bytes@.len(),
            i <= n,
            r@ == bytes@.subrange(0, i as int).map_values(|b: u8| shown(b)),
        decreases n - i,
    {
        let b = bytes[i];
        if 0x20 <= b && b <= 0x7e {
            r.push(b);
        } else {
            r.push(0x2e);
        }
        proof {
            assert(bytes@.subrange(0, i + 1).map_values(|b: u8| shown(b)) =~= bytes@.subrange(0, i as int).map_values(
                |b: u8| shown(b),
            ).push(shown(b)));
        }
        i = i + 1;
    }
    proof {
        assert(bytes@.subrange(0, n as int) =~= bytes@);
    }
    r
}

} // verus!
