use vstd::prelude::*;

use crate::io::{read_disk, PageId, PageIo};
use crate::page::free_list::{
    free_list_capacity, free_list_decode, free_list_encode, parse_free_list_page,
    spec_free_list_capacity,
};
use crate::page::header::{
    header_page_bytes, lemma_parse_header_page_bytes, parse_header, DecodeError, Header,
    HEADER_PAGE_ID,
};
use crate::page::leaf::{leaf_page_bytes, LeafNode};
use crate::page::{decodable, parse_page, Page, PageView};
use crate::page::codec::to_vec;
use crate::storage::model::{
    agree_on, lemma_overlay_hit, lemma_overlay_untouched, lemma_pages_finite, lemma_subtree_frame,
    node_at, overlay, pages_of, subtree_ok, tree_get, tree_map, Disk,
};

verus! {

/// The root page of a freshly created store.
pub const INITIAL_ROOT_PAGE_ID: PageId = 1;

/// Smallest page size the formats work with: a header page is 49 bytes.
pub const MIN_PAGE_SIZE: usize = 49;

/// Largest page size. In-page offsets and sizes are 16-bit, and before a
/// leaf is split it briefly holds a full page plus one more entry of up
/// to half a page; past about 43690 bytes that no longer fits in 65535
/// bytes, and the offsets would wrap. This is the largest power of two
/// below that limit.
pub const MAX_PAGE_SIZE: usize = 32768;

#[derive(Debug, PartialEq, Eq, Structural, Clone, Copy)]
pub enum OpenError {
    PageSizeMismatch { requested: usize, persisted: usize },
    VersionMismatch { found: u32, expected: u32 },
}

/// No id occurs twice.
pub open spec fn no_dup(s: Seq<PageId>) -> bool {
    forall|i: int, j: int| 0 <= i < j < s.len() ==> s[i] != s[j]
}

/// Entries per free-list page (at least one).
pub open spec fn chain_cap(ps: nat) -> nat {
    if spec_free_list_capacity(ps) >= 1 {
        spec_free_list_capacity(ps)
    } else {
        1
    }
}

/// Free-list pages needed to hold `n` ids, `cap` per page.
pub open spec fn pages_needed(n: nat, cap: nat) -> nat {
    if n == 0 || cap == 0 {
        0
    } else {
        ((n - 1) as nat / cap + 1) as nat
    }
}

/// A chain never needs more pages than it holds ids.
proof fn lemma_pages_needed_le(n: nat, cap: nat)
    requires
        cap >= 1,
    ensures
        pages_needed(n, cap) <= n,
{
    if n > 0 {
        let m = (n - 1) as nat;
        assert(m / cap <= m) by (nonlinear_arith)
            requires
                cap >= 1,
        ;
    }
}

/// The ids stored on free-list page `i` of a chain.
pub open spec fn chunk(payload: Seq<PageId>, cap: nat, i: int) -> Seq<PageId> {
    let lo = i * cap;
    let hi = if (i + 1) * cap <= payload.len() {
        (i + 1) * cap
    } else {
        payload.len() as int
    };
    payload.subrange(lo, hi)
}

/// Page after `ch[i]` in the chain, `0` at the end.
pub open spec fn next_in_chain(ch: Seq<PageId>, i: int) -> PageId {
    if i + 1 < ch.len() {
        ch[i + 1]
    } else {
        0
    }
}

/// First page of the chain, `0` for an empty chain.
pub open spec fn chain_head(ch: Seq<PageId>) -> PageId {
    if ch.len() > 0 {
        ch[0]
    } else {
        0
    }
}

/// The free-list chain runs through pages `ch` and stores `payload`.
pub open spec fn chain_ok(d: Disk, ch: Seq<PageId>, payload: Seq<PageId>, ps: nat) -> bool {
    let cap = chain_cap(ps);
    &&& ch.len() == pages_needed(payload.len(), cap)
    &&& forall|i: int|
        0 <= i < ch.len() ==> d.contains_key(#[trigger] ch[i]) && parse_free_list_page(d[ch[i]])
            == Some((ch[i], next_in_chain(ch, i), chunk(payload, cap, i)))
}

/// Page-id bookkeeping: tree pages `t`, chain pages `ch` and free ids
/// `payload` are distinct, non-zero and below `next`.
pub open spec fn ids_ok(t: Set<PageId>, ch: Seq<PageId>, payload: Seq<PageId>, next: u64) -> bool {
    &&& t.finite()
    &&& no_dup(ch)
    &&& no_dup(payload)
    &&& forall|p: PageId| #[trigger] t.contains(p) ==> 0 < p < next
    &&& forall|i: int|
        0 <= i < ch.len() ==> 0 < #[trigger] ch[i] < next && !t.contains(ch[i]) && !payload.contains(
            ch[i],
        )
    &&& forall|i: int| 0 <= i < payload.len() ==> 0 < #[trigger] payload[i] < next && !t.contains(payload[i])
}

/// The header a store with this state writes to page 0.
pub open spec fn header_of(ps: nat, root: PageId, next: u64, ch: Seq<PageId>, payload: Seq<PageId>) -> Header {
    Header {
        page_size: ps as usize,
        root_id: root,
        next_page_id: next,
        free_list_head: chain_head(ch),
        free_count: payload.len() as u64,
    }
}

/// A disk holding a whole store: header, free-list chain and tree agree.
pub open spec fn disk_ok(
    d: Disk,
    ps: nat,
    root: PageId,
    h: nat,
    next: u64,
    ch: Seq<PageId>,
    payload: Seq<PageId>,
) -> bool {
    &&& d.contains_key(HEADER_PAGE_ID)
    &&& d[HEADER_PAGE_ID] == header_page_bytes(header_of(ps, root, next, ch, payload), ps)
    &&& payload.len() <= u64::MAX
    &&& chain_ok(d, ch, payload, ps)
    &&& subtree_ok(d, root, h, None, None, ps)
    &&& ids_ok(pages_of(d, root, h), ch, payload, next)
}

/// Some store state is recorded on the disk.
pub open spec fn disk_valid(d: Disk, ps: nat) -> bool {
    exists|root: PageId, h: nat, next: u64, ch: Seq<PageId>, payload: Seq<PageId>|
        disk_ok(d, ps, root, h, next, ch, payload)
}

/// Page size this build accepts.
pub open spec fn page_size_ok(ps: nat) -> bool {
    MIN_PAGE_SIZE <= ps <= MAX_PAGE_SIZE
}

/// A backend whose page 0 holds a header this build reads as matching
/// the page size was written by a store.
pub open spec fn openable(d: Disk, ps: nat) -> bool {
    (parse_header(read_disk(d, HEADER_PAGE_ID, ps)) matches Ok(hdr) && hdr.page_size == ps)
        ==> disk_valid(d, ps)
}

struct WriterState {
    next_page_id: u64,
    free_list: Vec<PageId>,
    pending_free: Vec<PageId>,
    /// The dedicated, permanent chain of pages that store the free list
    /// itself on disk — always bump-allocated, never popped from
    /// `free_list`.
    free_list_page_ids: Vec<PageId>,
}

/// Owns a `PageIo` backend and the COW commit/reclamation state built on
/// top of it — generic over the backend so this logic is written and
/// proved once.
pub struct Store<IO: PageIo> {
    io: IO,
    root: PageId,
    readers: usize,
    state: WriterState,
    height: Ghost<nat>,
    /// Roots (with heights) that some live reader may have looked at.
    snapshots: Ghost<Set<(PageId, nat)>>,
    /// Next page id, free-list chain and free ids as recorded on disk by
    /// the last commit.
    persisted: Ghost<(u64, Seq<PageId>, Seq<PageId>)>,
}

/// A tree a reader may still walk: intact on disk, none of its pages
/// reusable or holding the free list.
pub open spec fn snapshot_ok(d: Disk, t: (PageId, nat), ps: nat, next: u64, fl: Seq<PageId>, ch: Seq<PageId>) -> bool {
    &&& subtree_ok(d, t.0, t.1, None, None, ps)
    &&& forall|p: PageId|
        #[trigger] pages_of(d, t.0, t.1).contains(p) ==> 0 < p < next && !fl.contains(p) && !ch.contains(p)
}

impl<IO: PageIo> Store<IO> {
    pub closed spec fn spec_page_size(&self) -> nat {
        self.io.spec_page_size()
    }

    /// The pages of the backend.
    pub closed spec fn disk(&self) -> Disk {
        self.io.disk()
    }

    pub closed spec fn spec_io(&self) -> IO {
        self.io
    }

    pub closed spec fn spec_root(&self) -> PageId {
        self.root
    }

    pub closed spec fn spec_height(&self) -> nat {
        self.height@
    }

    /// The key-value map held by the current tree.
    pub closed spec fn view(&self) -> Map<Seq<u8>, Seq<u8>> {
        tree_map(self.io.disk(), self.root, self.height@)
    }

    /// Roots (with heights) that live readers may be walking.
    pub closed spec fn snapshots(&self) -> Set<(PageId, nat)> {
        self.snapshots@
    }

    /// The map a reader walking the tree at `t` sees.
    pub open spec fn snapshot_view(&self, t: (PageId, nat)) -> Map<Seq<u8>, Seq<u8>> {
        tree_map(self.disk(), t.0, t.1)
    }

    pub closed spec fn spec_free_list(&self) -> Seq<PageId> {
        self.state.free_list@
    }

    pub closed spec fn spec_pending_free(&self) -> Seq<PageId> {
        self.state.pending_free@
    }

    pub closed spec fn spec_chain(&self) -> Seq<PageId> {
        self.state.free_list_page_ids@
    }

    pub closed spec fn spec_next_page_id(&self) -> u64 {
        self.state.next_page_id
    }

    pub closed spec fn spec_readers(&self) -> nat {
        self.readers as nat
    }

    /// Free ids: reusable first, then pending.
    pub open spec fn payload(&self) -> Seq<PageId> {
        self.spec_free_list() + self.spec_pending_free()
    }

    /// The free ids the disk records, as of the last commit.
    pub closed spec fn durable_free_ids(&self) -> Seq<PageId> {
        self.persisted@.2
    }

    /// Pages of the current tree.
    pub closed spec fn tree_pages(&self) -> Set<PageId> {
        pages_of(self.io.disk(), self.root, self.height@)
    }

    pub closed spec fn inv(&self) -> bool {
        let ps = self.spec_page_size();
        let d = self.io.disk();
        let ch = self.state.free_list_page_ids@;
        let fl = self.state.free_list@;
        let next = self.state.next_page_id;
        &&& page_size_ok(ps)
        &&& self.height@ >= 1
        &&& disk_ok(d, ps, self.root, self.height@, self.persisted@.0, self.persisted@.1, self.persisted@.2)
        &&& ids_ok(self.tree_pages(), ch, self.payload(), next)
        &&& self.readers == 0 ==> self.snapshots@ == Set::<(PageId, nat)>::empty()
        &&& self.readers > 0 ==> self.snapshots@.contains((self.root, self.height@))
        &&& forall|t: (PageId, nat)| #[trigger] self.snapshots@.contains(t) ==> snapshot_ok(d, t, ps, next, fl, ch)
    }

    /// What the invariant gives users of the store: a well-shaped tree
    /// on pages of an accepted size.
    pub proof fn lemma_inv_facts(&self)
        requires
            self.inv(),
        ensures
            page_size_ok(self.spec_page_size()),
            self.spec_height() >= 1,
            ids_ok(self.tree_pages(), self.spec_chain(), self.payload(), self.spec_next_page_id()),
            subtree_ok(self.disk(), self.spec_root(), self.spec_height(), None, None, self.spec_page_size()),
            self.tree_pages() == pages_of(self.disk(), self.spec_root(), self.spec_height()),
            self.view() == tree_map(self.disk(), self.spec_root(), self.spec_height()),
            self.spec_readers() == 0 ==> self.snapshots() == Set::<(PageId, nat)>::empty(),
            forall|t: (PageId, nat)| #[trigger]
                self.snapshots().contains(t) ==> subtree_ok(self.disk(), t.0, t.1, None, None, self.spec_page_size()),
    {
    }

    /// A disk a consistent store wrote can be opened again.
    pub proof fn lemma_inv_openable(&self)
        requires
            self.inv(),
        ensures
            page_size_ok(self.spec_page_size()),
            openable(self.disk(), self.spec_page_size()),
    {
        assert(disk_ok(
            self.io.disk(),
            self.spec_page_size(),
            self.root,
            self.height@,
            self.persisted@.0,
            self.persisted@.1,
            self.persisted@.2,
        ));
        assert(disk_valid(self.io.disk(), self.spec_page_size()));
    }

    /// The header page on the disk of a consistent store names its
    /// tree's root, its page size and the free ids it recorded.
    pub proof fn lemma_header_on_disk(&self)
        requires
            self.inv(),
        ensures
            parse_header(read_disk(self.disk(), HEADER_PAGE_ID, self.spec_page_size())) matches Ok(h) && h.root_id
                == self.spec_root() && h.page_size == self.spec_page_size() && h.free_count
                == self.durable_free_ids().len(),
    {
        let ps = self.spec_page_size();
        let hw = header_of(ps, self.root, self.persisted@.0, self.persisted@.1, self.persisted@.2);
        lemma_parse_header_page_bytes(hw, ps);
    }

    /// The tree, the readers and the page bookkeeping other than the
    /// reusable list and the bump pointer are as in `other`.
    pub open spec fn same_tree(&self, other: &Self) -> bool {
        &&& self.spec_io() == other.spec_io()
        &&& self.disk() == other.disk()
        &&& self.spec_page_size() == other.spec_page_size()
        &&& self.spec_root() == other.spec_root()
        &&& self.spec_height() == other.spec_height()
        &&& self.tree_pages() == other.tree_pages()
        &&& self.view() == other.view()
        &&& self.snapshots() == other.snapshots()
        &&& self.spec_readers() == other.spec_readers()
        &&& self.spec_pending_free() == other.spec_pending_free()
        &&& self.spec_chain() == other.spec_chain()
        &&& self.durable_free_ids() == other.durable_free_ids()
    }

    /// Just opened: no readers, nothing pending, and the in-memory page
    /// bookkeeping is exactly what the disk records.
    pub closed spec fn fresh_from_disk(&self) -> bool {
        &&& self.readers == 0
        &&& self.state.pending_free@ == Seq::<PageId>::empty()
        &&& self.state.free_list@ == self.persisted@.2
        &&& self.state.next_page_id == self.persisted@.0
        &&& self.state.free_list_page_ids@ == self.persisted@.1
    }
}

/// Arithmetic of the chain layout: chunk `i` starts inside the payload
/// and the chunks together cover it.
pub proof fn lemma_chunk_bounds(n: nat, cap: nat, i: int)
    requires
        cap >= 1,
        0 <= i < pages_needed(n, cap),
    ensures
        0 <= i * cap < n,
        i * cap + cap == (i + 1) * cap,
        i + 1 == pages_needed(n, cap) ==> n <= (i + 1) * cap,
        i + 1 < pages_needed(n, cap) ==> (i + 1) * cap < n,
{
    let k = ((n - 1) as nat / cap) as int;
    assert(pages_needed(n, cap) == k + 1);
    assert(i <= k);
    assert(k * cap <= n - 1) by (nonlinear_arith)
        requires
            k == (n - 1) as nat / cap,
            cap >= 1,
            n >= 1,
    {
        vstd::arithmetic::div_mod::lemma_fundamental_div_mod((n - 1) as int, cap as int);
    }
    assert(n - 1 < (k + 1) * cap) by (nonlinear_arith)
        requires
            k == (n - 1) as nat / cap,
            cap >= 1,
            n >= 1,
    {
        vstd::arithmetic::div_mod::lemma_fundamental_div_mod((n - 1) as int, cap as int);
    }
    assert(i * cap <= k * cap) by (nonlinear_arith)
        requires
            i <= k,
            cap >= 1,
            i >= 0,
    ;
    assert(i * cap >= 0) by (nonlinear_arith)
        requires
            i >= 0,
            cap >= 1,
    ;
    assert(i * cap + cap == (i + 1) * cap) by (nonlinear_arith);
    if i + 1 < pages_needed(n, cap) {
        assert((i + 1) * cap <= k * cap) by (nonlinear_arith)
            requires
                i + 1 <= k,
                cap >= 1,
        ;
    }
}

/// Walks the on-disk free-list chain starting at `head` (`0` = empty),
/// collecting every free page id and every chain-storage page id
/// visited.
#[verifier::rlimit(80)]
fn load_free_list_chain<IO: PageIo>(
    io: &IO,
    head: PageId,
    Ghost(ch): Ghost<Seq<PageId>>,
    Ghost(payload): Ghost<Seq<PageId>>,
) -> (r: (Vec<PageId>, Vec<PageId>))
    requires
        chain_ok(io.disk(), ch, payload, io.spec_page_size()),
        chain_head(ch) == head,
        forall|i: int| 0 <= i < ch.len() ==> #[trigger] ch[i] != 0,
    ensures
        r.0@ == payload,
        r.1@ == ch,
{
    let ghost cap = chain_cap(io.spec_page_size());
    let ghost n = payload.len();
    let mut free_list: Vec<PageId> = Vec::new();
    let mut page_ids: Vec<PageId> = Vec::new();
    let mut cur = head;
    let ghost mut i: int = 0;
    while cur != 0
        invariant
            chain_ok(io.disk(), ch, payload, io.spec_page_size()),
            cap == chain_cap(io.spec_page_size()),
            cap >= 1,
            n == payload.len(),
            forall|j: int| 0 <= j < ch.len() ==> #[trigger] ch[j] != 0,
            0 <= i <= ch.len(),
            cur == (if i < ch.len() {
                ch[i]
            } else {
                0
            }),
            page_ids@ == ch.take(i),
            free_list@ == payload.take(if i * cap <= n {
                i * cap
            } else {
                n as int
            }),
            i < ch.len() ==> i * cap < n,
            i == ch.len() ==> (ch.len() == 0 || n <= i * cap),
        decreases ch.len() - i,
    {
        proof {
            lemma_chunk_bounds(n, cap, i);
        }
        let bytes = io.read_page(cur);
        let (next, mut entries) = free_list_decode(cur, bytes);
        proof {
            assert(entries@ == chunk(payload, cap, i));
        }
        free_list.append(&mut entries);
        page_ids.push(cur);
        cur = next;
        proof {
            assert(page_ids@ =~= ch.take(i + 1));
            let hi = if (i + 1) * cap <= n { (i + 1) * cap } else { n as int };
            assert(free_list@ =~= payload.take(hi));
            i = i + 1;
            if i < ch.len() {
                lemma_chunk_bounds(n, cap, i - 1);
            }
        }
    }
    proof {
        if i < ch.len() {
            assert(ch[i] != 0);
        }
        assert(i == ch.len());
        if ch.len() == 0 {
            if n > 0 {
                assert(pages_needed(n, cap) > 0);
            }
        }
        assert(page_ids@ =~= ch);
        assert(free_list@ =~= payload);
    }
    (free_list, page_ids)
}

impl<IO: PageIo> Store<IO> {
    /// Reads (and validates) the header page, or bootstraps a fresh store
    /// with an empty leaf root. A backend with no valid header page at all
    /// is always safe to bootstrap; a real header whose page size or
    /// format version doesn't match is an error, never re-bootstrapped
    /// over: the backend comes back with the error, untouched.
    pub fn open_or_create(io: IO) -> (r: Result<Self, (OpenError, IO)>)
        requires
            page_size_ok(io.spec_page_size()),
            openable(io.disk(), io.spec_page_size()),
        ensures
            match parse_header(read_disk(io.disk(), HEADER_PAGE_ID, io.spec_page_size())) {
                Err(DecodeError::NotAHeader) => r matches Ok(s) && s.inv() && s.fresh_from_disk()
                    && s.view() == Map::<Seq<u8>, Seq<u8>>::empty() && s.spec_page_size()
                    == io.spec_page_size() && s.spec_free_list() == Seq::<PageId>::empty()
                    && s.spec_pending_free() == Seq::<PageId>::empty() && s.spec_next_page_id() == 2
                    && s.spec_height() == 1 && s.spec_readers() == 0 && s.spec_root() == INITIAL_ROOT_PAGE_ID
                    && s.disk() == io.disk().insert(
                    INITIAL_ROOT_PAGE_ID,
                    leaf_page_bytes(INITIAL_ROOT_PAGE_ID, Seq::empty(), io.spec_page_size()),
                ).insert(
                    HEADER_PAGE_ID,
                    header_page_bytes(
                        header_of(io.spec_page_size(), INITIAL_ROOT_PAGE_ID, 2, Seq::empty(), Seq::empty()),
                        io.spec_page_size(),
                    ),
                ),
                Err(DecodeError::VersionMismatch { found, expected }) => r == Err::<Self, (OpenError, IO)>(
                    (OpenError::VersionMismatch { found, expected }, io),
                ),
                Ok(h) => if h.page_size == io.spec_page_size() {
                    r matches Ok(s) && s.inv() && s.fresh_from_disk() && s.disk() == io.disk()
                        && s.spec_root() == h.root_id && s.spec_next_page_id() == h.next_page_id
                        && s.spec_page_size() == io.spec_page_size() && s.spec_readers() == 0
                } else {
                    r == Err::<Self, (OpenError, IO)>(
                        (
                            OpenError::PageSizeMismatch {
                                requested: io.spec_page_size() as usize,
                                persisted: h.page_size,
                            },
                            io,
                        ),
                    )
                },
            },
    {
        let mut io = io;
        let page_size = io.page_size();
        let ghost ps = page_size as nat;
        let ghost d0 = io.disk();
        let bytes = io.read_page(HEADER_PAGE_ID);
        let ghost mut w_root: PageId = 0;
        let ghost mut w_h: nat = 0;
        let ghost mut w_next: u64 = 0;
        let ghost mut w_ch: Seq<PageId> = Seq::empty();
        let ghost mut w_payload: Seq<PageId> = Seq::empty();
        let header = match Header::from_bytes(bytes.as_slice()) {
            Ok(h) => {
                if h.page_size != page_size {
                    return Err(
                        (OpenError::PageSizeMismatch { requested: page_size, persisted: h.page_size }, io),
                    );
                }
                proof {
                    assert(disk_valid(d0, ps));
                    let (a, b, c, e, f) = choose|
                        root: PageId,
                        hh: nat,
                        next: u64,
                        ch: Seq<PageId>,
                        payload: Seq<PageId>,
                    | disk_ok(d0, ps, root, hh, next, ch, payload);
                    w_root = a;
                    w_h = b;
                    w_next = c;
                    w_ch = e;
                    w_payload = f;
                    let hw = header_of(ps, a, c, e, f);
                    lemma_parse_header_page_bytes(hw, ps);
                    assert(h == hw);
                }
                h
            },
            Err(DecodeError::VersionMismatch { found, expected }) => {
                return Err((OpenError::VersionMismatch { found, expected }, io));
            },
            Err(DecodeError::NotAHeader) => {
                let root = LeafNode::empty(page_size);
                let root_bytes = root.to_bytes(INITIAL_ROOT_PAGE_ID, page_size);
                io.write_page(INITIAL_ROOT_PAGE_ID, root_bytes.as_slice());
                let h = Header::new(page_size, INITIAL_ROOT_PAGE_ID, INITIAL_ROOT_PAGE_ID + 1);
                let hb = h.to_bytes(page_size);
                io.write_page(HEADER_PAGE_ID, hb.as_slice());
                io.sync();
                proof {
                    let d = io.disk();
                    w_root = 1;
                    w_h = 1;
                    w_next = 2;
                    crate::page::leaf::lemma_parse_leaf_page_bytes(1, Seq::empty(), ps);
                    assert(d[1] == root_bytes@);
                    assert(node_at(d, 1) == Some(PageView::Leaf(Seq::empty())));
                    assert(pages_of(d, 1, 1) =~= set![1u64]);
                    assert(h == header_of(ps, 1, 2, Seq::empty(), Seq::empty()));
                    assert(crate::storage::model::view_pages(d, PageView::Leaf(Seq::empty()), 1) =~= Set::empty());
                    assert(subtree_ok(d, 1, 1, None, None, ps));
                    assert(disk_ok(d, ps, 1, 1, 2, Seq::empty(), Seq::empty()));
                    assert forall|k: Seq<u8>| tree_get(d, 1, 1, k) is None by {
                        assert(tree_get(d, 1, 1, k) == crate::storage::model::leaf_lookup(Seq::empty(), k));
                    }
                    assert(tree_map(d, 1, 1) =~= Map::<Seq<u8>, Seq<u8>>::empty());
                }
                h
            },
        };
        proof {
            assert(disk_ok(io.disk(), ps, w_root, w_h, w_next, w_ch, w_payload));
            assert forall|i: int| 0 <= i < w_ch.len() implies #[trigger] w_ch[i] != 0 by {}
        }
        let (free_list, free_list_page_ids) = load_free_list_chain(
            &io,
            header.free_list_head,
            Ghost(w_ch),
            Ghost(w_payload),
        );
        let store = Store {
            root: header.root_id,
            readers: 0,
            state: WriterState {
                next_page_id: header.next_page_id,
                free_list,
                pending_free: Vec::new(),
                free_list_page_ids,
            },
            height: Ghost(w_h),
            snapshots: Ghost(Set::empty()),
            persisted: Ghost((w_next, w_ch, w_payload)),
            io,
        };
        proof {
            assert(store.payload() =~= w_payload);
        }
        Ok(store)
    }
}


impl<IO: PageIo> Store<IO> {
    /// Closes the store and hands back its backend, holding every page
    /// the store committed; opening it again recovers the store.
    pub fn close(self) -> (r: IO)
        ensures
            r == self.spec_io(),
            r.disk() == self.disk(),
            r.spec_page_size() == self.spec_page_size(),
    {
        self.io
    }

    /// The backend the store reads and writes.
    pub fn io(&self) -> (r: &IO)
        ensures
            *r == self.spec_io(),
            r.disk() == self.disk(),
            r.spec_page_size() == self.spec_page_size(),
    {
        &self.io
    }

    /// Registers a reader. While any reader is registered, no page of a
    /// tree it may be walking is handed out for reuse.
    pub fn enter_read(&mut self) -> (g: ReadGuard)
        requires
            old(self).inv(),
            old(self).spec_readers() < usize::MAX,
        ensures
            final(self).inv(),
            final(self).spec_readers() == old(self).spec_readers() + 1,
            final(self).snapshots() == old(self).snapshots().insert(
                (old(self).spec_root(), old(self).spec_height()),
            ),
            final(self).spec_io() == old(self).spec_io(),
            final(self).disk() == old(self).disk(),
            final(self).spec_page_size() == old(self).spec_page_size(),
            final(self).spec_root() == old(self).spec_root(),
            final(self).spec_height() == old(self).spec_height(),
            final(self).view() == old(self).view(),
            final(self).spec_free_list() == old(self).spec_free_list(),
            final(self).spec_pending_free() == old(self).spec_pending_free(),
            final(self).spec_next_page_id() == old(self).spec_next_page_id(),
            final(self).durable_free_ids() == old(self).durable_free_ids(),
            g.spec_page_size() == old(self).spec_page_size(),
    {
        self.readers = self.readers + 1;
        proof {
            let ps = self.spec_page_size();
            let t = (self.root, self.height@);
            let d = self.io.disk();
            assert forall|p: PageId| #[trigger] pages_of(d, t.0, t.1).contains(p) implies 0 < p
                < self.state.next_page_id && !self.state.free_list@.contains(p)
                && !self.state.free_list_page_ids@.contains(p) by {
                if self.state.free_list@.contains(p) {
                    let i = choose|i: int| 0 <= i < self.state.free_list@.len() && self.state.free_list@[i] == p;
                    assert(self.payload()[i] == p);
                }
            }
            self.snapshots@ = self.snapshots@.insert(t);
        }
        ReadGuard { page_size: self.io.page_size() }
    }

    /// Unregisters a reader. Once the last one leaves, nobody can be
    /// walking an old tree any more.
    pub fn exit_read(&mut self, guard: ReadGuard)
        requires
            old(self).inv(),
        ensures
            final(self).inv(),
            final(self).spec_readers() == if old(self).spec_readers() > 0 {
                old(self).spec_readers() - 1
            } else {
                0
            },
            final(self).snapshots() == if final(self).spec_readers() == 0 {
                Set::<(PageId, nat)>::empty()
            } else {
                old(self).snapshots()
            },
            final(self).spec_io() == old(self).spec_io(),
            final(self).disk() == old(self).disk(),
            final(self).spec_page_size() == old(self).spec_page_size(),
            final(self).spec_root() == old(self).spec_root(),
            final(self).spec_height() == old(self).spec_height(),
            final(self).view() == old(self).view(),
            final(self).spec_free_list() == old(self).spec_free_list(),
            final(self).spec_pending_free() == old(self).spec_pending_free(),
            final(self).spec_next_page_id() == old(self).spec_next_page_id(),
            final(self).durable_free_ids() == old(self).durable_free_ids(),
    {
        if self.readers > 0 {
            self.readers = self.readers - 1;
        }
        if self.readers == 0 {
            proof {
                self.snapshots@ = Set::empty();
            }
        }
    }

    /// Number of pages currently sitting in the reusable free list.
    pub fn free_list_len(&self) -> (r: usize)
        ensures
            r == self.spec_free_list().len(),
    {
        self.state.free_list.len()
    }

    /// A copy of the reusable free list.
    pub fn free_list_snapshot(&self) -> (r: Vec<PageId>)
        ensures
            r@ == self.spec_free_list(),
    {
        let mut r: Vec<PageId> = Vec::new();
        let n = self.state.free_list.len();
        let mut i: usize = 0;
        while i < n
            invariant
                n == self.state.free_list@.len(),
                i <= n,
                r@ == self.state.free_list@.take(i as int),
            decreases n - i,
        {
            r.push(self.state.free_list[i]);
            i = i + 1;
            proof {
                assert(r@ =~= self.state.free_list@.take(i as int));
            }
        }
        proof {
            assert(self.state.free_list@.take(n as int) =~= self.state.free_list@);
        }
        r
    }

    /// The bump-allocator high-water mark.
    pub fn allocated_pages(&self) -> (r: u64)
        ensures
            r == self.spec_next_page_id(),
    {
        self.state.next_page_id
    }

    /// Starts the single write transaction; its writes and frees take
    /// effect on `commit`.
    pub fn begin_write(&mut self) -> (t: WriteTxn<'_, IO>)
        requires
            old(self).inv(),
        ensures
            t.wf(),
            *t.store == *old(self),
            t.log.writes_view() == Seq::<(PageId, Seq<u8>)>::empty(),
            t.log.freed_view() == Seq::<PageId>::empty(),
            t.log.allocated() == Set::<PageId>::empty(),
            *final(self) == *final(t.store),
    {
        let base_root = self.root;
        let t = WriteTxn {
            store: self,
            log: TxnLog {
                writes: Vec::new(),
                freed: Vec::new(),
                base_root,
                allocated: Ghost(Set::empty()),
            },
        };
        proof {
            assert(t.log.writes_view() =~= Seq::<(PageId, Seq<u8>)>::empty());
        }
        t
    }
}

/// A registered reader. It reads the store's current tree; the pages of
/// every tree published while it is registered stay intact.
pub struct ReadGuard {
    page_size: usize,
}

impl ReadGuard {
    pub closed spec fn spec_page_size(&self) -> nat {
        self.page_size as nat
    }

    /// The root page of the tree currently published.
    pub fn root<IO: PageIo>(&self, store: &Store<IO>) -> (r: PageId)
        ensures
            r == store.spec_root(),
    {
        store.root
    }

    pub fn read<IO: PageIo>(&self, store: &Store<IO>, id: PageId) -> (r: Page)
        requires
            decodable(id, read_disk(store.disk(), id, store.spec_page_size())),
        ensures
            r.wf(),
            r.spec_id() == id,
            r.view() == parse_page(read_disk(store.disk(), id, store.spec_page_size())).unwrap().1,
    {
        Page::decode(id, store.io.read_page(id))
    }

    pub fn page_size(&self) -> (r: usize)
        ensures
            r == self.spec_page_size(),
    {
        self.page_size
    }
}

/// What a write transaction has done so far.
pub struct TxnLog {
    writes: Vec<(PageId, Vec<u8>)>,
    freed: Vec<PageId>,
    base_root: PageId,
    /// Ids this transaction took from the allocator.
    allocated: Ghost<Set<PageId>>,
}

impl TxnLog {
    /// Buffered page writes, in order.
    pub closed spec fn writes_view(&self) -> Seq<(PageId, Seq<u8>)> {
        self.writes@.map_values(|e: (PageId, Vec<u8>)| (e.0, e.1@))
    }

    /// Pages this transaction orphaned.
    pub closed spec fn freed_view(&self) -> Seq<PageId> {
        self.freed@
    }

    pub closed spec fn allocated(&self) -> Set<PageId> {
        self.allocated@
    }
}

/// The single write transaction. Buffers page writes and frees and makes
/// them visible on `commit`.
pub struct WriteTxn<'a, IO: PageIo> {
    pub store: &'a mut Store<IO>,
    pub log: TxnLog,
}

impl<'a, IO: PageIo> WriteTxn<'a, IO> {
    /// The store as it is now, mid-transaction.
    pub open spec fn st(&self) -> Store<IO> {
        *self.store
    }

    /// The pages as this transaction sees them: the store's, under its
    /// own buffered writes.
    pub open spec fn disk(&self) -> Disk {
        overlay(self.store.disk(), self.log.writes_view())
    }

    /// `p` may be part of the tree this transaction publishes: a page it
    /// allocated, or a page of the current tree it did not free.
    pub open spec fn usable(&self, p: PageId) -> bool {
        self.log.allocated().contains(p) || (self.store.tree_pages().contains(p)
            && !self.log.freed_view().contains(p))
    }

    /// `root` heads a tree of height `h` that may be published.
    pub open spec fn ready(&self, root: PageId, h: nat) -> bool {
        &&& h >= 1
        &&& subtree_ok(self.disk(), root, h, None, None, self.store.spec_page_size())
        &&& forall|p: PageId| #[trigger] pages_of(self.disk(), root, h).contains(p) ==> self.usable(p)
    }

    pub closed spec fn wf(&self) -> bool {
        let s = *self.store;
        let a = self.log.allocated@;
        let w = self.log.writes@;
        let f = self.log.freed@;
        &&& s.inv()
        &&& self.log.base_root == s.root
        &&& a.finite()
        &&& forall|i: int|
            0 <= i < w.len() ==> a.contains((#[trigger] w[i]).0) && w[i].1@.len() == s.spec_page_size()
        &&& forall|p: PageId| #[trigger]
            a.contains(p) ==> {
                &&& 0 < p < s.state.next_page_id
                &&& !s.tree_pages().contains(p)
                &&& !s.state.free_list@.contains(p)
                &&& !s.state.pending_free@.contains(p)
                &&& !s.state.free_list_page_ids@.contains(p)
                &&& forall|t: (PageId, nat)|
                    #[trigger] s.snapshots@.contains(t) ==> !pages_of(s.io.disk(), t.0, t.1).contains(p)
            }
        &&& no_dup(f)
        &&& forall|i: int| 0 <= i < f.len() ==> s.tree_pages().contains(#[trigger] f[i])
    }

    /// What the transaction's invariant gives its users: the store's
    /// invariant, and allocated pages lie outside the current tree.
    pub proof fn lemma_wf_facts(&self)
        requires
            self.wf(),
        ensures
            self.st().inv(),
            forall|p: PageId| #[trigger]
                self.log.allocated().contains(p) ==> !self.st().tree_pages().contains(p),
            no_dup(self.log.freed_view()),
            forall|i: int|
                0 <= i < self.log.freed_view().len() ==> self.st().tree_pages().contains(
                    #[trigger] self.log.freed_view()[i],
                ),
    {
    }

    /// The transaction's pages agree with the store's on every page it
    /// did not allocate.
    pub proof fn lemma_disk_outside_allocated(&self, p: PageId)
        requires
            self.wf(),
            !self.log.allocated().contains(p),
        ensures
            self.disk().contains_key(p) == self.st().disk().contains_key(p),
            self.disk()[p] == self.st().disk()[p],
    {
        let w = self.log.writes_view();
        assert forall|i: int| 0 <= i < w.len() implies (#[trigger] w[i]).0 != p by {
            assert(self.log.writes@[i].0 == w[i].0);
        }
        lemma_overlay_untouched(self.store.disk(), w, p);
    }

    pub fn page_size(&self) -> (r: usize)
        ensures
            r == self.st().spec_page_size(),
    {
        self.store.io.page_size()
    }

    /// The root of the tree this transaction started from.
    pub fn root(&self) -> (r: PageId)
        requires
            self.wf(),
        ensures
            r == self.st().spec_root(),
    {
        self.log.base_root
    }

    /// Reads a page, checking this transaction's own not-yet-flushed
    /// writes first (read-your-own-writes).
    pub fn read(&self, id: PageId) -> (r: Page)
        requires
            self.wf(),
            decodable(id, read_disk(self.disk(), id, self.store.spec_page_size())),
        ensures
            r.wf(),
            r.spec_id() == id,
            r.view() == parse_page(read_disk(self.disk(), id, self.st().spec_page_size())).unwrap().1,
    {
        let ghost w = self.log.writes_view();
        let ghost d = self.store.disk();
        let mut i = self.log.writes.len();
        while i > 0
            invariant
                i <= self.log.writes@.len(),
                w == self.log.writes_view(),
                d == self.st().disk(),
                decodable(id, read_disk(self.disk(), id, self.st().spec_page_size())),
                w.len() == self.log.writes@.len(),
                forall|j: int| i <= j < w.len() ==> (#[trigger] w[j]).0 != id,
            decreases i,
        {
            i = i - 1;
            if self.log.writes[i].0 == id {
                let bytes = to_vec(self.log.writes[i].1.as_slice());
                proof {
                    assert(w[i as int] == (self.log.writes@[i as int].0, self.log.writes@[i as int].1@));
                    lemma_overlay_hit(d, w, i as int);
                    assert(bytes@ == read_disk(self.disk(), id, self.st().spec_page_size()));
                }
                return Page::decode(id, bytes);
            }
        }
        proof {
            lemma_overlay_untouched(d, w, id);
        }
        Page::decode(id, self.store.io.read_page(id))
    }

    /// Allocates a page id, preferring free-list reuse over extending
    /// the file.
    pub fn allocate(&mut self) -> (id: PageId)
        requires
            old(self).wf(),
            old(self).store.spec_free_list().len() > 0 || old(self).store.spec_next_page_id()
                < u64::MAX,
        ensures
            final(self).wf(),
            !old(self).log.allocated().contains(id),
            final(self).log.allocated() == old(self).log.allocated().insert(id),
            final(self).log.writes_view() == old(self).log.writes_view(),
            final(self).log.freed_view() == old(self).log.freed_view(),
            final(self).store.same_tree(old(self).store),
            !old(self).store.tree_pages().contains(id),
            !old(self).store.spec_pending_free().contains(id),
            !old(self).log.freed_view().contains(id),
            old(self).store.spec_free_list().len() > 0 ==> id == old(self).store.spec_free_list().last()
                && final(self).store.spec_free_list() == old(self).store.spec_free_list().drop_last()
                && final(self).store.spec_next_page_id() == old(self).store.spec_next_page_id(),
            final(self).store.spec_free_list().is_prefix_of(old(self).store.spec_free_list()),
            old(self).store.spec_free_list().len() == 0 ==> id == old(self).store.spec_next_page_id()
                && final(self).store.spec_free_list() == old(self).store.spec_free_list()
                && final(self).store.spec_next_page_id() == old(self).store.spec_next_page_id() + 1,
            *final(final(self).store) == *final(old(self).store),
    {
        let ghost s0 = *self.store;
        let ghost a0 = self.log.allocated@;
        let id = match self.store.state.free_list.pop() {
            Some(id) => {
                proof {
                    let fl = s0.state.free_list@;
                    let k = fl.len() - 1;
                    assert(s0.payload()[k] == id);
                    assert(self.store.payload() =~= s0.payload().remove(k));
                    assert(fl.drop_last() == self.store.state.free_list@);
                }
                id
            },
            None => {
                let id = self.store.state.next_page_id;
                self.store.state.next_page_id = id + 1;
                id
            },
        };
        proof {
            let s = *self.store;
            let fl0 = s0.state.free_list@;
            let payload0 = s0.payload();
            if fl0.len() > 0 {
                assert(payload0[fl0.len() - 1] == id);
                assert(!s0.tree_pages().contains(id));
                assert(!s0.state.free_list_page_ids@.contains(id));
                assert forall|i: int| 0 <= i < s0.state.pending_free@.len() implies s0.state.pending_free@[i] != id by {
                    assert(payload0[fl0.len() + i] == s0.state.pending_free@[i]);
                }
                assert forall|i: int| 0 <= i < s.state.free_list@.len() implies s.state.free_list@[i] != id by {
                    assert(payload0[i] == s.state.free_list@[i]);
                }
            }
            if fl0.len() > 0 {
                assert(0 < payload0[fl0.len() - 1]);
            } else {
                lemma_pages_finite(s0.io.disk(), s0.root, s0.height@, None, None, s0.spec_page_size());
                assert(s0.tree_pages().contains(s0.root));
            }
            assert(0 < id < s.state.next_page_id);
            assert(!a0.contains(id));
            self.log.allocated@ = a0.insert(id);
            assert(ids_ok(s.tree_pages(), s.state.free_list_page_ids@, s.payload(), s.state.next_page_id)) by {
                assert forall|i: int| 0 <= i < s.payload().len() implies 0 < #[trigger] s.payload()[i]
                    < s.state.next_page_id && !s.tree_pages().contains(s.payload()[i]) by {
                    if fl0.len() > 0 {
                        if i < s.state.free_list@.len() {
                            assert(s.payload()[i] == payload0[i]);
                        } else {
                            assert(s.payload()[i] == payload0[i + 1]);
                        }
                    } else {
                        assert(s.payload()[i] == payload0[i]);
                    }
                }
                assert(no_dup(s.payload())) by {
                    assert forall|i: int, j: int| 0 <= i < j < s.payload().len() implies s.payload()[i]
                        != s.payload()[j] by {
                        if fl0.len() > 0 {
                            let i2 = if i < s.state.free_list@.len() { i } else { i + 1 };
                            let j2 = if j < s.state.free_list@.len() { j } else { j + 1 };
                            assert(s.payload()[i] == payload0[i2]);
                            assert(s.payload()[j] == payload0[j2]);
                        } else {
                            assert(s.payload()[i] == payload0[i]);
                            assert(s.payload()[j] == payload0[j]);
                        }
                    }
                }
                assert forall|i: int| 0 <= i < s.state.free_list_page_ids@.len() implies !s.payload().contains(
                    #[trigger] s.state.free_list_page_ids@[i],
                ) by {
                    let c = s.state.free_list_page_ids@[i];
                    assert(!payload0.contains(c));
                    if s.payload().contains(c) {
                        let j = choose|j: int| 0 <= j < s.payload().len() && s.payload()[j] == c;
                        if fl0.len() > 0 {
                            let j2 = if j < s.state.free_list@.len() { j } else { j + 1 };
                            assert(payload0[j2] == c);
                        } else {
                            assert(payload0[j] == c);
                        }
                    }
                }
            }
            assert forall|t: (PageId, nat)| #[trigger] s.snapshots@.contains(t) implies snapshot_ok(
                s.io.disk(),
                t,
                s.spec_page_size(),
                s.state.next_page_id,
                s.state.free_list@,
                s.state.free_list_page_ids@,
            ) by {
                assert(snapshot_ok(
                    s0.io.disk(),
                    t,
                    s0.spec_page_size(),
                    s0.state.next_page_id,
                    s0.state.free_list@,
                    s0.state.free_list_page_ids@,
                ));
                assert forall|p: PageId| #[trigger] pages_of(s.io.disk(), t.0, t.1).contains(p) implies !s.state.free_list@.contains(p) by {
                    if s.state.free_list@.contains(p) {
                        let j = choose|j: int| 0 <= j < s.state.free_list@.len() && s.state.free_list@[j] == p;
                        assert(fl0[j] == p);
                    }
                }
            }
            assert forall|p: PageId| #[trigger] self.log.allocated@.contains(p) implies !s.state.free_list@.contains(p) by {
                if s.state.free_list@.contains(p) {
                    let j = choose|j: int| 0 <= j < s.state.free_list@.len() && s.state.free_list@[j] == p;
                    assert(fl0[j] == p);
                    if p == id {
                        assert(payload0[j] == payload0[fl0.len() - 1]);
                    }
                }
            }
        }
        id
    }

    /// Buffers `page` as the new contents of `id`, a page this
    /// transaction allocated.
    pub fn write(&mut self, id: PageId, page: Page)
        requires
            old(self).wf(),
            old(self).log.allocated().contains(id),
            page.wf(),
            page.spec_nbytes() <= old(self).store.spec_page_size(),
        ensures
            final(self).wf(),
            final(self).disk() == old(self).disk().insert(id, final(self).disk()[id]),
            parse_page(final(self).disk()[id]) == Some((id, page.view())),
            decodable(id, final(self).disk()[id]),
            final(self).disk()[id].len() == old(self).store.spec_page_size(),
            final(self).log.allocated() == old(self).log.allocated(),
            final(self).log.freed_view() == old(self).log.freed_view(),
            *final(self).store == *old(self).store,
            *final(final(self).store) == *final(old(self).store),
    {
        let ps = self.page_size();
        let bytes = page.to_bytes(id, ps);
        let ghost b = bytes@;
        self.log.writes.push((id, bytes));
        proof {
            let w = self.log.writes_view();
            assert(w.drop_last() =~= old(self).log.writes_view());
            assert(w.last() == (id, b));
        }
    }

    /// Marks a page of the current tree as orphaned by this write. Not
    /// immediately reusable — see `commit`.
    pub fn free(&mut self, id: PageId)
        requires
            old(self).wf(),
            old(self).store.tree_pages().contains(id),
            !old(self).log.freed_view().contains(id),
        ensures
            final(self).wf(),
            final(self).log.freed_view() == old(self).log.freed_view().push(id),
            final(self).log.writes_view() == old(self).log.writes_view(),
            final(self).log.allocated() == old(self).log.allocated(),
            *final(self).store == *old(self).store,
            *final(final(self).store) == *final(old(self).store),
    {
        self.log.freed.push(id);
        proof {
            let f = self.log.freed@;
            assert forall|i: int, j: int| 0 <= i < j < f.len() implies f[i] != f[j] by {
                if j == f.len() - 1 {
                    assert(old(self).log.freed@[i] == f[i]);
                }
            }
        }
    }
}


/// `a` followed by `b`, copied.
fn concat_ids(a: &Vec<PageId>, b: &Vec<PageId>) -> (r: Vec<PageId>)
    ensures
        r@ == a@ + b@,
{
    let mut r: Vec<PageId> = Vec::new();
    let mut i: usize = 0;
    while i < a.len()
        invariant
            i <= a@.len(),
            r@ == a@.take(i as int),
        decreases a@.len() - i,
    {
        r.push(a[i]);
        i = i + 1;
        proof {
            assert(r@ =~= a@.take(i as int));
        }
    }
    let mut j: usize = 0;
    while j < b.len()
        invariant
            i == a@.len(),
            j <= b@.len(),
            r@ == a@ + b@.take(j as int),
        decreases b@.len() - j,
    {
        r.push(b[j]);
        j = j + 1;
        proof {
            assert(r@ =~= a@ + b@.take(j as int));
        }
    }
    proof {
        assert(a@.take(i as int) =~= a@);
        assert(b@.take(j as int) =~= b@);
    }
    r
}

impl<IO: PageIo> Store<IO> {
    /// Persists the free list — reusable ids, then pending ones — to its
    /// dedicated on-disk chain, in place (metadata is not copied on
    /// write). Chain pages are only ever bump-allocated, never taken from
    /// the very list being written, and once allocated are overwritten in
    /// place forever after.
    #[verifier::rlimit(40)]
    fn persist_free_list(&mut self) -> (r: (PageId, u64))
        requires
            page_size_ok(old(self).spec_page_size()),
            no_dup(old(self).state.free_list_page_ids@),
            forall|i: int|
                0 <= i < old(self).state.free_list_page_ids@.len() ==> 0 < #[trigger] old(
                    self,
                ).state.free_list_page_ids@[i] < old(self).state.next_page_id,
            old(self).state.next_page_id + old(self).payload().len() <= u64::MAX,
        ensures
            ({
                let ps = old(self).spec_page_size();
                let n = pages_needed(old(self).payload().len(), chain_cap(ps));
                let ch0 = old(self).state.free_list_page_ids@;
                let ch = final(self).state.free_list_page_ids@;
                let next0 = old(self).state.next_page_id;
                &&& ch.len() >= n
                &&& ch.len() >= ch0.len()
                &&& ch.len() <= ch0.len() + n
                &&& ch0.len() >= n ==> ch.len() == ch0.len()
                &&& forall|i: int| 0 <= i < ch0.len() ==> ch[i] == ch0[i]
                &&& forall|i: int| ch0.len() <= i < ch.len() ==> ch[i] == next0 + (i - ch0.len())
                &&& final(self).state.next_page_id == next0 + (ch.len() - ch0.len())
                &&& chain_ok(final(self).io.disk(), ch.take(n as int), old(self).payload(), ps)
                &&& forall|p: PageId|
                    !ch.take(n as int).contains(p) ==> final(self).io.disk().contains_key(p)
                        == old(self).io.disk().contains_key(p) && final(self).io.disk()[p] == old(
                        self,
                    ).io.disk()[p]
                &&& r.0 == chain_head(ch.take(n as int))
                &&& r.1 == old(self).payload().len()
            }),
            final(self).spec_page_size() == old(self).spec_page_size(),
            final(self).root == old(self).root,
            final(self).height == old(self).height,
            final(self).readers == old(self).readers,
            final(self).snapshots == old(self).snapshots,
            final(self).persisted == old(self).persisted,
            final(self).state.free_list == old(self).state.free_list,
            final(self).state.pending_free == old(self).state.pending_free,
    {
        let ghost ch0 = self.state.free_list_page_ids@;
        let ghost next0 = self.state.next_page_id;
        let ghost d0 = self.io.disk();
        let page_size = self.io.page_size();
        let ghost ps = page_size as nat;
        let cap0 = free_list_capacity(page_size);
        let cap = if cap0 >= 1 {
            cap0
        } else {
            1
        };
        let payload = concat_ids(&self.state.free_list, &self.state.pending_free);
        let ghost pl = payload@;
        let len = payload.len();
        let pages = if len == 0 {
            0
        } else {
            (len - 1) / cap + 1
        };
        proof {
            assert(cap == chain_cap(ps));
            assert(pages == pages_needed(len as nat, cap as nat));
            if len > 0 {
                let a: int = (len - 1) as int;
                let c: int = cap as int;
                assert(a / c <= a) by (nonlinear_arith)
                    requires
                        c >= 1,
                        a >= 0,
                ;
            }
        }
        while self.state.free_list_page_ids.len() < pages
            invariant
                self.io.disk() == d0,
                self.io.spec_page_size() == ps,
                pages <= len,
                next0 + len <= u64::MAX,
                self.state.free_list_page_ids@.len() >= ch0.len(),
                self.state.free_list_page_ids@.len() <= ch0.len() + pages,
                self.state.free_list_page_ids@.len() - ch0.len() <= pages,
                ch0.len() >= pages ==> self.state.free_list_page_ids@.len() == ch0.len(),
                forall|i: int| 0 <= i < ch0.len() ==> self.state.free_list_page_ids@[i] == ch0[i],
                forall|i: int|
                    ch0.len() <= i < self.state.free_list_page_ids@.len()
                        ==> self.state.free_list_page_ids@[i] == next0 + (i - ch0.len()),
                self.state.next_page_id == next0 + (self.state.free_list_page_ids@.len() - ch0.len()),
                self.root == old(self).root,
                self.height == old(self).height,
                self.readers == old(self).readers,
                self.snapshots == old(self).snapshots,
                self.persisted == old(self).persisted,
                self.state.free_list == old(self).state.free_list,
                self.state.pending_free == old(self).state.pending_free,
            decreases pages - self.state.free_list_page_ids@.len(),
        {
            let id = self.state.next_page_id;
            self.state.next_page_id = id + 1;
            self.state.free_list_page_ids.push(id);
        }
        let ghost ch = self.state.free_list_page_ids@;
        let ghost chu = ch.take(pages as int);
        proof {
            assert forall|i: int, j: int| 0 <= i < j < ch.len() implies ch[i] != ch[j] by {
                if j < ch0.len() {
                    assert(ch0[i] != ch0[j]);
                } else if i < ch0.len() {
                    assert(ch0[i] == old(self).state.free_list_page_ids@[i]);
                    assert(ch0[i] < next0);
                }
            }
        }
        let mut i: usize = 0;
        while i < pages
            invariant
                i <= pages,
                pages <= ch.len(),
                pages == pages_needed(pl.len(), cap as nat),
                pl.len() == len,
                cap == chain_cap(ps),
                cap <= u16::MAX,
                ps == page_size,
                page_size_ok(ps),
                self.io.spec_page_size() == ps,
                self.state.free_list_page_ids@ == ch,
                chu == ch.take(pages as int),
                payload@ == pl,
                forall|a: int, b: int| 0 <= a < b < ch.len() ==> ch[a] != ch[b],
                forall|j: int|
                    0 <= j < i ==> self.io.disk().contains_key(#[trigger] chu[j])
                        && parse_free_list_page(self.io.disk()[chu[j]]) == Some(
                        (chu[j], next_in_chain(chu, j), chunk(pl, cap as nat, j)),
                    ),
                forall|p: PageId|
                    !chu.contains(p) ==> self.io.disk().contains_key(p) == d0.contains_key(p)
                        && self.io.disk()[p] == d0[p],
                self.state.next_page_id == next0 + (ch.len() - ch0.len()),
                self.root == old(self).root,
                self.height == old(self).height,
                self.readers == old(self).readers,
                self.snapshots == old(self).snapshots,
                self.persisted == old(self).persisted,
                self.state.free_list == old(self).state.free_list,
                self.state.pending_free == old(self).state.pending_free,
            decreases pages - i,
        {
            proof {
                lemma_chunk_bounds(len as nat, cap as nat, i as int);
            }
            let id = self.state.free_list_page_ids[i];
            let next = if i + 1 < pages {
                self.state.free_list_page_ids[i + 1]
            } else {
                0
            };
            let lo = i * cap;
            let hi = if len - lo >= cap {
                lo + cap
            } else {
                len
            };
            let ids = vstd::slice::slice_subrange(payload.as_slice(), lo, hi);
            proof {
                assert(ids@ == chunk(pl, cap as nat, i as int));
                assert(id == chu[i as int]);
                assert(next == next_in_chain(chu, i as int));
                assert(ids@.len() <= cap);
            }
            let bytes = free_list_encode(id, next, ids, page_size);
            let ghost dprev = self.io.disk();
            self.io.write_page(id, bytes.as_slice());
            i = i + 1;
            proof {
                assert forall|j: int| 0 <= j < i implies self.io.disk().contains_key(#[trigger] chu[j])
                    && parse_free_list_page(self.io.disk()[chu[j]]) == Some(
                    (chu[j], next_in_chain(chu, j), chunk(pl, cap as nat, j)),
                ) by {
                    if j < i - 1 {
                        assert(chu[j] != id);
                    }
                }
                assert forall|p: PageId| !chu.contains(p) implies self.io.disk().contains_key(p)
                    == d0.contains_key(p) && self.io.disk()[p] == d0[p] by {
                    assert(p != chu[i - 1]);
                }
            }
        }
        let head = if pages > 0 {
            self.state.free_list_page_ids[0]
        } else {
            0
        };
        proof {
            assert(chu.len() == pages_needed(pl.len(), chain_cap(ps)));
            assert(head == chain_head(chu));
        }
        (head, len as u64)
    }
}


/// Dropping chain pages from the end keeps the id bookkeeping valid.
proof fn lemma_ids_ok_prefix(t: Set<PageId>, ch: Seq<PageId>, payload: Seq<PageId>, next: u64, k: int)
    requires
        ids_ok(t, ch, payload, next),
        0 <= k <= ch.len(),
    ensures
        ids_ok(t, ch.take(k), payload, next),
{
    let c = ch.take(k);
    assert forall|i: int| 0 <= i < c.len() implies 0 < #[trigger] c[i] < next && !t.contains(c[i])
        && !payload.contains(c[i]) by {
        assert(c[i] == ch[i]);
    }
    assert forall|i: int, j: int| 0 <= i < j < c.len() implies c[i] != c[j] by {
        assert(c[i] == ch[i] && c[j] == ch[j]);
    }
}

impl<'a, IO: PageIo> WriteTxn<'a, IO> {
    /// The copy-on-write commit protocol:
    /// 1. Apply buffered page writes.
    /// 2. Fold this transaction's frees into `pending_free`.
    /// 3. Quiescence gate: only promote `pending_free` into the reusable
    ///    `free_list` if no reader is registered — a page can only be
    ///    reused once no reader could still observe it.
    /// 4. Persist the free list to its on-disk chain.
    /// 5. Persist the header (metadata, updated in place, not COW).
    /// 6. Sync, then publish the new root.
    #[verifier::rlimit(100)]
    pub fn commit(&mut self, new_root: PageId)
        requires
            old(self).wf(),
            exists|h: nat| old(self).ready(new_root, h),
            old(self).st().spec_next_page_id() + old(self).st().payload().len() + old(
                self,
            ).log.freed_view().len() <= u64::MAX,
        ensures
            final(self).st().inv(),
            old(self).ready(new_root, final(self).st().spec_height()),
            final(self).st().spec_root() == new_root,
            final(self).st().view() == tree_map(old(self).disk(), new_root, final(self).st().spec_height()),
            final(self).st().spec_page_size() == old(self).st().spec_page_size(),
            final(self).st().spec_readers() == old(self).st().spec_readers(),
            final(self).st().payload() == old(self).st().payload() + old(self).log.freed_view(),
            final(self).st().durable_free_ids() == final(self).st().payload(),
            old(self).st().spec_readers() == 0 ==> final(self).st().spec_pending_free() == Seq::<
                PageId,
            >::empty() && final(self).st().snapshots() == Set::<(PageId, nat)>::empty(),
            old(self).st().spec_readers() > 0 ==> final(self).st().spec_free_list() == old(
                self,
            ).st().spec_free_list() && final(self).st().spec_pending_free() == old(
                self,
            ).st().spec_pending_free() + old(self).log.freed_view() && final(self).st().snapshots()
                == old(self).st().snapshots().insert((new_root, final(self).st().spec_height())),
            forall|t: (PageId, nat)|
                old(self).st().snapshots().contains(t) ==> final(self).st().snapshot_view(t) == old(
                    self,
                ).st().snapshot_view(t),
            forall|p: PageId| #[trigger]
                final(self).st().tree_pages().contains(p) ==> final(self).st().disk().contains_key(p)
                    == old(self).disk().contains_key(p) && final(self).st().disk()[p] == old(self).disk()[p],
            final(self).st().spec_next_page_id() <= old(self).st().spec_next_page_id()
                + final(self).st().payload().len(),
            pages_needed(final(self).st().payload().len(), chain_cap(final(self).st().spec_page_size()))
                <= old(self).st().spec_chain().len() ==> final(self).st().spec_next_page_id() == old(
                self,
            ).st().spec_next_page_id(),
            *final(final(self).store) == *final(old(self).store),
    {
        let ghost h2 = choose|h: nat| old(self).ready(new_root, h);
        let ghost s0 = *self.store;
        let ghost d0 = s0.io.disk();
        let ghost ps = s0.spec_page_size();
        let ghost w = self.log.writes_view();
        let ghost dw = self.disk();
        let ghost f = self.log.freed@;
        let ghost a = self.log.allocated@;
        let ghost t0 = s0.tree_pages();
        let ghost fl0 = s0.state.free_list@;
        let ghost pend0 = s0.state.pending_free@;
        let ghost ch0 = s0.state.free_list_page_ids@;
        let ghost next0 = s0.state.next_page_id;
        proof {
            assert(old(self).ready(new_root, h2));
        }
        let n = self.log.writes.len();
        let mut i: usize = 0;
        while i < n
            invariant
                i <= n,
                n == self.log.writes@.len(),
                w == self.log.writes_view(),
                forall|j: int| 0 <= j < n ==> (#[trigger] self.log.writes@[j]).1@.len() == ps,
                self.store.io.disk() == overlay(d0, w.take(i as int)),
                self.store.io.spec_page_size() == ps,
                self.store.root == s0.root,
                self.store.height == s0.height,
                self.store.readers == s0.readers,
                self.store.snapshots == s0.snapshots,
                self.store.persisted == s0.persisted,
                self.store.state == s0.state,
                self.log.freed == old(self).log.freed,
                *final(self.store) == *final(old(self).store),
            decreases n - i,
        {
            proof {
                assert(w[i as int] == (self.log.writes@[i as int].0, self.log.writes@[i as int].1@));
            }
            self.store.io.write_page(self.log.writes[i].0, self.log.writes[i].1.as_slice());
            i = i + 1;
            proof {
                assert(w.take(i as int).drop_last() =~= w.take(i - 1));
            }
        }
        proof {
            assert(w.take(n as int) =~= w);
        }
        self.store.state.pending_free.append(&mut self.log.freed);
        if self.store.readers == 0 {
            let mut promoted: Vec<PageId> = Vec::new();
            std::mem::swap(&mut promoted, &mut self.store.state.pending_free);
            self.store.state.free_list.append(&mut promoted);
        }
        proof {
            assert(self.store.payload() =~= s0.payload() + f);
            assert forall|i: int| 0 <= i < self.store.state.free_list_page_ids@.len() implies 0
                < #[trigger] self.store.state.free_list_page_ids@[i] < self.store.state.next_page_id by {
                assert(self.store.state.free_list_page_ids@[i] == ch0[i]);
            }
        }
        let ghost dwp = self.store.io.disk();
        let ghost payload1 = self.store.payload();
        let (free_list_head, free_count) = self.store.persist_free_list();
        let ps_exec = self.store.io.page_size();
        let header = Header {
            page_size: ps_exec,
            root_id: new_root,
            next_page_id: self.store.state.next_page_id,
            free_list_head,
            free_count,
        };
        let hb = header.to_bytes(ps_exec);
        let ghost dp = self.store.io.disk();
        self.store.io.write_page(HEADER_PAGE_ID, hb.as_slice());
        self.store.io.sync();
        self.store.root = new_root;
        proof {
            let s1 = *self.store;
            let d1 = s1.io.disk();
            let ch1 = s1.state.free_list_page_ids@;
            let next1 = s1.state.next_page_id;
            let fl1 = s1.state.free_list@;
            let np = pages_needed(payload1.len(), chain_cap(ps));
            let chu = ch1.take(np as int);
            assert(dwp == dw);
            assert(d1 == dp.insert(0, hb@));
            // where the chain pages lie
            assert forall|p: PageId| #[trigger] ch1.contains(p) implies ch0.contains(p) || next0 <= p by {
                let j = choose|j: int| 0 <= j < ch1.len() && ch1[j] == p;
                if j < ch0.len() {
                    assert(ch0[j] == p);
                }
            }
            lemma_pages_finite(d0, s0.root, s0.height@, None, None, ps);
            assert(t0.contains(s0.root));
            assert(0 < next0);
            assert forall|p: PageId| #[trigger] chu.contains(p) implies ch1.contains(p) && p != 0 by {
                let j = choose|j: int| 0 <= j < chu.len() && chu[j] == p;
                assert(chu[j] == ch1[j]);
                assert(ch1[j] == p);
                if j < ch0.len() {
                    assert(ch0[j] == p);
                    assert(0 < ch0[j]);
                }
            }
            // the pages of the new tree are untouched after the buffered writes
            let tn = pages_of(dw, new_root, h2);
            assert forall|p: PageId| #[trigger] tn.contains(p) implies 0 < p < next0 && !ch0.contains(p)
                && !ch1.contains(p) && !chu.contains(p) && !fl0.contains(p) && !s0.payload().contains(p)
                && !f.contains(p) by {
                assert(self.usable(p) || old(self).usable(p));
                assert(old(self).usable(p));
                if a.contains(p) {
                    if s0.payload().contains(p) {
                        let j = choose|j: int| 0 <= j < s0.payload().len() && s0.payload()[j] == p;
                        if j < fl0.len() {
                            assert(fl0.contains(p));
                        } else {
                            assert(pend0[j - fl0.len()] == p);
                            assert(pend0.contains(p));
                        }
                    }
                    if f.contains(p) {
                        let j = choose|j: int| 0 <= j < f.len() && f[j] == p;
                        assert(t0.contains(f[j]));
                    }
                } else {
                    assert(t0.contains(p));
                    if ch0.contains(p) {
                        let j = choose|j: int| 0 <= j < ch0.len() && ch0[j] == p;
                        assert(!t0.contains(ch0[j]));
                    }
                    if s0.payload().contains(p) {
                        let j = choose|j: int| 0 <= j < s0.payload().len() && s0.payload()[j] == p;
                        assert(!t0.contains(s0.payload()[j]));
                    }
                    if fl0.contains(p) {
                        let j = choose|j: int| 0 <= j < fl0.len() && fl0[j] == p;
                        assert(s0.payload()[j] == p);
                    }
                }
                if ch1.contains(p) {
                    assert(ch0.contains(p) || next0 <= p);
                }
            }
            assert(agree_on(dw, d1, tn)) by {
                assert forall|p: PageId| #[trigger] tn.contains(p) implies dw.contains_key(p)
                    == d1.contains_key(p) && dw[p] == d1[p] by {
                    assert(!chu.contains(p));
                }
            }
            lemma_subtree_frame(dw, d1, new_root, h2, None, None, ps);
            lemma_pages_finite(d1, new_root, h2, None, None, ps);
            assert(tree_map(d1, new_root, h2) =~= tree_map(dw, new_root, h2));
            // old snapshots stay intact
            assert forall|t: (PageId, nat)| #[trigger] s0.snapshots@.contains(t) implies subtree_ok(
                d1,
                t.0,
                t.1,
                None,
                None,
                ps,
            ) && pages_of(d1, t.0, t.1) == pages_of(d0, t.0, t.1) && tree_map(d1, t.0, t.1) == tree_map(
                d0,
                t.0,
                t.1,
            ) by {
                assert(snapshot_ok(d0, t, ps, next0, fl0, ch0));
                assert forall|p: PageId| #[trigger] pages_of(d0, t.0, t.1).contains(p) implies d0.contains_key(
                    p,
                ) == d1.contains_key(p) && d0[p] == d1[p] by {
                    if a.contains(p) {
                        assert(!pages_of(s0.io.disk(), t.0, t.1).contains(p));
                    }
                    self.lemma_disk_outside_allocated_at(old(self), p);
                    if chu.contains(p) {
                        assert(ch0.contains(p) || next0 <= p);
                    }
                }
                lemma_subtree_frame(d0, d1, t.0, t.1, None, None, ps);
                assert(tree_map(d1, t.0, t.1) =~= tree_map(d0, t.0, t.1));
            }
            // id bookkeeping of the new state
            assert(no_dup(ch1)) by {
                assert forall|i: int, j: int| 0 <= i < j < ch1.len() implies ch1[i] != ch1[j] by {
                    if j < ch0.len() {
                        assert(ch0[i] != ch0[j]);
                    } else if i < ch0.len() {
                        assert(ch0[i] < next0);
                    }
                }
            }
            assert(no_dup(payload1)) by {
                assert forall|i: int, j: int| 0 <= i < j < payload1.len() implies payload1[i] != payload1[j] by {
                    let k0 = s0.payload().len();
                    if j < k0 {
                        assert(s0.payload()[i] != s0.payload()[j]);
                    } else if i < k0 {
                        assert(f[j - k0] == payload1[j]);
                        assert(t0.contains(f[j - k0]));
                        assert(!t0.contains(s0.payload()[i]));
                    } else {
                        assert(f[i - k0] != f[j - k0]);
                    }
                }
            }
            assert forall|i: int| 0 <= i < payload1.len() implies 0 < #[trigger] payload1[i] < next1
                && !tn.contains(payload1[i]) && !ch1.contains(payload1[i]) by {
                let k0 = s0.payload().len();
                let x = payload1[i];
                if i < k0 {
                    assert(s0.payload()[i] == x);
                    assert(s0.payload().contains(x));
                    if ch0.contains(x) {
                        let j = choose|j: int| 0 <= j < ch0.len() && ch0[j] == x;
                        assert(!s0.payload().contains(ch0[j]));
                    }
                } else {
                    assert(f[i - k0] == x);
                    assert(f.contains(x));
                    assert(t0.contains(x));
                    if ch0.contains(x) {
                        let j = choose|j: int| 0 <= j < ch0.len() && ch0[j] == x;
                        assert(!t0.contains(ch0[j]));
                    }
                    lemma_pages_finite(d0, s0.root, s0.height@, None, None, ps);
                }
                if ch1.contains(x) {
                    assert(ch0.contains(x) || next0 <= x);
                }
            }
            assert forall|i: int| 0 <= i < ch1.len() implies 0 < #[trigger] ch1[i] < next1 && !tn.contains(
                ch1[i],
            ) && !payload1.contains(ch1[i]) by {
                assert(ch1.contains(ch1[i]));
                if i < ch0.len() {
                    assert(ch0[i] == ch1[i]);
                }
                if payload1.contains(ch1[i]) {
                    let j = choose|j: int| 0 <= j < payload1.len() && payload1[j] == ch1[i];
                    assert(!ch1.contains(payload1[j]));
                }
            }
            assert(ids_ok(tn, ch1, payload1, next1));
            lemma_ids_ok_prefix(tn, ch1, payload1, next1, np as int);
            assert(chain_ok(d1, chu, payload1, ps)) by {
                assert forall|i: int| 0 <= i < chu.len() implies d1.contains_key(#[trigger] chu[i])
                    && parse_free_list_page(d1[chu[i]]) == Some(
                    (chu[i], next_in_chain(chu, i), chunk(payload1, chain_cap(ps), i)),
                ) by {
                    assert(chu.contains(chu[i]));
                }
            }
            assert(header == header_of(ps, new_root, next1, chu, payload1));
            self.store.height@ = h2;
            self.store.persisted@ = (next1, chu, payload1);
            if s0.readers > 0 {
                self.store.snapshots@ = s0.snapshots@.insert((new_root, h2));
                assert forall|p: PageId| #[trigger] tn.contains(p) implies !fl1.contains(p) by {
                    assert(fl1 == fl0);
                }
            }
            let s2 = *self.store;
            assert(s2.tree_pages() == tn);
            assert forall|p: PageId| #[trigger] s2.tree_pages().contains(p) implies d1.contains_key(p)
                == dw.contains_key(p) && d1[p] == dw[p] by {
                assert(tn.contains(p));
            }
            assert(disk_ok(d1, ps, new_root, h2, next1, chu, payload1));
            assert forall|t: (PageId, nat)| #[trigger] s2.snapshots@.contains(t) implies snapshot_ok(
                d1,
                t,
                ps,
                next1,
                fl1,
                ch1,
            ) by {
                if t == (new_root, h2) && s0.readers > 0 {
                    assert(pages_of(d1, new_root, h2) == tn);
                } else {
                    assert(s0.snapshots@.contains(t));
                    assert(snapshot_ok(d0, t, ps, next0, fl0, ch0));
                    assert(fl1 == fl0);
                    assert forall|p: PageId| #[trigger] pages_of(d1, t.0, t.1).contains(p) implies 0 < p
                        < next1 && !fl1.contains(p) && !ch1.contains(p) by {
                        assert(pages_of(d0, t.0, t.1).contains(p));
                        if ch1.contains(p) {
                            assert(ch0.contains(p) || next0 <= p);
                        }
                    }
                }
            }
            assert(s2.inv());
            lemma_pages_needed_le(payload1.len(), chain_cap(ps));
            assert(s2.payload() == payload1);
            assert forall|t: (PageId, nat)| s0.snapshots@.contains(t) implies s2.snapshot_view(t)
                == s0.snapshot_view(t) by {
                assert(s0.snapshots@.contains(t));
            }
        }
    }

    /// Like `lemma_disk_outside_allocated`, for the transaction as it was.
    proof fn lemma_disk_outside_allocated_at(&self, t: &WriteTxn<'a, IO>, p: PageId)
        requires
            t.wf(),
            !t.log.allocated().contains(p),
        ensures
            t.disk().contains_key(p) == t.st().disk().contains_key(p),
            t.disk()[p] == t.st().disk()[p],
    {
        t.lemma_disk_outside_allocated(p);
    }
}


/// Two free-list chains recorded on one disk from the same head and with
/// the same length run through the same pages, with the same ids.
#[verifier::rlimit(40)]
#[verifier::spinoff_prover]
proof fn lemma_chain_unique(d: Disk, c1: Seq<PageId>, p1: Seq<PageId>, c2: Seq<PageId>, p2: Seq<PageId>, ps: nat)
    requires
        chain_ok(d, c1, p1, ps),
        chain_ok(d, c2, p2, ps),
        chain_head(c1) == chain_head(c2),
        p1.len() == p2.len(),
    ensures
        c1 == c2,
        p1 == p2,
{
    let cap = chain_cap(ps);
    let n = p1.len();
    assert(c1.len() == c2.len());
    lemma_chain_pages_eq(d, c1, p1, c2, p2, ps, c1.len() as int);
    assert(c1 =~= c2);
    let c: int = cap as int;
    assert forall|j: int| 0 <= j < n implies p1[j] == p2[j] by {
        let i = j / c;
        vstd::arithmetic::div_mod::lemma_fundamental_div_mod(j, c);
        vstd::arithmetic::div_mod::lemma_div_is_ordered(j, (n - 1) as int, c);
        vstd::arithmetic::div_mod::lemma_mod_bound(j, c);
        vstd::arithmetic::div_mod::lemma_div_pos_is_pos(j, c);
        assert(0 <= i);
        assert(i < pages_needed(n, cap));
        lemma_chunk_bounds(n, cap, i);
        let r = j % c;
        assert(i * c <= j) by (nonlinear_arith)
            requires
                j == c * i + r,
                r >= 0,
        ;
        assert(j < (i + 1) * c) by (nonlinear_arith)
            requires
                j == c * i + r,
                r < c,
        ;
        assert(c1[i] == c2[i]);
        assert(parse_free_list_page(d[c1[i]]) == Some((c1[i], next_in_chain(c1, i), chunk(p1, cap, i))));
        assert(parse_free_list_page(d[c2[i]]) == Some((c2[i], next_in_chain(c2, i), chunk(p2, cap, i))));
        assert(chunk(p1, cap, i) == chunk(p2, cap, i));
        assert(chunk(p1, cap, i)[j - i * c] == p1[j]);
        assert(chunk(p2, cap, i)[j - i * c] == p2[j]);
    }
    assert(p1 =~= p2);
}

/// The first `k` pages of two such chains agree.
#[verifier::spinoff_prover]
proof fn lemma_chain_pages_eq(
    d: Disk,
    c1: Seq<PageId>,
    p1: Seq<PageId>,
    c2: Seq<PageId>,
    p2: Seq<PageId>,
    ps: nat,
    k: int,
)
    requires
        chain_ok(d, c1, p1, ps),
        chain_ok(d, c2, p2, ps),
        chain_head(c1) == chain_head(c2),
        c1.len() == c2.len(),
        0 <= k <= c1.len(),
    ensures
        forall|j: int| 0 <= j < k ==> c1[j] == c2[j],
    decreases k,
{
    if k > 0 {
        lemma_chain_pages_eq(d, c1, p1, c2, p2, ps, k - 1);
        let j = k - 1;
        let cap = chain_cap(ps);
        if j == 0 {
            assert(c1[0] == chain_head(c1));
            assert(c2[0] == chain_head(c2));
        } else {
            let x1 = c1[j - 1];
            let x2 = c2[j - 1];
            assert(x1 == x2);
            assert(parse_free_list_page(d[x1]) == Some((x1, next_in_chain(c1, j - 1), chunk(p1, cap, j - 1))));
            assert(parse_free_list_page(d[x2]) == Some((x2, next_in_chain(c2, j - 1), chunk(p2, cap, j - 1))));
            assert(next_in_chain(c1, j - 1) == c1[j]);
            assert(next_in_chain(c2, j - 1) == c2[j]);
        }
    }
}

/// A disk records at most one store: its root, height, bump pointer,
/// free-list chain and free ids are all determined by the pages.
pub proof fn lemma_disk_determines(
    d: Disk,
    ps: nat,
    r1: PageId,
    h1: nat,
    n1: u64,
    c1: Seq<PageId>,
    p1: Seq<PageId>,
    r2: PageId,
    h2: nat,
    n2: u64,
    c2: Seq<PageId>,
    p2: Seq<PageId>,
)
    requires
        page_size_ok(ps),
        disk_ok(d, ps, r1, h1, n1, c1, p1),
        disk_ok(d, ps, r2, h2, n2, c2, p2),
    ensures
        r1 == r2,
        h1 == h2,
        n1 == n2,
        c1 == c2,
        p1 == p2,
{
    let hd1 = header_of(ps, r1, n1, c1, p1);
    let hd2 = header_of(ps, r2, n2, c2, p2);
    lemma_parse_header_page_bytes(hd1, ps);
    lemma_parse_header_page_bytes(hd2, ps);
    assert(hd1 == hd2);
    crate::storage::model::lemma_height_unique(d, r1, h1, h2, None, None, None, None, ps);
    lemma_chain_unique(d, c1, p1, c2, p2, ps);
}

impl<IO: PageIo> Store<IO> {
    /// Two stores over the same pages hold the same tree, the same map
    /// and the same recorded free ids.
    pub proof fn lemma_same_disk_same_store(a: &Self, b: &Self)
        requires
            a.inv(),
            b.inv(),
            a.disk() == b.disk(),
            a.spec_page_size() == b.spec_page_size(),
        ensures
            a.spec_root() == b.spec_root(),
            a.spec_height() == b.spec_height(),
            a.view() == b.view(),
            a.durable_free_ids() == b.durable_free_ids(),
    {
        lemma_disk_determines(
            a.disk(),
            a.spec_page_size(),
            a.root,
            a.height@,
            a.persisted@.0,
            a.persisted@.1,
            a.persisted@.2,
            b.root,
            b.height@,
            b.persisted@.0,
            b.persisted@.1,
            b.persisted@.2,
        );
    }

    /// Reopening a backend recovers the store that last committed to
    /// it: the same key-value map, and every free id it recorded —
    /// reusable and pending alike — as reusable, with none pending.
    pub proof fn lemma_reopen_recovers(before: &Self, reopened: &Self)
        requires
            before.inv(),
            reopened.inv(),
            reopened.fresh_from_disk(),
            reopened.disk() == before.disk(),
            reopened.spec_page_size() == before.spec_page_size(),
        ensures
            reopened.view() == before.view(),
            reopened.spec_root() == before.spec_root(),
            reopened.spec_free_list() == before.durable_free_ids(),
            reopened.spec_pending_free() == Seq::<PageId>::empty(),
            reopened.spec_readers() == 0,
    {
        Self::lemma_same_disk_same_store(before, reopened);
    }
}

} // verus!
