pub mod codec;
pub mod free_list;
pub mod header;
pub mod internal;
pub mod keys;
pub mod leaf;

use vstd::prelude::*;

use crate::io::PageId;
use crate::page::internal::{keys_sorted, parse_internal_page, InternalNode};
use crate::page::leaf::{entries_sorted, parse_leaf_page, LeafEntry, LeafNode};

verus! {

/// Shared 1-byte page-type tag convention (offset 0 of every page).
pub const PAGE_TYPE_HEADER: u8 = 0x2A;
pub const PAGE_TYPE_LEAF: u8 = 0x01;
pub const PAGE_TYPE_INTERNAL: u8 = 0x02;
pub const PAGE_TYPE_FREE_LIST: u8 = 0x03;

/// What a tree page holds, independent of its byte layout.
pub enum PageView {
    Leaf(Seq<LeafEntry>),
    Internal(Seq<Seq<u8>>, Seq<PageId>),
}

/// Parses a tree page (leaf or internal): its stored page id and contents.
pub open spec fn parse_page(b: Seq<u8>) -> Option<(PageId, PageView)> {
    if b.len() > 0 && b[0] == PAGE_TYPE_LEAF {
        match parse_leaf_page(b) {
            Some((id, m)) => Some((id, PageView::Leaf(m))),
            None => None,
        }
    } else if b.len() > 0 && b[0] == PAGE_TYPE_INTERNAL {
        match parse_internal_page(b) {
            Some((id, ks, cs)) => Some((id, PageView::Internal(ks, cs))),
            None => None,
        }
    } else {
        None
    }
}

/// Keys inside the page are strictly increasing.
pub open spec fn view_sorted(v: PageView) -> bool {
    match v {
        PageView::Leaf(m) => entries_sorted(m),
        PageView::Internal(ks, cs) => keys_sorted(ks),
    }
}

/// `b` is a tree page stamped with `id` that `Page::decode` accepts.
pub open spec fn decodable(id: PageId, b: Seq<u8>) -> bool {
    &&& parse_page(b) is Some
    &&& parse_page(b).unwrap().0 == id
    &&& b.len() <= u16::MAX
}

pub enum Page {
    Leaf(LeafNode),
    Internal(InternalNode),
}

impl Page {
    /// What the page holds.
    pub open spec fn view(&self) -> PageView {
        match self {
            Page::Leaf(l) => PageView::Leaf(l.view_entries()),
            Page::Internal(i) => PageView::Internal(i.view_keys(), i.view_children()),
        }
    }

    pub open spec fn wf(&self) -> bool {
        match self {
            Page::Leaf(l) => l.wf(),
            Page::Internal(i) => i.wf() && i.complete(),
        }
    }

    /// The id stamped in the page.
    pub open spec fn spec_id(&self) -> PageId {
        match self {
            Page::Leaf(l) => l.spec_id(),
            Page::Internal(i) => i.spec_id(),
        }
    }

    pub open spec fn spec_nbytes(&self) -> nat {
        match self {
            Page::Leaf(l) => l.spec_nbytes(),
            Page::Internal(i) => i.spec_nbytes(),
        }
    }

    pub fn decode(id: PageId, bytes: Vec<u8>) -> (r: Self)
        requires
            decodable(id, bytes@),
        ensures
            r.wf(),
            r.view() == parse_page(bytes@).unwrap().1,
            r.spec_id() == id,
    {
        if bytes[0] == PAGE_TYPE_LEAF {
            Page::Leaf(LeafNode::decode(id, bytes))
        } else {
            Page::Internal(InternalNode::decode(id, bytes))
        }
    }

    pub fn to_bytes(&self, id: PageId, page_size: usize) -> (r: Vec<u8>)
        requires
            self.wf(),
            self.spec_nbytes() <= page_size,
            page_size <= u16::MAX,
        ensures
            r@.len() == page_size,
            parse_page(r@) == Some((id, self.view())),
            decodable(id, r@),
    {
        match self {
            Page::Leaf(l) => {
                proof {
                    l.lemma_wf_facts();
                    crate::page::leaf::lemma_parse_leaf_page_bytes(id, l.view_entries(), page_size as nat);
                }
                l.to_bytes(id, page_size)
            },
            Page::Internal(i) => {
                proof {
                    i.lemma_wf_facts();
                    crate::page::internal::lemma_parse_internal_page_bytes(
                        id,
                        i.view_keys(),
                        i.view_children(),
                        page_size as nat,
                    );
                }
                i.to_bytes(id, page_size)
            },
        }
    }
}

/// Why a `put` was refused.
#[derive(Debug, PartialEq, Eq, Structural, Clone, Copy)]
pub enum Error {
    EntryTooLarge { len: usize, max: usize },
}

/// The largest combined key+value size that is always safe to insert:
/// `(page_size - INTERNAL_HEADER - 28) / 2`, or 0 for tiny pages.
pub open spec fn spec_max_kv_size(page_size: nat) -> nat {
    if page_size >= 39 {
        ((page_size - 39) / 2) as nat
    } else {
        0
    }
}

/// The largest combined key+value size that's always safe to insert.
pub fn max_kv_size(page_size: usize) -> (m: usize)
    ensures
        m == spec_max_kv_size(page_size as nat),
{
    page_size.saturating_sub(11 + 28) / 2
}

/// Refuses a key/value pair whose combined size exceeds `max_kv_size`.
pub fn check_limits(page_size: usize, key: &[u8], val: &[u8]) -> (r: Result<(), Error>)
    requires
        key@.len() + val@.len() <= usize::MAX,
    ensures
        r is Ok <==> key@.len() + val@.len() <= spec_max_kv_size(page_size as nat),
        r matches Err(Error::EntryTooLarge { len, max }) ==> len == key@.len() + val@.len()
            && max == spec_max_kv_size(page_size as nat),
{
    let max = max_kv_size(page_size);
    let len = key.len() + val.len();
    if len > max {
        return Err(Error::EntryTooLarge { len, max });
    }
    Ok(())
}

} // verus!
