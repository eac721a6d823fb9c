//! The version-1 header page, as read and written by the store built on
//! the pointer-and-offset node format (`node`): no page-type tag, the
//! magic at offset 0.
use vstd::prelude::*;

use crate::io::PageId;
use crate::page::codec::{
    le32, le64, lemma_le32_roundtrip, lemma_le64_roundtrip, push_slice, push_u32, push_u64,
    push_zeros, read_u32, read_u64, u32_at, u64_at, zero_bytes,
};
use crate::page::header::spec_magic;

verus! {

/// File signature, `b"HWBTREE1"`.
const MAGIC: [u8; 8] = [0x48, 0x57, 0x42, 0x54, 0x52, 0x45, 0x45, 0x31];

/// Format version of this header layout.
const VERSION: u32 = 1;

/// Page 0 is always the header page.
pub const HEADER_PAGE_ID: PageId = 0;

/// The header page: identifies the file, records the configured page
/// size, and points at the current root and free list. Updated in place
/// on each commit (metadata is not copied on write).
///
/// Layout: magic(8B) | version(4B) | page_size(4B) | root_id(8B) |
/// next_page_id(8B) | free_list_head(8B) | free_count(8B)
#[derive(Debug, Clone, Copy, PartialEq, Eq, Structural)]
pub struct Header {
    pub page_size: usize,
    pub root_id: PageId,
    pub next_page_id: u64,
    pub free_list_head: PageId,
    pub free_count: u64,
}

/// Bytes of the header page for `h`, `page_size` long.
pub open spec fn header_v1_bytes(h: Header, page_size: nat) -> Seq<u8> {
    spec_magic() + le32(1) + le32(h.page_size as u32) + le64(h.root_id) + le64(h.next_page_id) + le64(
        h.free_list_head,
    ) + le64(h.free_count) + zero_bytes((page_size - 48) as nat)
}

/// How page 0 reads back: a header only if it starts with the magic and
/// carries this version.
pub open spec fn parse_header_v1(b: Seq<u8>) -> Option<Header> {
    if b.len() < 48 || b.subrange(0, 8) != spec_magic() || u32_at(b, 8) != 1 {
        None
    } else {
        Some(
            Header {
                page_size: u32_at(b, 12) as usize,
                root_id: u64_at(b, 16),
                next_page_id: u64_at(b, 24),
                free_list_head: u64_at(b, 32),
                free_count: u64_at(b, 40),
            },
        )
    }
}

/// A header page written by this module reads back as the same header.
pub proof fn lemma_parse_header_v1_bytes(h: Header, page_size: nat)
    requires
        page_size >= 48,
        h.page_size <= u32::MAX,
    ensures
        header_v1_bytes(h, page_size).len() == page_size,
        parse_header_v1(header_v1_bytes(h, page_size)) == Some(h),
{
    lemma_le32_roundtrip(1);
    lemma_le32_roundtrip(h.page_size as u32);
    lemma_le64_roundtrip(h.root_id);
    lemma_le64_roundtrip(h.next_page_id);
    lemma_le64_roundtrip(h.free_list_head);
    lemma_le64_roundtrip(h.free_count);
    let b = header_v1_bytes(h, page_size);
    assert(b.subrange(0, 8) =~= spec_magic());
    assert(b.subrange(8, 12) =~= le32(1));
    assert(b.subrange(12, 16) =~= le32(h.page_size as u32));
    assert(b.subrange(16, 24) =~= le64(h.root_id));
    assert(b.subrange(24, 32) =~= le64(h.next_page_id));
    assert(b.subrange(32, 40) =~= le64(h.free_list_head));
    assert(b.subrange(40, 48) =~= le64(h.free_count));
}

impl Header {
    pub fn new(page_size: usize, root_id: PageId, next_page_id: u64) -> (r: Self)
        ensures
            r == (Header { page_size, root_id, next_page_id, free_list_head: 0, free_count: 0 }),
    {
        Header { page_size, root_id, next_page_id, free_list_head: 0, free_count: 0 }
    }

    pub fn to_bytes(self, page_size: usize) -> (r: Vec<u8>)
        requires
            page_size >= 48,
        ensures
            r@ == header_v1_bytes(self, page_size as nat),
            r@.len() == page_size,
    {
        let mut buf: Vec<u8> = Vec::with_capacity(page_size);
        let magic = MAGIC;
        push_slice(&mut buf, &magic);
        push_u32(&mut buf, VERSION);
        push_u32(&mut buf, self.page_size as u32);
        push_u64(&mut buf, self.root_id);
        push_u64(&mut buf, self.next_page_id);
        push_u64(&mut buf, self.free_list_head);
        push_u64(&mut buf, self.free_count);
        push_zeros(&mut buf, page_size - 48);
        proof {
            assert(magic@ =~= spec_magic());
            lemma_le32_roundtrip(VERSION);
            lemma_le32_roundtrip(self.page_size as u32);
            lemma_le64_roundtrip(self.root_id);
            lemma_le64_roundtrip(self.next_page_id);
            lemma_le64_roundtrip(self.free_list_head);
            lemma_le64_roundtrip(self.free_count);
            assert(buf@ =~= header_v1_bytes(self, page_size as nat));
        }
        buf
    }

    /// Returns `None` for anything that isn't a valid, matching-version
    /// header page — a fresh/empty backend included, which the caller
    /// treats as "bootstrap a new store".
    pub fn from_bytes(bytes: &[u8]) -> (r: Option<Self>)
        ensures
            r == parse_header_v1(bytes@),
    {
        let n = bytes.len();
        if n < 48 {
            return None;
        }
        let magic = MAGIC;
        let mut i: usize = 0;
        while i < 8
            invariant
                n == bytes@.len(),
                n >= 48,
                magic@ == spec_magic(),
                i <= 8,
                forall|j: int| 0 <= j < i ==> bytes@[j] == spec_magic()[j],
            decreases 8 - i,
        {
            if bytes[i] != magic[i] {
                proof {
                    assert(bytes@.subrange(0, 8)[i as int] != spec_magic()[i as int]);
                }
                return None;
            }
            i = i + 1;
        }
        proof {
            assert(bytes@.subrange(0, 8) =~= spec_magic());
        }
        let version = read_u32(bytes, 8);
        if version != VERSION {
            return None;
        }
        Some(
            Header {
                page_size: read_u32(bytes, 12) as usize,
                root_id: read_u64(bytes, 16),
                next_page_id: read_u64(bytes, 24),
                free_list_head: read_u64(bytes, 32),
                free_count: read_u64(bytes, 40),
            },
        )
    }
}

} // verus!
