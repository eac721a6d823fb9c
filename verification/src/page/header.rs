use vstd::prelude::*;

use crate::io::PageId;
use crate::page::codec::{
    le32, le64, lemma_le32_roundtrip, lemma_le64_roundtrip, push_slice, push_u32, push_u64,
    push_zeros, read_u32, read_u64, u32_at, u64_at, zero_bytes,
};
use crate::page::PAGE_TYPE_HEADER;

verus! {

/// File signature, `b"HWBTREE1"`.
const MAGIC: [u8; 8] = [0x48, 0x57, 0x42, 0x54, 0x52, 0x45, 0x45, 0x31];

/// On-disk format version understood by this build.
const VERSION: u32 = 2;

pub open spec fn spec_magic() -> Seq<u8> {
    seq![0x48u8, 0x57u8, 0x42u8, 0x54u8, 0x52u8, 0x45u8, 0x45u8, 0x31u8]
}

pub open spec fn spec_version() -> u32 {
    2
}

/// Page 0 is always the header page.
pub const HEADER_PAGE_ID: PageId = 0;

/// The header page: identifies the file, records the configured page
/// size, and points at the current root and free-list chain. Updated in
/// place on each commit (metadata isn't COW).
///
/// Layout: type tag(1B)=0x2A | magic(8B) | version(4B) | page_size(4B) |
/// root_id(8B) | next_page_id(8B) | free_list_head(8B) | free_count(8B)
#[derive(Debug, Clone, Copy, PartialEq, Eq, Structural)]
pub struct Header {
    pub page_size: usize,
    pub root_id: PageId,
    pub next_page_id: u64,
    /// Id of the first page in the on-disk free-list chain, `0` = none.
    pub free_list_head: PageId,
    /// Diagnostic: total entries across the whole free-list chain.
    pub free_count: u64,
}

/// Why a page 0 didn't decode into a valid `Header`.
#[derive(Debug, Clone, Copy, PartialEq, Eq, Structural)]
pub enum DecodeError {
    /// No recognizable header at all — a fresh/empty backend, safe to
    /// bootstrap.
    NotAHeader,
    /// A real header page, but from an incompatible format version.
    VersionMismatch { found: u32, expected: u32 },
}

/// Bytes of the header page for `h`, `page_size` long.
pub open spec fn header_page_bytes(h: Header, page_size: nat) -> Seq<u8> {
    seq![PAGE_TYPE_HEADER] + spec_magic() + le32(spec_version()) + le32(h.page_size as u32) + le64(
        h.root_id,
    ) + le64(h.next_page_id) + le64(h.free_list_head) + le64(h.free_count) + zero_bytes(
        (page_size - 49) as nat,
    )
}

/// How page 0 reads back.
pub open spec fn parse_header(b: Seq<u8>) -> Result<Header, DecodeError> {
    if b.len() < 49 || b[0] != PAGE_TYPE_HEADER || b.subrange(1, 9) != spec_magic() {
        Err(DecodeError::NotAHeader)
    } else if u32_at(b, 9) != spec_version() {
        Err(DecodeError::VersionMismatch { found: u32_at(b, 9), expected: spec_version() })
    } else {
        Ok(
            Header {
                page_size: u32_at(b, 13) as usize,
                root_id: u64_at(b, 17),
                next_page_id: u64_at(b, 25),
                free_list_head: u64_at(b, 33),
                free_count: u64_at(b, 41),
            },
        )
    }
}

/// A header page written by this module reads back as the same header.
pub proof fn lemma_parse_header_page_bytes(h: Header, page_size: nat)
    requires
        page_size >= 49,
        h.page_size <= u32::MAX,
    ensures
        header_page_bytes(h, page_size).len() == page_size,
        parse_header(header_page_bytes(h, page_size)) == Ok::<Header, DecodeError>(h),
{
    lemma_le32_roundtrip(spec_version());
    lemma_le32_roundtrip(h.page_size as u32);
    lemma_le64_roundtrip(h.root_id);
    lemma_le64_roundtrip(h.next_page_id);
    lemma_le64_roundtrip(h.free_list_head);
    lemma_le64_roundtrip(h.free_count);
    let b = header_page_bytes(h, page_size);
    assert(b.subrange(1, 9) =~= spec_magic());
    assert(b.subrange(9, 13) =~= le32(spec_version()));
    assert(b.subrange(13, 17) =~= le32(h.page_size as u32));
    assert(b.subrange(17, 25) =~= le64(h.root_id));
    assert(b.subrange(25, 33) =~= le64(h.next_page_id));
    assert(b.subrange(33, 41) =~= le64(h.free_list_head));
    assert(b.subrange(41, 49) =~= le64(h.free_count));
}

impl Header {
    pub fn new(page_size: usize, root_id: PageId, next_page_id: u64) -> (r: Self)
        ensures
            r == (Header { page_size, root_id, next_page_id, free_list_head: 0, free_count: 0 }),
    {
        Header { page_size, root_id, next_page_id, free_list_head: 0, free_count: 0 }
    }

    pub fn to_bytes(self, page_size: usize) -> (r: Vec<u8>)
        requires
            page_size >= 49,
        ensures
            r@ == header_page_bytes(self, page_size as nat),
            r@.len() == page_size,
    {
        let mut buf: Vec<u8> = Vec::with_capacity(page_size);
        buf.push(PAGE_TYPE_HEADER);
        let magic = MAGIC;
        push_slice(&mut buf, &magic);
        push_u32(&mut buf, VERSION);
        push_u32(&mut buf, self.page_size as u32);
        push_u64(&mut buf, self.root_id);
        push_u64(&mut buf, self.next_page_id);
        push_u64(&mut buf, self.free_list_head);
        push_u64(&mut buf, self.free_count);
        push_zeros(&mut buf, page_size - 49);
        proof {
            assert(magic@ =~= spec_magic());
            lemma_le32_roundtrip(VERSION);
            lemma_le32_roundtrip(self.page_size as u32);
            lemma_le64_roundtrip(self.root_id);
            lemma_le64_roundtrip(self.next_page_id);
            lemma_le64_roundtrip(self.free_list_head);
            lemma_le64_roundtrip(self.free_count);
            assert(buf@ =~= header_page_bytes(self, page_size as nat));
        }
        buf
    }

    /// `Err(NotAHeader)` for anything that isn't a header page at all —
    /// a fresh/empty backend included, which the caller treats as
    /// "bootstrap a new store". `Err(VersionMismatch)` for a real but
    /// incompatible-version header, which the caller must treat as a hard
    /// error rather than silently rebuilding.
    pub fn from_bytes(bytes: &[u8]) -> (r: Result<Self, DecodeError>)
        ensures
            r == parse_header(bytes@),
    {
        let n = bytes.len();
        if n < 49 || bytes[0] != PAGE_TYPE_HEADER {
            return Err(DecodeError::NotAHeader);
        }
        let magic = MAGIC;
        let mut i: usize = 0;
        while i < 8
            invariant
                n == bytes@.len(),
                n >= 49,
                magic@ == spec_magic(),
                i <= 8,
                forall|j: int| 0 <= j < i ==> bytes@[1 + j] == spec_magic()[j],
            decreases 8 - i,
        {
            if bytes[1 + i] != magic[i] {
                proof {
                    assert(bytes@.subrange(1, 9)[i as int] != spec_magic()[i as int]);
                }
                return Err(DecodeError::NotAHeader);
            }
            i = i + 1;
        }
        proof {
            assert(bytes@.subrange(1, 9) =~= spec_magic());
        }
        let version = read_u32(bytes, 9);
        if version != VERSION {
            return Err(DecodeError::VersionMismatch { found: version, expected: VERSION });
        }
        Ok(
            Header {
                page_size: read_u32(bytes, 13) as usize,
                root_id: read_u64(bytes, 17),
                next_page_id: read_u64(bytes, 25),
                free_list_head: read_u64(bytes, 33),
                free_count: read_u64(bytes, 41),
            },
        )
    }
}

} // verus!
