use vstd::prelude::*;

use crate::io::PageId;
use crate::page::codec::{
    le16, le64, lemma_le16_roundtrip, lemma_le64_roundtrip, push_u16, push_u64, push_zeros,
    read_u16, read_u64, u16_at, u64_at, zero_bytes,
};
use crate::page::internal::{enc_children, lemma_enc_children_len, lemma_parse_children_enc, parse_children};
use crate::page::PAGE_TYPE_FREE_LIST;

verus! {

/// 1B type tag + 8B page id + 8B next page id + 2B count.
pub const FREE_LIST_HEADER: u16 = 19;

pub open spec fn spec_free_list_capacity(page_size: nat) -> nat {
    ((page_size - 19) / 8) as nat
}

/// Bytes of a free-list page.
pub open spec fn free_list_page_bytes(id: PageId, next: PageId, ids: Seq<PageId>, page_size: nat) -> Seq<u8> {
    seq![PAGE_TYPE_FREE_LIST] + le64(id) + le64(next) + le16(ids.len()) + enc_children(ids) + zero_bytes(
        (page_size - 19 - 8 * ids.len()) as nat,
    )
}

/// Parses a free-list page: its own id, the next page of the chain, and
/// the free page ids it stores.
pub open spec fn parse_free_list_page(b: Seq<u8>) -> Option<(PageId, PageId, Seq<PageId>)> {
    if b.len() >= 19 && b[0] == PAGE_TYPE_FREE_LIST && 19 + 8 * u16_at(b, 17) <= b.len() {
        Some((u64_at(b, 1), u64_at(b, 9), parse_children(b.subrange(19, b.len() as int), u16_at(b, 17) as nat)))
    } else {
        None
    }
}

pub proof fn lemma_parse_free_list_page_bytes(id: PageId, next: PageId, ids: Seq<PageId>, page_size: nat)
    requires
        ids.len() <= spec_free_list_capacity(page_size),
        page_size >= 19,
        ids.len() <= u16::MAX,
    ensures
        free_list_page_bytes(id, next, ids, page_size).len() == page_size,
        parse_free_list_page(free_list_page_bytes(id, next, ids, page_size)) == Some((id, next, ids)),
{
    lemma_enc_children_len(ids);
    lemma_le16_roundtrip(ids.len());
    lemma_le64_roundtrip(id);
    lemma_le64_roundtrip(next);
    let b = free_list_page_bytes(id, next, ids, page_size);
    let z = zero_bytes((page_size - 19 - 8 * ids.len()) as nat);
    assert(b.subrange(1, 9) =~= le64(id));
    assert(b.subrange(9, 17) =~= le64(next));
    assert(b.subrange(17, 19) =~= le16(ids.len()));
    assert(b.subrange(19, b.len() as int) =~= enc_children(ids) + z);
    lemma_parse_children_enc(ids, z);
}

/// On-disk layout:
///
/// | tag(1B)=0x03 | page id(8B) | next page id(8B) | count(2B) | free page ids... | unused |
///
/// `next page id == 0` marks the end of the chain. Entries are
/// fixed-width `u64`s, so no offset cache is needed (unlike leaf/internal
/// pages).
pub fn free_list_capacity(page_size: usize) -> (r: usize)
    requires
        page_size >= 19,
    ensures
        r == spec_free_list_capacity(page_size as nat),
{
    (page_size - FREE_LIST_HEADER as usize) / 8
}

pub fn free_list_encode(id: PageId, next: PageId, ids: &[PageId], page_size: usize) -> (r: Vec<u8>)
    requires
        page_size >= 19,
        ids@.len() <= spec_free_list_capacity(page_size as nat),
        ids@.len() <= u16::MAX,
    ensures
        r@ == free_list_page_bytes(id, next, ids@, page_size as nat),
        r@.len() == page_size,
        parse_free_list_page(r@) == Some((id, next, ids@)),
{
    let n = ids.len();
    proof {
        lemma_parse_free_list_page_bytes(id, next, ids@, page_size as nat);
    }
    let mut buf: Vec<u8> = Vec::with_capacity(page_size);
    buf.push(PAGE_TYPE_FREE_LIST);
    push_u64(&mut buf, id);
    push_u64(&mut buf, next);
    push_u16(&mut buf, n as u16);
    let ghost before = buf@;
    let mut i: usize = 0;
    while i < n
        invariant
            n == ids@.len(),
            i <= n,
            buf@ == before + enc_children(ids@.take(i as int)),
        decreases n - i,
    {
        push_u64(&mut buf, ids[i]);
        i = i + 1;
        proof {
            assert(ids@.take(i as int).drop_last() =~= ids@.take(i - 1));
        }
    }
    proof {
        assert(ids@.take(n as int) =~= ids@);
        lemma_enc_children_len(ids@);
    }
    push_zeros(&mut buf, page_size - FREE_LIST_HEADER as usize - 8 * n);
    proof {
        assert(buf@ =~= free_list_page_bytes(id, next, ids@, page_size as nat));
    }
    buf
}

/// Returns `(next page id, free page ids stored on this page)`.
pub fn free_list_decode(expected_id: PageId, bytes: Vec<u8>) -> (r: (PageId, Vec<PageId>))
    requires
        parse_free_list_page(bytes@) is Some,
        parse_free_list_page(bytes@).unwrap().0 == expected_id,
    ensures
        r.0 == parse_free_list_page(bytes@).unwrap().1,
        r.1@ == parse_free_list_page(bytes@).unwrap().2,
{
    let ghost parsed = parse_free_list_page(bytes@).unwrap();
    let blen = bytes.len();
    let next = read_u64(bytes.as_slice(), 9);
    let count = read_u16(bytes.as_slice(), 17) as usize;
    let ghost body = bytes@.subrange(19, blen as int);
    let mut ids: Vec<PageId> = Vec::with_capacity(count);
    let mut pos: usize = FREE_LIST_HEADER as usize;
    let mut i: usize = 0;
    while i < count
        invariant
            blen == bytes@.len(),
            19 + 8 * count <= blen,
            body == bytes@.subrange(19, blen as int),
            parsed.2 == parse_children(body, count as nat),
            i <= count,
            pos == 19 + 8 * i,
            ids@ == parsed.2.take(i as int),
        decreases count - i,
    {
        let v = read_u64(bytes.as_slice(), pos);
        proof {
            assert(bytes@.subrange(pos as int, pos + 8) =~= body.subrange(8 * i, 8 * i + 8));
            assert(parsed.2.take(i + 1) =~= parsed.2.take(i as int).push(parsed.2[i as int]));
        }
        ids.push(v);
        pos = pos + 8;
        i = i + 1;
    }
    proof {
        assert(ids@ =~= parsed.2);
    }
    (next, ids)
}

} // verus!
