use vstd::prelude::*;
use vstd::bytes::*;
use vstd::slice::*;

use crate::io::PageId;
use crate::page::codec::{
    le16, le64, lemma_le16_roundtrip, lemma_le64_roundtrip, push_slice, push_u16, push_u64,
    push_zeros, read_u16, read_u64, to_vec, u16_at, u64_at, zero_bytes,
};
use crate::page::keys::{compare_keys, lemma_lex_order, lemma_lex_transitive, lex_le, lex_lt, KeyOrder};
use crate::page::leaf::lemma_subrange_in_prefix;
use crate::page::PAGE_TYPE_INTERNAL;

verus! {

/// 1B type tag + 8B page id + 2B key count.
pub const INTERNAL_HEADER: u16 = 11;

/// On-disk form of one separator key: `key_len(2B) | key`.
pub open spec fn enc_key(k: Seq<u8>) -> Seq<u8> {
    le16(k.len()) + k
}

/// The separator keys, back to back.
pub open spec fn enc_keys(ks: Seq<Seq<u8>>) -> Seq<u8>
    decreases ks.len(),
{
    if ks.len() == 0 {
        Seq::empty()
    } else {
        enc_keys(ks.drop_last()) + enc_key(ks.last())
    }
}

/// Encoded size of a run of separator keys.
pub open spec fn keys_size(ks: Seq<Seq<u8>>) -> nat
    decreases ks.len(),
{
    if ks.len() == 0 {
        0
    } else {
        keys_size(ks.drop_last()) + 2 + ks.last().len()
    }
}

/// The child page ids, 8 little-endian bytes each.
pub open spec fn enc_children(cs: Seq<PageId>) -> Seq<u8>
    decreases cs.len(),
{
    if cs.len() == 0 {
        Seq::empty()
    } else {
        enc_children(cs.drop_last()) + le64(cs.last())
    }
}

pub open spec fn keys_fit_u16(ks: Seq<Seq<u8>>) -> bool {
    forall|i: int| 0 <= i < ks.len() ==> #[trigger] ks[i].len() <= u16::MAX
}

pub open spec fn keys_sorted(ks: Seq<Seq<u8>>) -> bool {
    forall|i: int, j: int| 0 <= i < j < ks.len() ==> lex_lt(#[trigger] ks[i], #[trigger] ks[j])
}

/// Splicing a key that sorts between its neighbours into sorted keys
/// keeps them sorted.
pub proof fn lemma_spliced_sorted(ks: Seq<Seq<u8>>, i: int, sep: Seq<u8>)
    requires
        keys_sorted(ks),
        0 <= i <= ks.len(),
        i > 0 ==> lex_lt(ks[i - 1], sep),
        i < ks.len() ==> lex_lt(sep, ks[i]),
    ensures
        keys_sorted(ks.take(i).push(sep) + ks.skip(i)),
{
    let s = ks.take(i).push(sep) + ks.skip(i);
    lemma_lex_order();
    assert forall|a: int, b: int| 0 <= a < b < s.len() implies lex_lt(#[trigger] s[a], #[trigger] s[b]) by {
        if a < i && b > i {
            assert(s[a] == ks[a] && s[b] == ks[b - 1]);
        } else if a < i && b == i {
            assert(s[a] == ks[a]);
            if a < i - 1 {
                assert(lex_lt(ks[a], ks[i - 1]));
            }
        } else if a == i {
            assert(s[b] == ks[b - 1]);
            if b - 1 > i {
                assert(lex_lt(ks[i], ks[b - 1]));
            }
        } else if a < i {
            assert(s[a] == ks[a] && s[b] == ks[b]);
        } else {
            assert(s[a] == ks[a - 1] && s[b] == ks[b - 1]);
        }
    }
}

/// Parses `n` separator keys from the front of `b`.
pub open spec fn parse_keys(b: Seq<u8>, n: nat) -> Option<Seq<Seq<u8>>>
    decreases n,
{
    if n == 0 {
        Some(Seq::empty())
    } else if b.len() < 2 {
        None
    } else {
        let kl = u16_at(b, 0) as int;
        if b.len() < 2 + kl {
            None
        } else {
            match parse_keys(b.subrange(2 + kl, b.len() as int), (n - 1) as nat) {
                Some(rest) => Some(seq![b.subrange(2, 2 + kl)] + rest),
                None => None,
            }
        }
    }
}

/// The `n` child ids stored at the front of `b`.
pub open spec fn parse_children(b: Seq<u8>, n: nat) -> Seq<PageId> {
    Seq::new(n, |i: int| u64_at(b, 8 * i))
}

/// Bytes of an internal page of `page_size` bytes with page id `id`.
pub open spec fn internal_page_bytes(
    id: PageId,
    ks: Seq<Seq<u8>>,
    cs: Seq<PageId>,
    page_size: nat,
) -> Seq<u8> {
    seq![PAGE_TYPE_INTERNAL] + le64(id) + le16(ks.len()) + enc_keys(ks) + enc_children(cs)
        + zero_bytes((page_size - 11 - keys_size(ks) - 8 * cs.len()) as nat)
}

/// Parses an internal page: stored page id, separator keys, children.
pub open spec fn parse_internal_page(b: Seq<u8>) -> Option<(PageId, Seq<Seq<u8>>, Seq<PageId>)> {
    if b.len() >= 11 && b[0] == PAGE_TYPE_INTERNAL {
        let n = u16_at(b, 9) as nat;
        match parse_keys(b.subrange(11, b.len() as int), n) {
            Some(ks) => {
                let cpos = 11 + keys_size(ks);
                if cpos + 8 * (n + 1) <= b.len() {
                    Some((u64_at(b, 1), ks, parse_children(b.subrange(cpos as int, b.len() as int), n + 1)))
                } else {
                    None
                }
            },
            None => None,
        }
    } else {
        None
    }
}

pub proof fn lemma_enc_key_len(k: Seq<u8>)
    ensures
        enc_key(k).len() == 2 + k.len(),
{
    lemma_auto_spec_u16_to_from_le_bytes();
    assert(spec_u16_to_le_bytes(k.len() as u16).len() == 2);
}

pub proof fn lemma_enc_keys_len(ks: Seq<Seq<u8>>)
    ensures
        enc_keys(ks).len() == keys_size(ks),
        keys_size(ks) >= 2 * ks.len(),
    decreases ks.len(),
{
    if ks.len() > 0 {
        lemma_enc_keys_len(ks.drop_last());
        lemma_enc_key_len(ks.last());
    }
}

pub proof fn lemma_enc_keys_append(a: Seq<Seq<u8>>, b: Seq<Seq<u8>>)
    ensures
        enc_keys(a + b) == enc_keys(a) + enc_keys(b),
        keys_size(a + b) == keys_size(a) + keys_size(b),
    decreases b.len(),
{
    if b.len() == 0 {
        assert(a + b =~= a);
        assert(enc_keys(a) + enc_keys(b) =~= enc_keys(a));
    } else {
        lemma_enc_keys_append(a, b.drop_last());
        assert((a + b).drop_last() =~= a + b.drop_last());
        assert((a + b).last() == b.last());
        assert(enc_keys(a + b) =~= enc_keys(a) + enc_keys(b.drop_last()) + enc_key(b.last()));
    }
}

pub proof fn lemma_enc_keys_single(k: Seq<u8>)
    ensures
        enc_keys(seq![k]) == enc_key(k),
        keys_size(seq![k]) == 2 + k.len(),
{
    assert(seq![k].drop_last() =~= Seq::<Seq<u8>>::empty());
    assert(enc_keys(Seq::<Seq<u8>>::empty()) == Seq::<u8>::empty());
    assert(keys_size(Seq::<Seq<u8>>::empty()) == 0);
    assert(enc_keys(seq![k]) =~= enc_key(k));
}

pub proof fn lemma_keys_prefix_sizes(ks: Seq<Seq<u8>>, i: int, j: int)
    requires
        0 <= i <= j <= ks.len(),
    ensures
        keys_size(ks.take(i)) <= keys_size(ks.take(j)),
        j == i + 1 ==> keys_size(ks.take(j)) == keys_size(ks.take(i)) + 2 + ks[i].len(),
        keys_size(ks.take(j)) <= keys_size(ks),
        keys_size(ks.subrange(i, j)) == keys_size(ks.take(j)) - keys_size(ks.take(i)),
        keys_size(ks.skip(j)) == keys_size(ks) - keys_size(ks.take(j)),
{
    assert(ks.take(j) =~= ks.take(i) + ks.subrange(i, j));
    lemma_enc_keys_append(ks.take(i), ks.subrange(i, j));
    assert(ks =~= ks.take(j) + ks.skip(j));
    lemma_enc_keys_append(ks.take(j), ks.skip(j));
    if j == i + 1 {
        assert(ks.subrange(i, j) =~= seq![ks[i]]);
        lemma_enc_keys_single(ks[i]);
    }
}

/// Layout of key `i` inside the key encoding.
pub proof fn lemma_key_at(ks: Seq<Seq<u8>>, i: int)
    requires
        0 <= i < ks.len(),
        keys_fit_u16(ks),
    ensures
        ({
            let s = keys_size(ks.take(i)) as int;
            let b = enc_keys(ks);
            &&& s + 2 + ks[i].len() <= b.len()
            &&& keys_size(ks.take(i + 1)) == s + 2 + ks[i].len()
            &&& u16_at(b, s) == ks[i].len()
            &&& b.subrange(s + 2, s + 2 + ks[i].len()) == ks[i]
        }),
{
    let s = keys_size(ks.take(i)) as int;
    let b = enc_keys(ks);
    lemma_keys_prefix_sizes(ks, i, i + 1);
    lemma_keys_prefix_sizes(ks, i + 1, ks.len() as int);
    assert(ks =~= ks.take(i) + seq![ks[i]] + ks.skip(i + 1));
    lemma_enc_keys_append(ks.take(i) + seq![ks[i]], ks.skip(i + 1));
    lemma_enc_keys_append(ks.take(i), seq![ks[i]]);
    lemma_enc_keys_single(ks[i]);
    lemma_enc_keys_len(ks.take(i));
    lemma_enc_keys_len(ks);
    lemma_le16_roundtrip(ks[i].len());
    assert(b =~= enc_keys(ks.take(i)) + (le16(ks[i].len()) + ks[i]) + enc_keys(ks.skip(i + 1)));
    assert(b.subrange(s, s + 2) =~= le16(ks[i].len()));
    assert(b.subrange(s + 2, s + 2 + ks[i].len()) =~= ks[i]);
}

pub proof fn lemma_enc_children_len(cs: Seq<PageId>)
    ensures
        enc_children(cs).len() == 8 * cs.len(),
    decreases cs.len(),
{
    if cs.len() > 0 {
        lemma_enc_children_len(cs.drop_last());
        lemma_le64_roundtrip(cs.last());
    }
}

pub proof fn lemma_enc_children_at(cs: Seq<PageId>, i: int)
    requires
        0 <= i < cs.len(),
    ensures
        enc_children(cs).subrange(8 * i, 8 * i + 8) == le64(cs[i]),
        u64_at(enc_children(cs), 8 * i) == cs[i],
    decreases cs.len(),
{
    lemma_enc_children_len(cs);
    lemma_enc_children_len(cs.drop_last());
    lemma_le64_roundtrip(cs.last());
    if i == cs.len() - 1 {
        assert(enc_children(cs).subrange(8 * i, 8 * i + 8) =~= le64(cs.last()));
    } else {
        lemma_enc_children_at(cs.drop_last(), i);
        assert(enc_children(cs).subrange(8 * i, 8 * i + 8) =~= enc_children(cs.drop_last()).subrange(
            8 * i,
            8 * i + 8,
        ));
    }
    lemma_le64_roundtrip(cs[i]);
}

pub proof fn lemma_parse_children_enc(cs: Seq<PageId>, t: Seq<u8>)
    ensures
        parse_children(enc_children(cs) + t, cs.len()) == cs,
{
    lemma_enc_children_len(cs);
    let b = enc_children(cs) + t;
    assert forall|i: int| 0 <= i < cs.len() implies #[trigger] parse_children(b, cs.len())[i] == cs[i] by {
        lemma_enc_children_at(cs, i);
        assert(b.subrange(8 * i, 8 * i + 8) =~= enc_children(cs).subrange(8 * i, 8 * i + 8));
    }
    assert(parse_children(b, cs.len()) =~= cs);
}

pub proof fn lemma_parse_enc_keys(ks: Seq<Seq<u8>>, t: Seq<u8>)
    requires
        keys_fit_u16(ks),
    ensures
        parse_keys(enc_keys(ks) + t, ks.len()) == Some(ks),
    decreases ks.len(),
{
    if ks.len() > 0 {
        let k = ks[0];
        let rest = ks.drop_first();
        assert(ks =~= seq![k] + rest);
        lemma_enc_keys_append(seq![k], rest);
        lemma_enc_keys_single(k);
        assert(keys_fit_u16(rest)) by {
            assert forall|i: int| 0 <= i < rest.len() implies #[trigger] rest[i].len() <= u16::MAX by {
                assert(rest[i] == ks[i + 1]);
            }
        }
        lemma_parse_enc_keys(rest, t);
        let b = enc_keys(ks) + t;
        let kl = k.len() as int;
        assert(ks[0] == k);
        lemma_le16_roundtrip(k.len());
        assert(b =~= le16(k.len()) + k + (enc_keys(rest) + t));
        assert(b.subrange(0, 2) =~= le16(k.len()));
        assert(b.subrange(2, 2 + kl) =~= k);
        assert(b.subrange(2 + kl, b.len() as int) =~= enc_keys(rest) + t);
    }
}

pub proof fn lemma_parse_keys_prefix(b: Seq<u8>, n: nat)
    requires
        parse_keys(b, n) is Some,
    ensures
        ({
            let ks = parse_keys(b, n).unwrap();
            &&& ks.len() == n
            &&& keys_fit_u16(ks)
            &&& enc_keys(ks).len() <= b.len()
            &&& b.subrange(0, enc_keys(ks).len() as int) == enc_keys(ks)
        }),
    decreases n,
{
    let ks = parse_keys(b, n).unwrap();
    if n == 0 {
        assert(b.subrange(0, 0) =~= Seq::<u8>::empty());
    } else {
        let kl = u16_at(b, 0) as int;
        let k = b.subrange(2, 2 + kl);
        let tail = b.subrange(2 + kl, b.len() as int);
        lemma_parse_keys_prefix(tail, (n - 1) as nat);
        let rest = parse_keys(tail, (n - 1) as nat).unwrap();
        assert(ks == seq![k] + rest);
        lemma_enc_keys_append(seq![k], rest);
        lemma_enc_keys_single(k);
        lemma_auto_spec_u16_to_from_le_bytes();
        assert(b.subrange(0, 2).len() == 2);
        assert(spec_u16_to_le_bytes(spec_u16_from_le_bytes(b.subrange(0, 2))) == b.subrange(0, 2));
        assert(le16(k.len()) == b.subrange(0, 2));
        let ee = enc_keys(rest);
        assert(b.subrange(0, enc_keys(ks).len() as int) =~= b.subrange(0, 2) + b.subrange(2, 2 + kl)
            + tail.subrange(0, ee.len() as int));
        assert forall|i: int| 0 <= i < ks.len() implies #[trigger] ks[i].len() <= u16::MAX by {
            if i > 0 {
                assert(ks[i] == rest[i - 1]);
            }
        }
    }
}

/// Parsing an internal page that this module wrote gives back what was
/// written.
pub proof fn lemma_parse_internal_page_bytes(
    id: PageId,
    ks: Seq<Seq<u8>>,
    cs: Seq<PageId>,
    page_size: nat,
)
    requires
        keys_fit_u16(ks),
        ks.len() <= u16::MAX,
        cs.len() == ks.len() + 1,
        11 + keys_size(ks) + 8 * cs.len() <= page_size,
    ensures
        internal_page_bytes(id, ks, cs, page_size).len() == page_size,
        parse_internal_page(internal_page_bytes(id, ks, cs, page_size)) == Some((id, ks, cs)),
{
    lemma_enc_keys_len(ks);
    lemma_enc_children_len(cs);
    lemma_le16_roundtrip(ks.len());
    lemma_le64_roundtrip(id);
    let b = internal_page_bytes(id, ks, cs, page_size);
    let z = zero_bytes((page_size - 11 - keys_size(ks) - 8 * cs.len()) as nat);
    assert(b.subrange(1, 9) =~= le64(id));
    assert(b.subrange(9, 11) =~= le16(ks.len()));
    assert(b.subrange(11, b.len() as int) =~= enc_keys(ks) + (enc_children(cs) + z));
    lemma_parse_enc_keys(ks, enc_children(cs) + z);
    let cpos = 11 + keys_size(ks);
    assert(b.subrange(cpos as int, b.len() as int) =~= enc_children(cs) + z);
    lemma_parse_children_enc(cs, z);
}

/// An internal page: N separator keys, N+1 child pointers.
/// On-disk layout:
///
/// | tag(1B)=0x02 | page id(8B) | key count N(2B) | keys... | children... | unused |
///
/// Keys: `key_len(2B) | key`, repeated N times, no values. Children:
/// `child page id(8B)`, repeated N+1 times, fixed-width and contiguous
/// right after the keys.
///
/// Convention: `child[0]` covers keys `< key[0]`; `child[i]` (`0<i<N`)
/// covers `[key[i-1], key[i])`; `child[N]` covers `>= key[N-1]`.
pub struct InternalNode {
    id: PageId,
    keys: Vec<u8>,
    key_start: Vec<u16>,
    children: Vec<PageId>,
    model: Ghost<Seq<Seq<u8>>>,
}

impl InternalNode {
    /// The separator keys, in order.
    pub closed spec fn view_keys(&self) -> Seq<Seq<u8>> {
        self.model@
    }

    /// The child page ids, in order.
    pub closed spec fn view_children(&self) -> Seq<PageId> {
        self.children@
    }

    pub closed spec fn spec_id(&self) -> PageId {
        self.id
    }

    /// Bytes the node occupies when serialized.
    pub open spec fn spec_nbytes(&self) -> nat {
        11 + keys_size(self.view_keys()) + 8 * self.view_children().len()
    }

    /// Keys and children are in the N / N+1 shape of a finished node.
    pub open spec fn complete(&self) -> bool {
        self.view_children().len() == self.view_keys().len() + 1
    }

    pub closed spec fn wf(&self) -> bool {
        let ks = self.model@;
        &&& self.keys@ == enc_keys(ks)
        &&& self.key_start@.len() == ks.len() + 1
        &&& forall|i: int| 0 <= i <= ks.len() ==> #[trigger] self.key_start@[i] == keys_size(ks.take(i))
        &&& self.keys@.len() <= u16::MAX
        &&& self.children@.len() <= u16::MAX
        &&& keys_fit_u16(ks)
    }

    pub proof fn lemma_wf_facts(&self)
        requires
            self.wf(),
        ensures
            keys_fit_u16(self.view_keys()),
            keys_size(self.view_keys()) <= u16::MAX,
            self.view_keys().len() * 2 <= u16::MAX,
            self.view_children().len() <= u16::MAX,
    {
        lemma_enc_keys_len(self.model@);
    }

    pub fn empty(capacity_hint: usize) -> (r: Self)
        ensures
            r.wf(),
            r.view_keys() == Seq::<Seq<u8>>::empty(),
            r.view_children() == Seq::<PageId>::empty(),
            r.spec_id() == 0,
    {
        let mut key_start: Vec<u16> = Vec::new();
        key_start.push(0);
        let r = InternalNode {
            id: 0,
            keys: Vec::with_capacity(capacity_hint),
            key_start,
            children: Vec::new(),
            model: Ghost(Seq::empty()),
        };
        proof {
            assert forall|i: int| 0 <= i <= 0 implies #[trigger] r.key_start@[i] == keys_size(
                Seq::<Seq<u8>>::empty().take(i),
            ) by {
                assert(Seq::<Seq<u8>>::empty().take(i) =~= Seq::<Seq<u8>>::empty());
            }
        }
        r
    }

    /// Decodes an internal page written by `to_bytes`.
    pub fn decode(expected_id: PageId, bytes: Vec<u8>) -> (r: Self)
        requires
            parse_internal_page(bytes@) is Some,
            parse_internal_page(bytes@).unwrap().0 == expected_id,
            bytes@.len() <= u16::MAX,
        ensures
            r.wf(),
            r.complete(),
            r.spec_id() == expected_id,
            r.view_keys() == parse_internal_page(bytes@).unwrap().1,
            r.view_children() == parse_internal_page(bytes@).unwrap().2,
    {
        let ghost parsed = parse_internal_page(bytes@).unwrap();
        let ghost full = parsed.1;
        let blen = bytes.len();
        let id = read_u64(bytes.as_slice(), 1);
        let nkeys = read_u16(bytes.as_slice(), 9);
        let ghost body = bytes@.subrange(11, blen as int);
        proof {
            lemma_parse_keys_prefix(body, nkeys as nat);
            lemma_enc_keys_len(full);
        }
        let mut key_start: Vec<u16> = Vec::new();
        key_start.push(0u16);
        let mut pos: usize = 11;
        let mut i: u16 = 0;
        while i < nkeys
            invariant
                blen == bytes@.len(),
                11 <= blen <= u16::MAX,
                body == bytes@.subrange(11, blen as int),
                full == parse_keys(body, nkeys as nat).unwrap(),
                full.len() == nkeys,
                keys_fit_u16(full),
                enc_keys(full).len() <= body.len(),
                body.subrange(0, enc_keys(full).len() as int) == enc_keys(full),
                enc_keys(full).len() == keys_size(full),
                i <= nkeys,
                pos == 11 + keys_size(full.take(i as int)),
                key_start@.len() == i + 1,
                forall|j: int| 0 <= j <= i ==> #[trigger] key_start@[j] == keys_size(full.take(j)),
            decreases nkeys - i,
        {
            proof {
                lemma_key_at(full, i as int);
                lemma_keys_prefix_sizes(full, i as int, i + 1);
                lemma_keys_prefix_sizes(full, i + 1, nkeys as int);
                let s = keys_size(full.take(i as int)) as int;
                let eb = enc_keys(full);
                lemma_subrange_in_prefix(body, eb, s, s + 2);
                assert(bytes@.subrange(pos as int, pos + 2) =~= body.subrange(s, s + 2));
            }
            let klen = read_u16(bytes.as_slice(), pos) as usize;
            pos = pos + 2 + klen;
            key_start.push((pos - 11) as u16);
            i = i + 1;
            proof {
                assert forall|j: int| 0 <= j <= i implies #[trigger] key_start@[j] == keys_size(full.take(j)) by {
                }
            }
        }
        proof {
            assert(full.take(nkeys as int) =~= full);
            lemma_subrange_in_prefix(body, enc_keys(full), 0, enc_keys(full).len() as int);
            assert(bytes@.subrange(11, pos as int) =~= body.subrange(0, enc_keys(full).len() as int));
        }
        let keys_end = pos;
        let keys = to_vec(slice_subrange(bytes.as_slice(), 11, keys_end));
        let ghost cbody = bytes@.subrange(keys_end as int, blen as int);
        let mut children: Vec<PageId> = Vec::new();
        let mut cpos = keys_end;
        let nc: usize = nkeys as usize + 1;
        let mut c: usize = 0;
        while c < nc
            invariant
                blen == bytes@.len(),
                11 <= blen <= u16::MAX,
                nc == nkeys + 1,
                cbody == bytes@.subrange(keys_end as int, blen as int),
                keys_end + 8 * nc <= blen,
                parsed.2 == parse_children(cbody, nc as nat),
                c <= nc,
                cpos == keys_end + 8 * c,
                children@ == parsed.2.take(c as int),
            decreases nc - c,
        {
            let child = read_u64(bytes.as_slice(), cpos);
            proof {
                assert(bytes@.subrange(cpos as int, cpos + 8) =~= cbody.subrange(8 * c, 8 * c + 8));
                assert(parsed.2[c as int] == u64_at(cbody, 8 * c));
                assert(parsed.2.take(c + 1) =~= parsed.2.take(c as int).push(parsed.2[c as int]));
            }
            children.push(child);
            cpos = cpos + 8;
            c = c + 1;
        }
        proof {
            assert(children@ =~= parsed.2);
        }
        proof {
            lemma_le64_roundtrip(id);
        }
        InternalNode { id, keys, key_start, children, model: Ghost(full) }
    }

    pub fn id(&self) -> (r: PageId)
        ensures
            r == self.spec_id(),
    {
        self.id
    }

    pub fn nkeys(&self) -> (r: u16)
        requires
            self.wf(),
        ensures
            r == self.view_keys().len(),
    {
        proof {
            self.lemma_wf_facts();
        }
        (self.key_start.len() - 1) as u16
    }

    pub fn nchildren(&self) -> (r: u16)
        requires
            self.wf(),
            self.view_keys().len() < u16::MAX,
        ensures
            r == self.view_keys().len() + 1,
    {
        self.nkeys() + 1
    }

    pub fn get_key(&self, idx: u16) -> (r: &[u8])
        requires
            self.wf(),
            idx < self.view_keys().len(),
        ensures
            r@ == self.view_keys()[idx as int],
    {
        proof {
            lemma_key_at(self.model@, idx as int);
            lemma_enc_keys_len(self.model@);
        }
        let start = self.key_start[idx as usize] as usize;
        let end = self.key_start[idx as usize + 1] as usize;
        slice_subrange(self.keys.as_slice(), start + 2, end)
    }

    pub fn get_child(&self, idx: u16) -> (r: PageId)
        requires
            idx < self.view_children().len(),
        ensures
            r == self.view_children()[idx as int],
    {
        self.children[idx as usize]
    }

    pub fn nbytes(&self) -> (r: usize)
        requires
            self.wf(),
        ensures
            r == self.spec_nbytes(),
    {
        proof {
            lemma_enc_keys_len(self.model@);
        }
        INTERNAL_HEADER as usize + self.keys.len() + 8 * self.children.len()
    }

    /// Appends a separator key; a node built for a tree gets its keys in
    /// strictly increasing order.
    pub fn push_key(&mut self, key: &[u8])
        requires
            old(self).wf(),
            keys_size(old(self).view_keys()) + 2 + key@.len() <= u16::MAX,
        ensures
            final(self).wf(),
            final(self).view_keys() == old(self).view_keys().push(key@),
            final(self).view_children() == old(self).view_children(),
            final(self).spec_id() == old(self).spec_id(),
    {
        let ghost ks = self.model@;
        proof {
            lemma_enc_keys_len(ks);
            lemma_enc_key_len(key@);
            lemma_lex_order();
            assert(ks.push(key@).drop_last() =~= ks);
        }
        push_u16(&mut self.keys, key.len() as u16);
        push_slice(&mut self.keys, key);
        let end = self.keys.len() as u16;
        self.key_start.push(end);
        self.model = Ghost(ks.push(key@));
        proof {
            let k2 = ks.push(key@);
            assert(self.keys@ =~= enc_keys(ks) + enc_key(key@));
            lemma_enc_keys_len(k2);
            assert(k2.take(k2.len() as int) =~= k2);
            assert forall|i: int| 0 <= i <= k2.len() implies #[trigger] self.key_start@[i] == keys_size(k2.take(i)) by {
                if i <= ks.len() {
                    assert(k2.take(i) =~= ks.take(i));
                }
            }
        }
    }

    pub fn push_child(&mut self, child: PageId)
        requires
            old(self).wf(),
            old(self).view_children().len() < u16::MAX,
        ensures
            final(self).wf(),
            final(self).view_keys() == old(self).view_keys(),
            final(self).view_children() == old(self).view_children().push(child),
            final(self).spec_id() == old(self).spec_id(),
    {
        self.children.push(child);
    }

    /// Serializes into a fixed `page_size`-byte page with `id` stamped in.
    pub fn to_bytes(&self, id: PageId, page_size: usize) -> (r: Vec<u8>)
        requires
            self.wf(),
            self.complete(),
            self.spec_nbytes() <= page_size,
        ensures
            r@ == internal_page_bytes(id, self.view_keys(), self.view_children(), page_size as nat),
            r@.len() == page_size,
    {
        proof {
            self.lemma_wf_facts();
            lemma_enc_keys_len(self.model@);
            lemma_parse_internal_page_bytes(id, self.model@, self.children@, page_size as nat);
        }
        let mut buf: Vec<u8> = Vec::with_capacity(page_size);
        buf.push(PAGE_TYPE_INTERNAL);
        push_u64(&mut buf, id);
        let n = self.nkeys();
        push_u16(&mut buf, n);
        push_slice(&mut buf, self.keys.as_slice());
        let nc = self.children.len();
        let mut i: usize = 0;
        let ghost before = buf@;
        while i < nc
            invariant
                nc == self.children@.len(),
                i <= nc,
                buf@ == before + enc_children(self.children@.take(i as int)),
            decreases nc - i,
        {
            push_u64(&mut buf, self.children[i]);
            i = i + 1;
            proof {
                assert(self.children@.take(i as int).drop_last() =~= self.children@.take(i - 1));
            }
        }
        proof {
            assert(self.children@.take(nc as int) =~= self.children@);
            lemma_enc_children_len(self.children@);
        }
        let used = INTERNAL_HEADER as usize + self.keys.len() + 8 * nc;
        push_zeros(&mut buf, page_size - used);
        proof {
            assert(buf@ =~= internal_page_bytes(id, self.model@, self.children@, page_size as nat));
        }
        buf
    }
}

/// The child slot covering `key`: the number of separators `<= key`.
pub open spec fn covers(ks: Seq<Seq<u8>>, key: Seq<u8>, i: int) -> bool {
    &&& 0 <= i <= ks.len()
    &&& forall|j: int| 0 <= j < i ==> lex_le(#[trigger] ks[j], key)
    &&& forall|j: int| i <= j < ks.len() ==> lex_lt(key, #[trigger] ks[j])
}

/// Index of the child whose key range contains `key` (binary search for
/// the first separator greater than `key`).
pub fn internal_child_index(node: &InternalNode, key: &[u8]) -> (r: u16)
    requires
        node.wf(),
    ensures
        r <= node.view_keys().len(),
        keys_sorted(node.view_keys()) ==> covers(node.view_keys(), key@, r as int),
{
    let ghost ks = node.view_keys();
    proof {
        node.lemma_wf_facts();
        lemma_lex_order();
    }
    let (mut lo, mut hi) = (0u16, node.nkeys());
    while lo < hi
        invariant
            node.wf(),
            ks == node.view_keys(),
            0 <= lo <= hi <= ks.len(),
            keys_sorted(ks) ==> forall|j: int| 0 <= j < lo ==> lex_le(#[trigger] ks[j], key@),
            keys_sorted(ks) ==> forall|j: int| hi <= j < ks.len() ==> lex_lt(key@, #[trigger] ks[j]),
        decreases hi - lo,
    {
        let mid = lo + (hi - lo) / 2;
        let k = node.get_key(mid);
        match compare_keys(k, key) {
            KeyOrder::Greater => {
                proof {
                    assert forall|j: int| keys_sorted(ks) && mid <= j < ks.len() implies lex_lt(key@, #[trigger] ks[j]) by {
                        if j > mid {
                            assert(lex_lt(ks[mid as int], ks[j]));
                            lemma_lex_transitive(key@, ks[mid as int], ks[j]);
                        }
                    }
                }
                hi = mid;
            },
            _ => {
                proof {
                    assert forall|j: int| keys_sorted(ks) && 0 <= j < mid + 1 implies lex_le(#[trigger] ks[j], key@) by {
                        if j < mid {
                            assert(lex_lt(ks[j], ks[mid as int]));
                            if ks[mid as int] != key@ {
                                lemma_lex_transitive(ks[j], ks[mid as int], key@);
                            }
                        }
                    }
                }
                lo = mid + 1;
            },
        }
    }
    lo
}

/// Copy of `node` with child `idx` replaced by `new_child`.
pub fn internal_replace_child(node: &InternalNode, idx: u16, new_child: PageId) -> (r: InternalNode)
    requires
        node.wf(),
        node.complete(),
        idx < node.view_children().len(),
    ensures
        r.wf(),
        r.complete(),
        r.spec_id() == 0,
        r.view_keys() == node.view_keys(),
        r.view_children() == node.view_children().update(idx as int, new_child),
{
    let ghost ks = node.view_keys();
    let ghost cs = node.view_children();
    proof {
        node.lemma_wf_facts();
        lemma_lex_order();
    }
    let mut new = InternalNode::empty(node.keys.len());
    let n = node.nkeys();
    let mut i: u16 = 0;
    while i < n
        invariant
            node.wf(),
            new.wf(),
            ks == node.view_keys(),
            keys_size(ks) <= u16::MAX,
            n == ks.len(),
            i <= n,
            new.view_keys() == ks.take(i as int),
            new.view_children() == Seq::<PageId>::empty(),
            new.spec_id() == 0,
        decreases n - i,
    {
        proof {
            lemma_keys_prefix_sizes(ks, i as int, i + 1);
            lemma_keys_prefix_sizes(ks, i + 1, n as int);
            if i > 0 {
                assert(new.view_keys().last() == ks[i - 1]);
            }
        }
        new.push_key(node.get_key(i));
        i = i + 1;
        proof {
            assert(ks.take(i as int) =~= ks.take(i - 1).push(ks[i - 1]));
        }
    }
    let nc = node.nchildren();
    let mut j: u16 = 0;
    while j < nc
        invariant
            new.wf(),
            nc == cs.len(),
            cs == node.view_children(),
            nc <= u16::MAX,
            idx < nc,
            j <= nc,
            new.spec_id() == 0,
            new.view_keys() == ks.take(n as int),
            new.view_children() == cs.update(idx as int, new_child).take(j as int),
        decreases nc - j,
    {
        let c = if j == idx {
            new_child
        } else {
            node.get_child(j)
        };
        new.push_child(c);
        j = j + 1;
        proof {
            assert(cs.update(idx as int, new_child).take(j as int) =~= cs.update(idx as int, new_child).take(
                j - 1,
            ).push(c));
        }
    }
    proof {
        assert(ks.take(n as int) =~= ks);
        assert(cs.update(idx as int, new_child).take(nc as int) =~= cs.update(idx as int, new_child));
    }
    new
}

/// Appends keys `[from, to)` of `src` to `dst`.
fn push_key_range(dst: &mut InternalNode, src: &InternalNode, from: u16, to: u16)
    requires
        old(dst).wf(),
        src.wf(),
        from <= to <= src.view_keys().len(),
        keys_size(old(dst).view_keys()) + keys_size(src.view_keys().subrange(from as int, to as int))
            <= u16::MAX,
    ensures
        final(dst).wf(),
        final(dst).view_keys() == old(dst).view_keys() + src.view_keys().subrange(from as int, to as int),
        final(dst).view_children() == old(dst).view_children(),
        final(dst).spec_id() == old(dst).spec_id(),
{
    let ghost ks = src.view_keys();
    proof {
        src.lemma_wf_facts();
        lemma_lex_order();
    }
    let mut i = from;
    while i < to
        invariant
            dst.wf(),
            src.wf(),
            ks == src.view_keys(),
            from <= i <= to <= ks.len(),
            dst.view_keys() == old(dst).view_keys() + ks.subrange(from as int, i as int),
            dst.view_children() == old(dst).view_children(),
            dst.spec_id() == old(dst).spec_id(),
            keys_size(old(dst).view_keys()) + keys_size(ks.subrange(from as int, to as int)) <= u16::MAX,
        decreases to - i,
    {
        proof {
            let done = ks.subrange(from as int, i as int);
            assert(ks.subrange(from as int, to as int) =~= done + seq![ks[i as int]] + ks.subrange(i + 1, to as int));
            lemma_enc_keys_append(done + seq![ks[i as int]], ks.subrange(i + 1, to as int));
            lemma_enc_keys_append(done, seq![ks[i as int]]);
            lemma_enc_keys_single(ks[i as int]);
            lemma_enc_keys_append(old(dst).view_keys(), done);
            if dst.view_keys().len() > 0 && i > from {
                assert(dst.view_keys().last() == ks[i - 1]);
            }
        }
        dst.push_key(src.get_key(i));
        i = i + 1;
        proof {
            assert(ks.subrange(from as int, i as int) =~= ks.subrange(from as int, i - 1).push(ks[i - 1]));
        }
    }
}

/// Appends children `[from, to)` of `src` to `dst`.
fn push_child_range(dst: &mut InternalNode, src: &InternalNode, from: u16, to: u16)
    requires
        old(dst).wf(),
        from <= to <= src.view_children().len(),
        old(dst).view_children().len() + (to - from) <= u16::MAX,
    ensures
        final(dst).wf(),
        final(dst).view_keys() == old(dst).view_keys(),
        final(dst).view_children() == old(dst).view_children() + src.view_children().subrange(
            from as int,
            to as int,
        ),
        final(dst).spec_id() == old(dst).spec_id(),
{
    let ghost cs = src.view_children();
    let mut i = from;
    while i < to
        invariant
            dst.wf(),
            cs == src.view_children(),
            from <= i <= to <= cs.len(),
            old(dst).view_children().len() + (to - from) <= u16::MAX,
            dst.view_keys() == old(dst).view_keys(),
            dst.view_children() == old(dst).view_children() + cs.subrange(from as int, i as int),
            dst.spec_id() == old(dst).spec_id(),
        decreases to - i,
    {
        dst.push_child(src.get_child(i));
        i = i + 1;
        proof {
            assert(cs.subrange(from as int, i as int) =~= cs.subrange(from as int, i - 1).push(cs[i - 1]));
        }
    }
}

/// Splices a split child's `(left, sep_key, right)` in at `child_idx`
/// (the index that used to point at the now-split child). Result has
/// N+1 keys / N+2 children — may overflow `page_size`; the caller checks
/// `nbytes()` and splits again via `internal_split_with_promotion` if so.
pub fn internal_insert_split_child(
    node: &InternalNode,
    child_idx: u16,
    sep_key: &[u8],
    left: PageId,
    right: PageId,
) -> (r: InternalNode)
    requires
        node.wf(),
        node.complete(),
        child_idx <= node.view_keys().len(),
        keys_size(node.view_keys()) + 2 + sep_key@.len() <= u16::MAX,
        node.view_children().len() + 1 <= u16::MAX,
    ensures
        r.wf(),
        r.complete(),
        r.spec_id() == 0,
        r.view_keys() == node.view_keys().take(child_idx as int).push(sep_key@) + node.view_keys().skip(
            child_idx as int,
        ),
        r.view_children() == node.view_children().take(child_idx as int).push(left).push(right)
            + node.view_children().skip(child_idx + 1),
{
    let ghost ks = node.view_keys();
    let ghost cs = node.view_children();
    proof {
        node.lemma_wf_facts();
        lemma_lex_order();
        lemma_keys_prefix_sizes(ks, child_idx as int, ks.len() as int);
        lemma_keys_prefix_sizes(ks, 0, child_idx as int);
        assert(ks.take(ks.len() as int) =~= ks);
        assert(ks.subrange(0, child_idx as int) =~= ks.take(child_idx as int));
        assert(ks.subrange(child_idx as int, ks.len() as int) =~= ks.skip(child_idx as int));
    }
    let mut new = InternalNode::empty(node.keys.len() + 2 + sep_key.len());
    let n = node.nkeys();
    push_key_range(&mut new, node, 0, child_idx);
    proof {
        if child_idx > 0 {
            assert(new.view_keys().last() == ks[child_idx - 1]);
        }
    }
    new.push_key(sep_key);
    proof {
        assert(new.view_keys() =~= ks.take(child_idx as int).push(sep_key@));
        lemma_enc_keys_append(ks.take(child_idx as int), seq![sep_key@]);
        lemma_enc_keys_single(sep_key@);
        assert(ks.take(child_idx as int).push(sep_key@) =~= ks.take(child_idx as int) + seq![sep_key@]);
    }
    push_key_range(&mut new, node, child_idx, n);
    let nc = node.nchildren();
    push_child_range(&mut new, node, 0, child_idx);
    new.push_child(left);
    new.push_child(right);
    push_child_range(&mut new, node, child_idx + 1, nc);
    proof {
        assert(new.view_keys() =~= ks.take(child_idx as int).push(sep_key@) + ks.skip(child_idx as int));
        assert(new.view_children() =~= cs.take(child_idx as int).push(left).push(right) + cs.skip(
            child_idx + 1,
        ));
    }
    new
}

proof fn find_last_left_fit(ks: Seq<Seq<u8>>, cap: nat, j: int) -> (b: int)
    requires
        0 <= j <= ks.len(),
    ensures
        0 <= b <= j,
        b == 0 || 11 + keys_size(ks.take(b)) + 8 * (b + 1) <= cap,
        forall|t: int| b < t <= j ==> 11 + keys_size(#[trigger] ks.take(t)) + 8 * (t + 1) > cap,
    decreases j,
{
    if j == 0 || 11 + keys_size(ks.take(j)) + 8 * (j + 1) <= cap {
        j
    } else {
        find_last_left_fit(ks, cap, j - 1)
    }
}

/// Size of the left half when splitting at key `m`.
pub open spec fn split_left_bytes(ks: Seq<Seq<u8>>, m: int) -> int {
    11 + keys_size(ks.take(m)) + 8 * (m + 1)
}

/// Size of the right half when splitting at key `m`.
pub open spec fn split_right_bytes(ks: Seq<Seq<u8>>, m: int) -> int {
    11 + (keys_size(ks) - keys_size(ks.take(m + 1))) + 8 * (ks.len() - m)
}

/// `m` is the promotion index a split of `ks` on pages of `ps` bytes
/// takes: going down from the middle, the first index `m1` whose left
/// half fits; then, going up from `m1`, the first index whose right half
/// fits.
pub open spec fn promotion_cut(ks: Seq<Seq<u8>>, ps: nat, m: int) -> bool {
    exists|m1: int|
        #![trigger split_left_bytes(ks, m1)]
        {
            &&& 1 <= m1 <= ks.len() / 2
            &&& split_left_bytes(ks, m1) <= ps
            &&& forall|j: int| m1 < j <= ks.len() / 2 ==> #[trigger] split_left_bytes(ks, j) > ps
            &&& m1 <= m
            &&& split_right_bytes(ks, m) <= ps
            &&& forall|j: int| m1 <= j < m ==> #[trigger] split_right_bytes(ks, j) > ps
        }
}

/// Some promotion index `v` in `1..=np-2` leaves both halves within
/// `page_size`.
proof fn lemma_promotion_point_exists(ks: Seq<Seq<u8>>, page_size: nat) -> (v: int)
    requires
        ks.len() >= 3,
        forall|i: int| 0 <= i < ks.len() ==> 29 + (#[trigger] ks[i]).len() <= page_size,
        11 + keys_size(ks) + 8 * (ks.len() + 1) + 18 <= 2 * page_size,
    ensures
        1 <= v <= ks.len() - 2,
        split_left_bytes(ks, v) <= page_size,
        split_right_bytes(ks, v) <= page_size,
{
    let np = ks.len() as int;
    assert(ks.take(np) =~= ks);
    lemma_keys_prefix_sizes(ks, 0, 1);
    assert(ks.take(0) =~= Seq::<Seq<u8>>::empty());
    lemma_keys_prefix_sizes(ks, np - 1, np);
    lemma_keys_prefix_sizes(ks, np - 2, np - 1);
    if split_left_bytes(ks, np - 2) <= page_size {
        assert(29 + ks[np - 1].len() <= page_size);
        np - 2
    } else {
        let b = find_last_left_fit(ks, page_size, np - 2);
        if b == 0 {
            assert(29 + ks[0].len() <= page_size);
            assert(split_left_bytes(ks, 1) <= page_size);
            assert(false);
        }
        lemma_keys_prefix_sizes(ks, b, b + 1);
        lemma_keys_prefix_sizes(ks, b + 1, np);
        assert(split_left_bytes(ks, b + 1) > page_size);
        b
    }
}

/// The promotion index chosen by `internal_split_with_promotion`.
fn internal_split_point(grown: &InternalNode, page_size: usize) -> (m: u16)
    requires
        grown.wf(),
        grown.complete(),
        grown.view_keys().len() >= 3,
        page_size <= u16::MAX,
        forall|i: int| 0 <= i < grown.view_keys().len() ==> 29 + (#[trigger] grown.view_keys()[i]).len() <= page_size,
        grown.spec_nbytes() + 18 <= 2 * page_size,
    ensures
        1 <= m <= grown.view_keys().len() - 2,
        split_left_bytes(grown.view_keys(), m as int) <= page_size,
        split_right_bytes(grown.view_keys(), m as int) <= page_size,
        promotion_cut(grown.view_keys(), page_size as nat, m as int),
{
    let ghost ks = grown.view_keys();
    let ghost v = lemma_promotion_point_exists(ks, page_size as nat);
    proof {
        grown.lemma_wf_facts();
        lemma_enc_keys_len(ks);
        assert(ks.take(ks.len() as int) =~= ks);
    }
    let np = grown.nkeys();
    let total = grown.keys.len();
    let starts = &grown.key_start;
    assert(total <= u16::MAX);
    let mut m: u16 = np / 2;
    while m >= 1 && INTERNAL_HEADER as usize + starts[m as usize] as usize + 8 * (m as usize + 1) > page_size
        invariant
            np == ks.len(),
            np >= 3,
            np <= u16::MAX,
            starts@.len() == np + 1,
            forall|i: int| 0 <= i <= np ==> #[trigger] starts@[i] == keys_size(ks.take(i)),
            1 <= v <= np - 2,
            split_left_bytes(ks, v) <= page_size,
            m <= np / 2,
            v <= np / 2 ==> v <= m,
            v > np / 2 ==> m == np / 2,
            forall|j: int| m < j <= np / 2 ==> #[trigger] split_left_bytes(ks, j) > page_size,
        decreases m,
    {
        proof {
            assert(split_left_bytes(ks, m as int) > page_size);
            if v > np / 2 {
                lemma_keys_prefix_sizes(ks, (np / 2) as int, v);
            }
            if m == v {
                assert(false);
            }
            if m > v {
                lemma_keys_prefix_sizes(ks, v, m - 1);
            }
        }
        m = m - 1;
    }
    let ghost m1 = m;
    proof {
        if m == 0 {
            assert(false);
        }
        lemma_keys_prefix_sizes(ks, m + 1, np as int);
    }
    while m < np - 1 && INTERNAL_HEADER as usize + (total - starts[m as usize + 1] as usize) + 8 * (
    np as usize - m as usize) > page_size
        invariant
            np == ks.len(),
            starts@.len() == np + 1,
            forall|i: int| 0 <= i <= np ==> #[trigger] starts@[i] == keys_size(ks.take(i)),
            total == keys_size(ks),
            total <= u16::MAX,
            np >= 3,
            1 <= v <= np - 2,
            split_left_bytes(ks, v) <= page_size,
            split_right_bytes(ks, v) <= page_size,
            1 <= m1 <= m < np,
            m1 <= np / 2,
            split_left_bytes(ks, m as int) <= page_size,
            keys_size(ks.take(m + 1)) <= total,
            m == m1 || m <= v,
            forall|j: int| m1 < j <= np / 2 ==> #[trigger] split_left_bytes(ks, j) > page_size,
            forall|j: int| m1 <= j < m ==> #[trigger] split_right_bytes(ks, j) > page_size,
        decreases np - m,
    {
        proof {
            assert(split_right_bytes(ks, m as int) > page_size);
            if m >= v {
                lemma_keys_prefix_sizes(ks, v + 1, m + 1);
                assert(false);
            }
            lemma_keys_prefix_sizes(ks, m + 1, v);
            lemma_keys_prefix_sizes(ks, m + 2, np as int);
        }
        m = m + 1;
    }
    proof {
        if split_right_bytes(ks, m as int) > page_size {
            assert(m == np - 1);
            if m >= v {
                lemma_keys_prefix_sizes(ks, v + 1, m + 1);
            }
            assert(false);
        }
        if m > np - 2 {
            if m == m1 {
                assert(false);
            } else {
                assert(false);
            }
        }
        assert(split_left_bytes(ks, m1 as int) <= page_size);
        assert(promotion_cut(ks, page_size as nat, m as int));
    }
    m
}

/// Median-key promotion: the chosen split key is removed from both
/// halves and returned separately, unlike a leaf split where the
/// separator is copied. Returns `(left, promoted_key, right)`.
///
/// `left` gets keys `[0..m)` + children `[0..=m]`; `right` gets keys
/// `(m..np)` + children `(m..=np]` — disjoint ranges, so children
/// conserve exactly with none duplicated.
pub fn internal_split_with_promotion(grown: InternalNode, page_size: usize) -> (r: (
    InternalNode,
    Vec<u8>,
    InternalNode,
))
    requires
        grown.wf(),
        grown.complete(),
        grown.view_keys().len() >= 3,
        page_size <= u16::MAX,
        forall|i: int| 0 <= i < grown.view_keys().len() ==> 29 + (#[trigger] grown.view_keys()[i]).len() <= page_size,
        grown.spec_nbytes() + 18 <= 2 * page_size,
    ensures
        ({
            let (left, promoted, right) = r;
            let ks = grown.view_keys();
            let cs = grown.view_children();
            exists|m: int|
                1 <= m <= ks.len() - 2 && promotion_cut(ks, page_size as nat, m) && left.view_keys() == ks.take(m) && promoted@ == ks[m]
                    && right.view_keys() == ks.skip(m + 1) && left.view_children() == cs.take(m + 1)
                    && right.view_children() == cs.skip(m + 1)
        }),
        r.0.wf(),
        r.2.wf(),
        r.0.complete(),
        r.2.complete(),
        r.0.spec_id() == 0,
        r.2.spec_id() == 0,
        r.0.spec_nbytes() <= page_size,
        r.2.spec_nbytes() <= page_size,
{
    let ghost ks = grown.view_keys();
    let ghost cs = grown.view_children();
    proof {
        grown.lemma_wf_facts();
    }
    let m = internal_split_point(&grown, page_size);
    let np = grown.nkeys();
    proof {
        lemma_keys_prefix_sizes(ks, 0, m as int);
        lemma_keys_prefix_sizes(ks, m + 1, np as int);
        assert(ks.subrange(0, m as int) =~= ks.take(m as int));
        assert(ks.subrange(m + 1, np as int) =~= ks.skip(m + 1));
        assert(ks.take(np as int) =~= ks);
    }
    let mut left = InternalNode::empty(page_size);
    push_key_range(&mut left, &grown, 0, m);
    push_child_range(&mut left, &grown, 0, m + 1);
    let promoted = to_vec(grown.get_key(m));
    let mut right = InternalNode::empty(page_size);
    push_key_range(&mut right, &grown, m + 1, np);
    push_child_range(&mut right, &grown, m + 1, np + 1);
    proof {
        assert(left.view_keys() =~= ks.take(m as int));
        assert(right.view_keys() =~= ks.skip(m + 1));
        assert(left.view_children() =~= cs.take(m + 1));
        assert(right.view_children() =~= cs.skip(m + 1));
        assert(cs.len() == np + 1);
        assert(keys_size(ks) - keys_size(ks.take(m + 1)) == keys_size(ks.skip(m + 1)));
    }
    (left, promoted, right)
}

} // verus!
