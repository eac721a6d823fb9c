//! A storage engine over one flat byte buffer: records are appended as
//! `[key_len][key][value_len][value]` (lengths 4-byte big-endian); `get`
//! scans linearly and keeps the last match, since a later `put` for the
//! same key is appended rather than replacing the earlier record in
//! place.
use vstd::prelude::*;

use crate::page::codec::{bytes_eq, push_slice, to_vec};

verus! {

/// Four big-endian bytes holding `x`.
pub open spec fn be32(x: u32) -> Seq<u8> {
    seq![(x / 0x100_0000) as u8, (x / 0x1_0000 % 0x100) as u8, (x / 0x100 % 0x100) as u8, (x % 0x100) as u8]
}

/// The big-endian value of the four bytes at `pos`.
pub open spec fn be32_at(b: Seq<u8>, pos: int) -> nat {
    (b[pos] * 0x100_0000 + b[pos + 1] * 0x1_0000 + b[pos + 2] * 0x100 + b[pos + 3]) as nat
}

pub proof fn lemma_be32_roundtrip(x: u32, b: Seq<u8>, pos: int)
    requires
        0 <= pos,
        pos + 4 <= b.len(),
        b.subrange(pos, pos + 4) == be32(x),
    ensures
        be32_at(b, pos) == x,
{
    assert(b[pos] == be32(x)[0]);
    assert(b[pos + 1] == be32(x)[1]);
    assert(b[pos + 2] == be32(x)[2]);
    assert(b[pos + 3] == be32(x)[3]);
    let xi = x as int;
    assert((xi / 0x100_0000) * 0x100_0000 + (xi / 0x1_0000 % 0x100) * 0x1_0000 + (xi / 0x100 % 0x100) * 0x100
        + xi % 0x100 == xi) by (nonlinear_arith)
        requires
            0 <= xi < 0x1_0000_0000,
    ;
}

/// One record.
pub open spec fn enc_record(r: (Seq<u8>, Seq<u8>)) -> Seq<u8> {
    be32(r.0.len() as u32) + r.0 + be32(r.1.len() as u32) + r.1
}

/// Records back to back.
#[verifier::opaque]
pub open spec fn enc_records(rs: Seq<(Seq<u8>, Seq<u8>)>) -> Seq<u8>
    decreases rs.len(),
{
    if rs.len() == 0 {
        Seq::empty()
    } else {
        enc_records(rs.drop_last()) + enc_record(rs.last())
    }
}

/// The value of the last record for `key`.
pub open spec fn last_match(rs: Seq<(Seq<u8>, Seq<u8>)>, key: Seq<u8>) -> Option<Seq<u8>>
    decreases rs.len(),
{
    if rs.len() == 0 {
        None
    } else if rs.last().0 == key {
        Some(rs.last().1)
    } else {
        last_match(rs.drop_last(), key)
    }
}

proof fn lemma_enc_records_take(rs: Seq<(Seq<u8>, Seq<u8>)>, j: int)
    requires
        0 <= j < rs.len(),
    ensures
        enc_records(rs.take(j + 1)) == enc_records(rs.take(j)) + enc_record(rs[j]),
{
    reveal(enc_records);
    assert(rs.take(j + 1).drop_last() =~= rs.take(j));
}

proof fn lemma_enc_records_prefix(rs: Seq<(Seq<u8>, Seq<u8>)>, j: int)
    requires
        0 <= j <= rs.len(),
    ensures
        enc_records(rs.take(j)).len() <= enc_records(rs).len(),
        enc_records(rs).subrange(0, enc_records(rs.take(j)).len() as int) == enc_records(rs.take(j)),
    decreases rs.len() - j,
{
    if j == rs.len() {
        assert(rs.take(j) =~= rs);
        assert(enc_records(rs).subrange(0, enc_records(rs).len() as int) =~= enc_records(rs));
    } else {
        lemma_enc_records_prefix(rs, j + 1);
        lemma_enc_records_take(rs, j);
        let a = enc_records(rs.take(j));
        let b = enc_records(rs.take(j + 1));
        assert(b.subrange(0, a.len() as int) =~= a);
        assert(enc_records(rs).subrange(0, a.len() as int) =~= b.subrange(0, a.len() as int));
    }
}

/// Where record `j` lies in the encoding.
proof fn lemma_record_at(rs: Seq<(Seq<u8>, Seq<u8>)>, j: int)
    requires
        0 <= j < rs.len(),
    ensures
        enc_records(rs.take(j)).len() + enc_record(rs[j]).len() == enc_records(rs.take(j + 1)).len(),
        enc_records(rs.take(j + 1)).len() <= enc_records(rs).len(),
        forall|t: int|
            0 <= t < enc_record(rs[j]).len() ==> enc_records(rs)[enc_records(rs.take(j)).len() + t]
                == #[trigger] enc_record(rs[j])[t],
{
    lemma_enc_records_take(rs, j);
    lemma_enc_records_prefix(rs, j + 1);
    let p = enc_records(rs.take(j)).len() as int;
    let b = enc_records(rs.take(j + 1));
    let e = enc_record(rs[j]);
    assert forall|t: int| 0 <= t < e.len() implies enc_records(rs)[p + t] == #[trigger] e[t] by {
        assert(b[p + t] == e[t]);
        assert(enc_records(rs).subrange(0, b.len() as int)[p + t] == b[p + t]);
    }
}

proof fn lemma_last_match_take(rs: Seq<(Seq<u8>, Seq<u8>)>, j: int, key: Seq<u8>)
    requires
        0 <= j < rs.len(),
    ensures
        last_match(rs.take(j + 1), key) == if rs[j].0 == key {
            Some(rs[j].1)
        } else {
            last_match(rs.take(j), key)
        },
{
    assert(rs.take(j + 1).drop_last() =~= rs.take(j));
}

/// Placeholder storage engine backed by a flat byte buffer.
pub struct StorageEngine {
    data: Vec<u8>,
    records: Ghost<Seq<(Seq<u8>, Seq<u8>)>>,
}

impl StorageEngine {
    /// The records written, in order.
    pub closed spec fn records(&self) -> Seq<(Seq<u8>, Seq<u8>)> {
        self.records@
    }

    /// Each key maps to the value of its last record.
    pub open spec fn view(&self) -> Map<Seq<u8>, Seq<u8>> {
        Map::new(
            |k: Seq<u8>| last_match(self.records(), k) is Some,
            |k: Seq<u8>| last_match(self.records(), k).unwrap(),
        )
    }

    /// Bytes the buffer holds.
    pub closed spec fn spec_len(&self) -> nat {
        self.data@.len()
    }

    pub closed spec fn wf(&self) -> bool {
        &&& self.data@ == enc_records(self.records@)
        &&& forall|i: int|
            0 <= i < self.records@.len() ==> (#[trigger] self.records@[i]).0.len() <= u32::MAX
                && self.records@[i].1.len() <= u32::MAX
    }

    pub fn new() -> (r: Self)
        ensures
            r.wf(),
            r.records() == Seq::<(Seq<u8>, Seq<u8>)>::empty(),
            r.view() == Map::<Seq<u8>, Seq<u8>>::empty(),
    {
        let r = StorageEngine { data: Vec::new(), records: Ghost(Seq::empty()) };
        proof {
            reveal(enc_records);
            assert(r.data@ =~= enc_records(Seq::<(Seq<u8>, Seq<u8>)>::empty()));
            assert(r.view() =~= Map::<Seq<u8>, Seq<u8>>::empty());
        }
        r
    }

    /// Appends a record for `key`.
    pub fn put(&mut self, key: &[u8], value: &[u8])
        requires
            old(self).wf(),
            key@.len() <= u32::MAX,
            value@.len() <= u32::MAX,
            old(self).spec_len() + 8 + key@.len() + value@.len() <= usize::MAX,
        ensures
            final(self).wf(),
            final(self).records() == old(self).records().push((key@, value@)),
            final(self).view() == old(self).view().insert(key@, value@),
            final(self).spec_len() == old(self).spec_len() + 8 + key@.len() + value@.len(),
    {
        push_be32(&mut self.data, key.len() as u32);
        push_slice(&mut self.data, key);
        push_be32(&mut self.data, value.len() as u32);
        push_slice(&mut self.data, value);
        proof {
            let rs = old(self).records@;
            let r = (key@, value@);
            self.records@ = rs.push(r);
            reveal(enc_records);
            assert(self.records@.drop_last() =~= rs);
            assert(self.data@ =~= enc_records(self.records@));
            assert forall|k: Seq<u8>| #[trigger] last_match(self.records@, k) == if k == key@ {
                Some(value@)
            } else {
                last_match(rs, k)
            } by {}
            assert(self.view() =~= old(self).view().insert(key@, value@));
        }
    }

    /// The value of the last record for `key`, if any.
    pub fn get(&self, key: &[u8]) -> (r: Option<Vec<u8>>)
        requires
            self.wf(),
        ensures
            match r {
                Some(v) => self.view().contains_key(key@) && self.view()[key@] == v@,
                None => !self.view().contains_key(key@),
            },
    {
        let ghost rs = self.records@;
        let n = self.data.len();
        let mut pos: usize = 0;
        let mut result: Option<Vec<u8>> = None;
        let ghost mut j: int = 0;
        proof {
            reveal(enc_records);
            assert(rs.take(0) =~= Seq::<(Seq<u8>, Seq<u8>)>::empty());
            if rs.len() > 0 {
                lemma_record_at(rs, 0);
            } else {
                assert(enc_records(rs) =~= Seq::<u8>::empty());
            }
        }
        while pos < n
            invariant
                n == self.data@.len(),
                self.data@ == enc_records(rs),
                rs == self.records@,
                self.wf(),
                0 <= j <= rs.len(),
                pos == enc_records(rs.take(j)).len(),
                j < rs.len() ==> pos < n,
                j == rs.len() ==> pos == n,
                match result {
                    Some(v) => last_match(rs.take(j), key@) == Some(v@),
                    None => last_match(rs.take(j), key@) is None,
                },
            decreases n - pos,
        {
            proof {
                if j == rs.len() {
                    assert(false);
                }
                lemma_record_at(rs, j);
            }
            let (entry_key, entry_value, next) = read_record(self.data.as_slice(), pos, Ghost(rs), Ghost(j));
            pos = next;
            if bytes_eq(entry_key, key) {
                result = Some(to_vec(entry_value));
            }
            proof {
                lemma_last_match_take(rs, j, key@);
                j = j + 1;
                if j < rs.len() {
                    lemma_record_at(rs, j);
                } else {
                    assert(rs.take(j) =~= rs);
                }
            }
        }
        proof {
            if j < rs.len() {
                assert(false);
            }
            assert(rs.take(j) =~= rs);
        }
        result
    }
}

impl Default for StorageEngine {
    fn default() -> (r: Self)
        ensures
            r.wf(),
            r.records() == Seq::<(Seq<u8>, Seq<u8>)>::empty(),
    {
        Self::new()
    }
}

/// The key and value of record `j`, which starts at `pos`, and where the
/// next record starts.
fn read_record<'a>(
    data: &'a [u8],
    pos: usize,
    Ghost(rs): Ghost<Seq<(Seq<u8>, Seq<u8>)>>,
    Ghost(j): Ghost<int>,
) -> (r: (&'a [u8], &'a [u8], usize))
    requires
        data@ == enc_records(rs),
        0 <= j < rs.len(),
        pos == enc_records(rs.take(j)).len(),
        forall|i: int| 0 <= i < rs.len() ==> (#[trigger] rs[i]).0.len() <= u32::MAX && rs[i].1.len() <= u32::MAX,
    ensures
        r.0@ == rs[j].0,
        r.1@ == rs[j].1,
        r.2 == enc_records(rs.take(j + 1)).len(),
{
    let _n = data.len();
    proof {
        lemma_record_at(rs, j);
    }
    let ghost e = enc_record(rs[j]);
    let ghost klen_s = rs[j].0.len();
    let ghost vlen_s = rs[j].1.len();
    proof {
        let whole = data@;
        assert(e.len() == 8 + klen_s + vlen_s);
        assert(pos + e.len() <= data@.len());
        assert(whole.subrange(pos as int, pos + 4) =~= be32(klen_s as u32)) by {
            assert forall|t: int| 0 <= t < 4 implies #[trigger] whole.subrange(pos as int, pos + 4)[t] == be32(klen_s as u32)[t] by {
                assert(whole[pos + t] == e[t]);
            }
        }
        lemma_be32_roundtrip(klen_s as u32, whole, pos as int);
    }
    let key_len = read_be32(data, pos) as usize;
    let kstart = pos + 4;
    let entry_key = vstd::slice::slice_subrange(data, kstart, kstart + key_len);
    let vpos = kstart + key_len;
    proof {
        let whole = data@;
        assert(entry_key@ =~= rs[j].0) by {
            assert forall|t: int| 0 <= t < klen_s implies #[trigger] entry_key@[t] == rs[j].0[t] by {
                assert(whole[pos + 4 + t] == e[4 + t]);
            }
        }
        assert(whole.subrange(vpos as int, vpos + 4) =~= be32(vlen_s as u32)) by {
            assert forall|t: int| 0 <= t < 4 implies #[trigger] whole.subrange(vpos as int, vpos + 4)[t] == be32(vlen_s as u32)[t] by {
                assert(whole[vpos + t] == e[4 + klen_s + t]);
            }
        }
        lemma_be32_roundtrip(vlen_s as u32, whole, vpos as int);
    }
    let value_len = read_be32(data, vpos) as usize;
    let vstart = vpos + 4;
    let entry_value = vstd::slice::slice_subrange(data, vstart, vstart + value_len);
    proof {
        assert(entry_value@ =~= rs[j].1) by {
            assert forall|t: int| 0 <= t < vlen_s implies #[trigger] entry_value@[t] == rs[j].1[t] by {
                assert(data@[vstart + t] == e[8 + klen_s + t]);
            }
        }
    }
    (entry_key, entry_value, vstart + value_len)
}

/// Appends `x` as four big-endian bytes.
fn push_be32(buf: &mut Vec<u8>, x: u32)
    ensures
        final(buf)@ == old(buf)@ + be32(x),
{
    buf.push((x / 0x100_0000) as u8);
    buf.push((x / 0x1_0000 % 0x100) as u8);
    buf.push((x / 0x100 % 0x100) as u8);
    buf.push((x % 0x100) as u8);
    proof {
        assert(final(buf)@ =~= old(buf)@ + be32(x));
    }
}

/// Reads the four big-endian bytes at `pos`.
fn read_be32(b: &[u8], pos: usize) -> (x: u32)
    requires
        pos + 4 <= b@.len(),
    ensures
        x == be32_at(b@, pos as int),
{
    let b0 = b[pos] as u32;
    let b1 = b[pos + 1] as u32;
    let b2 = b[pos + 2] as u32;
    let b3 = b[pos + 3] as u32;
    proof {
        assert(b0 * 0x100_0000 + b1 * 0x1_0000 + b2 * 0x100 + b3 <= u32::MAX) by (nonlinear_arith)
            requires
                b0 < 256,
                b1 < 256,
                b2 < 256,
                b3 < 256,
        ;
    }
    b0 * 0x100_0000 + b1 * 0x1_0000 + b2 * 0x100 + b3
}

} // verus!
