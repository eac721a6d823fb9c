//! Byte-string keys and their lexicographic order (the order of `[u8]`).
use vstd::prelude::*;

verus! {

/// `a` sorts strictly before `b` in lexicographic byte order; a proper
/// prefix sorts before any of its extensions.
pub open spec fn lex_lt(a: Seq<u8>, b: Seq<u8>) -> bool
    decreases a.len(),
{
    if a.len() == 0 {
        b.len() > 0
    } else if b.len() == 0 {
        false
    } else if a[0] != b[0] {
        a[0] < b[0]
    } else {
        lex_lt(a.drop_first(), b.drop_first())
    }
}

/// `a` sorts before or equal to `b`.
pub open spec fn lex_le(a: Seq<u8>, b: Seq<u8>) -> bool {
    a == b || lex_lt(a, b)
}

/// The outcome of comparing two keys.
#[derive(PartialEq, Eq, Structural, Debug, Clone, Copy)]
pub enum KeyOrder {
    Less,
    Equal,
    Greater,
}

pub proof fn lemma_lex_irreflexive(a: Seq<u8>)
    ensures
        !lex_lt(a, a),
    decreases a.len(),
{
    if a.len() > 0 {
        lemma_lex_irreflexive(a.drop_first());
    }
}

pub proof fn lemma_lex_asymmetric(a: Seq<u8>, b: Seq<u8>)
    ensures
        !(lex_lt(a, b) && lex_lt(b, a)),
    decreases a.len(),
{
    if a.len() > 0 && b.len() > 0 && a[0] == b[0] {
        lemma_lex_asymmetric(a.drop_first(), b.drop_first());
    }
}

pub proof fn lemma_lex_transitive(a: Seq<u8>, b: Seq<u8>, c: Seq<u8>)
    requires
        lex_lt(a, b),
        lex_lt(b, c),
    ensures
        lex_lt(a, c),
    decreases a.len(),
{
    if a.len() > 0 && b.len() > 0 && c.len() > 0 && a[0] == b[0] && b[0] == c[0] {
        lemma_lex_transitive(a.drop_first(), b.drop_first(), c.drop_first());
    }
}

pub proof fn lemma_lex_total(a: Seq<u8>, b: Seq<u8>)
    ensures
        a == b || lex_lt(a, b) || lex_lt(b, a),
    decreases a.len(),
{
    if a.len() > 0 && b.len() > 0 && a[0] == b[0] {
        lemma_lex_total(a.drop_first(), b.drop_first());
        if a.drop_first() == b.drop_first() {
            assert(a =~= seq![a[0]] + a.drop_first());
            assert(b =~= seq![b[0]] + b.drop_first());
        }
    } else if a.len() == 0 && b.len() == 0 {
        assert(a =~= b);
    }
}

/// Facts about the order used throughout the proofs: it is a strict total
/// order.
pub proof fn lemma_lex_order()
    ensures
        forall|a: Seq<u8>| !#[trigger] lex_lt(a, a),
        forall|a: Seq<u8>, b: Seq<u8>| #[trigger] lex_lt(a, b) ==> !lex_lt(b, a),
        forall|a: Seq<u8>, b: Seq<u8>, c: Seq<u8>|
            #[trigger] lex_lt(a, b) && #[trigger] lex_lt(b, c) ==> lex_lt(a, c),
        forall|a: Seq<u8>, b: Seq<u8>| a == b || #[trigger] lex_lt(a, b) || lex_lt(b, a),
{
    assert forall|a: Seq<u8>| !#[trigger] lex_lt(a, a) by {
        lemma_lex_irreflexive(a);
    }
    assert forall|a: Seq<u8>, b: Seq<u8>| #[trigger] lex_lt(a, b) implies !lex_lt(b, a) by {
        lemma_lex_asymmetric(a, b);
    }
    assert forall|a: Seq<u8>, b: Seq<u8>, c: Seq<u8>|
        #[trigger] lex_lt(a, b) && #[trigger] lex_lt(b, c) implies lex_lt(a, c) by {
        lemma_lex_transitive(a, b, c);
    }
    assert forall|a: Seq<u8>, b: Seq<u8>| a == b || #[trigger] lex_lt(a, b) || lex_lt(b, a) by {
        lemma_lex_total(a, b);
    }
}

proof fn lemma_lex_skip(a: Seq<u8>, b: Seq<u8>, i: int)
    requires
        0 <= i <= a.len(),
        i <= b.len(),
        a.subrange(0, i) == b.subrange(0, i),
    ensures
        lex_lt(a, b) == lex_lt(a.subrange(i, a.len() as int), b.subrange(i, b.len() as int)),
    decreases i,
{
    if i > 0 {
        assert(a[0] == a.subrange(0, i)[0]);
        assert(b[0] == b.subrange(0, i)[0]);
        let a1 = a.drop_first();
        let b1 = b.drop_first();
        assert(a1.subrange(0, i - 1) =~= a.subrange(0, i).drop_first());
        assert(b1.subrange(0, i - 1) =~= b.subrange(0, i).drop_first());
        lemma_lex_skip(a1, b1, i - 1);
        assert(a1.subrange(i - 1, a1.len() as int) =~= a.subrange(i, a.len() as int));
        assert(b1.subrange(i - 1, b1.len() as int) =~= b.subrange(i, b.len() as int));
    } else {
        assert(a.subrange(0, a.len() as int) =~= a);
        assert(b.subrange(0, b.len() as int) =~= b);
    }
}

/// Three-way comparison of two keys in lexicographic byte order.
pub fn compare_keys(a: &[u8], b: &[u8]) -> (r: KeyOrder)
    ensures
        r == KeyOrder::Equal <==> a@ == b@,
        r == KeyOrder::Less <==> lex_lt(a@, b@),
        r == KeyOrder::Greater <==> lex_lt(b@, a@),
{
    proof {
        lemma_lex_order();
    }
    let na = a.len();
    let nb = b.len();
    let mut i: usize = 0;
    while i < na && i < nb
        invariant
            na == a@.len(),
            nb == b@.len(),
            i <= na,
            i <= nb,
            a@.subrange(0, i as int) == b@.subrange(0, i as int),
        decreases na - i,
    {
        if a[i] != b[i] {
            proof {
                lemma_lex_skip(a@, b@, i as int);
                lemma_lex_skip(b@, a@, i as int);
                let sa = a@.subrange(i as int, na as int);
                let sb = b@.subrange(i as int, nb as int);
                assert(sa[0] == a@[i as int]);
                assert(sb[0] == b@[i as int]);
                if a@ == b@ {
                    assert(a@[i as int] == b@[i as int]);
                }
            }
            if a[i] < b[i] {
                return KeyOrder::Less;
            } else {
                return KeyOrder::Greater;
            }
        }
        proof {
            assert(a@.subrange(0, i + 1) =~= a@.subrange(0, i as int).push(a@[i as int]));
            assert(b@.subrange(0, i + 1) =~= b@.subrange(0, i as int).push(b@[i as int]));
        }
        i = i + 1;
    }
    proof {
        lemma_lex_skip(a@, b@, i as int);
        lemma_lex_skip(b@, a@, i as int);
        let sa = a@.subrange(i as int, na as int);
        let sb = b@.subrange(i as int, nb as int);
        if na == nb {
            assert(a@ =~= a@.subrange(0, i as int));
            assert(b@ =~= b@.subrange(0, i as int));
        } else if na < nb {
            assert(sa.len() == 0);
        } else {
            assert(sb.len() == 0);
        }
    }
    if na == nb {
        KeyOrder::Equal
    } else if na < nb {
        KeyOrder::Less
    } else {
        KeyOrder::Greater
    }
}

} // verus!
