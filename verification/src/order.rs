//! Facts on the order of paths and on prefixes.

use crate::model::lex_less;
use vstd::prelude::*;

verus! {

/// No path is before itself.
pub proof fn lemma_lex_irreflexive(a: Seq<u8>)
    ensures
        !lex_less(a, a),
    decreases a.len(),
{
    if a.len() > 0 {
        lemma_lex_irreflexive(a.skip(1));
    }
}

/// Of two different paths one is before the other.
pub proof fn lemma_lex_total(a: Seq<u8>, b: Seq<u8>)
    ensures
        lex_less(a, b) || lex_less(b, a) || a == b,
    decreases a.len(),
{
    if a.len() > 0 && b.len() > 0 {
        lemma_lex_total(a.skip(1), b.skip(1));
        if a[0] == b[0] && a.skip(1) == b.skip(1) {
            assert(a =~= seq![a[0]] + a.skip(1));
            assert(b =~= seq![b[0]] + b.skip(1));
        }
    } else if a.len() == 0 && b.len() == 0 {
        assert(a =~= b);
    }
}

/// The order of paths is transitive.
pub proof fn lemma_lex_transitive(a: Seq<u8>, b: Seq<u8>, c: Seq<u8>)
    requires
        lex_less(a, b),
        lex_less(b, c),
    ensures
        lex_less(a, c),
    decreases a.len(),
{
    if a.len() > 0 && b.len() > 0 && c.len() > 0 && a[0] == b[0] && b[0] == c[0] {
        lemma_lex_transitive(a.skip(1), b.skip(1), c.skip(1));
    }
}

/// Of two paths at most one is before the other.
pub proof fn lemma_lex_asymmetric(a: Seq<u8>, b: Seq<u8>)
    requires
        lex_less(a, b),
    ensures
        !lex_less(b, a),
{
    if lex_less(b, a) {
        lemma_lex_transitive(a, b, a);
        lemma_lex_irreflexive(a);
    }
}

/// Nothing that a path begins is before it.
pub proof fn lemma_prefix_not_after(p: Seq<u8>, k: Seq<u8>)
    requires
        p.is_prefix_of(k),
    ensures
        !lex_less(k, p),
    decreases p.len(),
{
    if p.len() > 0 {
        assert(p[0] == k.subrange(0, p.len() as int)[0]);
        assert(p.skip(1) =~= k.skip(1).subrange(0, p.skip(1).len() as int)) by {
            assert forall|i: int| 0 <= i < p.len() - 1 implies p.skip(1)[i] == k.skip(1).subrange(
                0,
                p.skip(1).len() as int,
            )[i] by {
                assert(p[i + 1] == k.subrange(0, p.len() as int)[i + 1]);
            }
        }
        lemma_prefix_not_after(p.skip(1), k.skip(1));
    }
}

/// What lies between a path and something that it begins is begun by it too.
pub proof fn lemma_between_prefixed(p: Seq<u8>, k: Seq<u8>, last: Seq<u8>)
    requires
        !lex_less(k, p),
        !lex_less(last, k),
        p.is_prefix_of(last),
    ensures
        p.is_prefix_of(k),
    decreases p.len(),
{
    if p.len() > 0 {
        assert(p[0] == last.subrange(0, p.len() as int)[0]);
        assert(p.skip(1) =~= last.skip(1).subrange(0, p.skip(1).len() as int)) by {
            assert forall|i: int| 0 <= i < p.len() - 1 implies p.skip(1)[i] == last.skip(
                1,
            ).subrange(0, p.skip(1).len() as int)[i] by {
                assert(p[i + 1] == last.subrange(0, p.len() as int)[i + 1]);
            }
        }
        assert(k.len() > 0 && k[0] == p[0]);
        lemma_between_prefixed(p.skip(1), k.skip(1), last.skip(1));
        assert(p =~= k.subrange(0, p.len() as int)) by {
            assert forall|i: int| 0 <= i < p.len() implies p[i] == k.subrange(
                0,
                p.len() as int,
            )[i] by {
                if i > 0 {
                    assert(p.skip(1)[i - 1] == k.skip(1).subrange(
                        0,
                        p.skip(1).len() as int,
                    )[i - 1]);
                }
            }
        }
    }
}

/// A prefix agrees with what it begins at each of its indices, and conversely.
pub proof fn lemma_prefix_pointwise(p: Seq<u8>, k: Seq<u8>)
    ensures
        p.is_prefix_of(k) <==> p.len() <= k.len() && forall|i: int|
            0 <= i < p.len() ==> p[i] == k[i],
{
    if p.is_prefix_of(k) {
        assert forall|i: int| 0 <= i < p.len() implies p[i] == k[i] by {
            assert(p[i] == k.subrange(0, p.len() as int)[i]);
        }
    }
    if p.len() <= k.len() && forall|i: int| 0 <= i < p.len() ==> p[i] == k[i] {
        assert(p =~= k.subrange(0, p.len() as int));
    }
}

/// A prefix of a prefix is a prefix.
pub proof fn lemma_prefix_transitive(a: Seq<u8>, b: Seq<u8>, c: Seq<u8>)
    requires
        a.is_prefix_of(b),
        b.is_prefix_of(c),
    ensures
        a.is_prefix_of(c),
{
    lemma_prefix_pointwise(a, b);
    lemma_prefix_pointwise(b, c);
    lemma_prefix_pointwise(a, c);
}

}
