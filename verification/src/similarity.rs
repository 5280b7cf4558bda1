//! Similarity scoring for embeddings.
//!
//! Embeddings are fixed-point vectors: each component is a real coordinate
//! scaled by `EMBED_SCALE` and truncated to an integer.  Search ranks
//! documents by the dot product of two such vectors, which for unit-length
//! embeddings is their cosine similarity (scaled by `EMBED_SCALE^2`).

use vstd::prelude::*;

verus! {

/// Largest number of components an embedding may have.
pub const MAX_DIM: usize = 4096;

/// Largest magnitude a single embedding component may have.
pub const MAX_COMPONENT: i64 = 1_000_000;

/// Fixed-point scale: an embedding component `c` stands for the real
/// coordinate `c / EMBED_SCALE`.
pub const EMBED_SCALE: i64 = 1000;

/// The components of an embedding as unbounded integers.
pub open spec fn ints(s: Seq<i64>) -> Seq<int> {
    s.map_values(|x: i64| x as int)
}

/// Every component fits within `MAX_COMPONENT`.
pub open spec fn bounded(s: Seq<i64>) -> bool {
    forall|i: int| 0 <= i < s.len() ==> -MAX_COMPONENT <= #[trigger] s[i] <= MAX_COMPONENT
}

/// A well-formed embedding: bounded components, at most `MAX_DIM` of them.
pub open spec fn valid_embedding(s: Seq<i64>) -> bool {
    s.len() <= MAX_DIM && bounded(s)
}

/// Mathematical dot product over integer sequences of equal length,
/// accumulated from the last component down.
pub open spec fn dot_spec(a: Seq<int>, b: Seq<int>) -> int
    decreases a.len(),
{
    if a.len() == 0 || b.len() == 0 {
        0
    } else {
        dot_spec(a.drop_last(), b.drop_last()) + a.last() * b.last()
    }
}

proof fn lemma_abs_product_bound(x: i64, y: i64)
    requires
        -MAX_COMPONENT <= x <= MAX_COMPONENT,
        -MAX_COMPONENT <= y <= MAX_COMPONENT,
    ensures
        -1_000_000_000_000 <= x * y <= 1_000_000_000_000,
{
    assert(-1_000_000_000_000 <= x * y <= 1_000_000_000_000) by (nonlinear_arith)
        requires
            -MAX_COMPONENT <= x <= MAX_COMPONENT,
            -MAX_COMPONENT <= y <= MAX_COMPONENT,
    ;
}

/// Dot product of two embeddings: the similarity score used by search.
pub fn dot(a: &Vec<i64>, b: &Vec<i64>) -> (r: i64)
    requires
        a.len() == b.len(),
        valid_embedding(a@),
        valid_embedding(b@),
    ensures
        r == dot_spec(ints(a@), ints(b@)),
{
    let n: usize = a.len();
    let mut acc: i64 = 0;
    let mut i: usize = 0;
    while i < n
        invariant
            0 <= i <= n,
            n == a.len() == b.len(),
            valid_embedding(a@),
            valid_embedding(b@),
            acc == dot_spec(ints(a@.take(i as int)), ints(b@.take(i as int))),
            -(i * 1_000_000_000_000) <= acc <= i * 1_000_000_000_000,
        decreases n - i,
    {
        proof {
            lemma_abs_product_bound(a@[i as int], b@[i as int]);
            assert(ints(a@.take(i + 1)).drop_last() =~= ints(a@.take(i as int)));
            assert(ints(b@.take(i + 1)).drop_last() =~= ints(b@.take(i as int)));
            assert(ints(a@.take(i + 1)).last() == a@[i as int]);
            assert(ints(b@.take(i + 1)).last() == b@[i as int]);
        }
        acc = acc + a[i] * b[i];
        i = i + 1;
    }
    proof {
        assert(a@.take(n as int) =~= a@);
        assert(b@.take(n as int) =~= b@);
    }
    acc
}

/// Pointwise sum of two coordinate sequences.
pub open spec fn add_vec(a: Seq<int>, b: Seq<int>) -> Seq<int>
    recommends
        a.len() == b.len(),
{
    Seq::new(a.len(), |i: int| a[i] + b[i])
}

/// Every coordinate multiplied by `k`.
pub open spec fn scale_vec(k: int, a: Seq<int>) -> Seq<int> {
    a.map_values(|x: int| k * x)
}

/// The dot product is commutative: `dot(a, b) == dot(b, a)`.
pub proof fn lemma_dot_commutative(a: Seq<int>, b: Seq<int>)
    requires
        a.len() == b.len(),
    ensures
        dot_spec(a, b) == dot_spec(b, a),
    decreases a.len(),
{
    if a.len() != 0 {
        lemma_dot_commutative(a.drop_last(), b.drop_last());
    }
}

/// The dot product is additive in its first argument:
/// `dot(a + b, c) == dot(a, c) + dot(b, c)`.
pub proof fn lemma_dot_additive_left(a: Seq<int>, b: Seq<int>, c: Seq<int>)
    requires
        a.len() == b.len() == c.len(),
    ensures
        dot_spec(add_vec(a, b), c) == dot_spec(a, c) + dot_spec(b, c),
    decreases a.len(),
{
    if a.len() == 0 {
        assert(add_vec(a, b).len() == 0);
    } else {
        lemma_dot_additive_left(a.drop_last(), b.drop_last(), c.drop_last());
        assert(add_vec(a, b).drop_last() =~= add_vec(a.drop_last(), b.drop_last()));
        assert(add_vec(a, b).last() == a.last() + b.last());
        assert((a.last() + b.last()) * c.last() == a.last() * c.last() + b.last() * c.last())
            by (nonlinear_arith);
    }
}

/// The dot product is homogeneous in its first argument:
/// `dot(k * a, b) == k * dot(a, b)`.
pub proof fn lemma_dot_homogeneous_left(k: int, a: Seq<int>, b: Seq<int>)
    requires
        a.len() == b.len(),
    ensures
        dot_spec(scale_vec(k, a), b) == k * dot_spec(a, b),
    decreases a.len(),
{
    if a.len() == 0 {
        assert(scale_vec(k, a).len() == 0);
    } else {
        lemma_dot_homogeneous_left(k, a.drop_last(), b.drop_last());
        assert(scale_vec(k, a).drop_last() =~= scale_vec(k, a.drop_last()));
        assert(scale_vec(k, a).last() == k * a.last());
        assert((k * a.last()) * b.last() == k * (a.last() * b.last())) by (nonlinear_arith);
        assert(k * (dot_spec(a.drop_last(), b.drop_last()) + a.last() * b.last()) == k * dot_spec(
            a.drop_last(),
            b.drop_last(),
        ) + k * (a.last() * b.last())) by (nonlinear_arith);
    }
}

/// For componentwise-bounded nonnegative vectors, the self-similarity is at
/// most the dimension times the square of the bound.
pub proof fn lemma_dot_self_upper(v: Seq<i64>, m: int)
    requires
        m >= 0,
        forall|i: int| 0 <= i < v.len() ==> 0 <= #[trigger] v[i] <= m,
    ensures
        dot_spec(ints(v), ints(v)) <= v.len() * m * m,
    decreases v.len(),
{
    if v.len() == 0 {
    } else {
        assert forall|i: int| 0 <= i < v.drop_last().len() implies 0 <= #[trigger] v.drop_last()[i]
            <= m by {
            assert(v.drop_last()[i] == v[i]);
        }
        lemma_dot_self_upper(v.drop_last(), m);
        assert(ints(v).drop_last() =~= ints(v.drop_last()));
        assert(ints(v).last() == v[v.len() - 1]);
        assert(v.last() == v[v.len() - 1]);
        assert((v.last() as int) * (v.last() as int) <= m * m) by (nonlinear_arith)
            requires
                0 <= v.last() as int <= m,
        ;
        assert((v.len() - 1) * m * m + m * m == v.len() * m * m) by (nonlinear_arith);
    }
}

/// The dot product of a vector with itself is never negative.
pub proof fn lemma_dot_self_nonneg(a: Seq<int>)
    ensures
        dot_spec(a, a) >= 0,
    decreases a.len(),
{
    if a.len() != 0 {
        lemma_dot_self_nonneg(a.drop_last());
        assert(a.last() * a.last() >= 0) by (nonlinear_arith);
    }
}

} // verus!
