//! The embedding client interface, and a deterministic in-process provider.
//!
//! A provider turns a batch of text spans into one fixed-point vector per
//! span, same order, all or nothing.  Each provider's assignment of vectors
//! to spans is a function of the span alone, named by its `embed_spec`, so
//! indexing the same text twice yields the same vectors.

use vstd::prelude::*;
use crate::similarity::{
    dot_spec,
    ints,
    lemma_dot_self_nonneg,
    lemma_dot_self_upper,
    valid_embedding,
    EMBED_SCALE,
};
use vstd::arithmetic::div_mod::{
    lemma_div_by_multiple,
    lemma_div_is_ordered,
    lemma_div_pos_is_pos,
};

verus! {

/// Longest span a provider must accept, in bytes.
pub const MAX_SPAN_LEN: usize = 100_000_000;

/// Why a batch failed: the whole batch fails together.
#[derive(Debug, Clone, Copy, PartialEq, Eq)]
pub enum EmbeddingError {
    BatchFailed,
}

/// One recorded embedding call: the spans the provider was handed, and
/// whether the batch succeeded.
pub struct EmbedCall {
    pub spans: Seq<Seq<u8>>,
    pub ok: bool,
}

/// The spans of a batch, as byte sequences.
pub open spec fn spans_view(spans: Seq<Vec<u8>>) -> Seq<Seq<u8>> {
    spans.map_values(|v: Vec<u8>| v@)
}

/// A batched embedding backend.
///
/// A provider's vectors are pinned to its `embed_spec`, a function of the
/// span alone, so that indexing and search contracts can name the vectors
/// they store and compare.  A backend whose answers drift over time cannot
/// implement this trait directly; it belongs behind an adapter that fixes
/// the vectors it has handed out.
pub trait EmbeddingProvider: Sized {
    /// The vector this provider assigns to a span.  It depends on the span
    /// alone and never changes over the provider's lifetime.
    spec fn embed_spec(&self, span: Seq<u8>) -> Seq<i64>;

    /// The embedding calls made on this provider so far, oldest first.
    /// Every batch a caller sends to the backend is on the record, which is
    /// what lets the orchestrator's contracts bound what gets (re)embedded
    /// and tie reported failures to calls that actually failed.
    spec fn history(&self) -> Seq<EmbedCall>;

    /// Embeds every span of the batch: on success, one vector per span, in
    /// order, each the provider's vector for that span and well-formed; on
    /// failure nothing is returned for any span.  Either way the call goes
    /// on the record, with its spans and its outcome.
    fn embed_batch(&mut self, spans: &Vec<Vec<u8>>) -> (r: Result<Vec<Vec<i64>>, EmbeddingError>)
        requires
            forall|i: int| 0 <= i < spans@.len() ==> (#[trigger] spans@[i])@.len() <= MAX_SPAN_LEN,
        ensures
            forall|s: Seq<u8>| #[trigger] final(self).embed_spec(s) == old(self).embed_spec(s),
            final(self).history() == old(self).history().push(
                EmbedCall { spans: spans_view(spans@), ok: r is Ok },
            ),
            r matches Ok(vs) ==> vs@.len() == spans@.len(),
            r matches Ok(vs) ==> forall|i: int|
                0 <= i < spans@.len() ==> (#[trigger] vs@[i])@ == old(self).embed_spec(spans@[i]@)
                    && valid_embedding(old(self).embed_spec(spans@[i]@)),
    ;
}

/// The letter index (0 to 25) a byte contributes to, if any: ASCII letters
/// count, case folded; every other byte is ignored.
pub open spec fn letter_index(b: u8) -> Option<int> {
    if 97 <= b <= 122 {
        Some((b - 97) as int)
    } else if 65 <= b <= 90 {
        Some((b - 65) as int)
    } else {
        None
    }
}

/// One count per letter of the alphabet, each starting at 1, bumped once per
/// occurrence of the letter in the span.
pub open spec fn letter_counts(span: Seq<u8>) -> Seq<int>
    decreases span.len(),
{
    if span.len() == 0 {
        Seq::new(26, |i: int| 1int)
    } else {
        let rest = letter_counts(span.drop_last());
        match letter_index(span.last()) {
            Some(ix) => rest.update(ix, rest[ix] + 1),
            None => rest,
        }
    }
}

/// Sum of the squares of a sequence of integers.
pub open spec fn sum_squares(s: Seq<int>) -> int
    decreases s.len(),
{
    if s.len() == 0 {
        0
    } else {
        sum_squares(s.drop_last()) + s.last() * s.last()
    }
}

/// The integer square root: the largest `r` with `r * r <= n`.
pub open spec fn spec_isqrt(n: int) -> int
    decreases n,
{
    if n <= 0 {
        0
    } else {
        let r = spec_isqrt(n - 1);
        if (r + 1) * (r + 1) <= n {
            r + 1
        } else {
            r
        }
    }
}

proof fn lemma_isqrt(n: int)
    requires
        n >= 0,
    ensures
        spec_isqrt(n) >= 0,
        spec_isqrt(n) * spec_isqrt(n) <= n,
        n < (spec_isqrt(n) + 1) * (spec_isqrt(n) + 1),
    decreases n,
{
    if n > 0 {
        lemma_isqrt(n - 1);
        let r = spec_isqrt(n - 1);
        if (r + 1) * (r + 1) <= n {
            assert(n <= (n - 1) + 1);
            assert(n - 1 < (r + 1) * (r + 1));
            assert(n < (r + 2) * (r + 2)) by (nonlinear_arith)
                requires
                    n <= (r + 1) * (r + 1),
                    r >= 0,
            ;
        }
    }
}

proof fn lemma_isqrt_unique(n: int, a: int)
    requires
        n >= 0,
        a >= 0,
        a * a <= n,
        n < (a + 1) * (a + 1),
    ensures
        a == spec_isqrt(n),
{
    lemma_isqrt(n);
    let b = spec_isqrt(n);
    assert(a == b) by (nonlinear_arith)
        requires
            a >= 0,
            b >= 0,
            a * a <= n,
            n < (a + 1) * (a + 1),
            b * b <= n,
            n < (b + 1) * (b + 1),
    ;
}

proof fn lemma_sum_squares_nonneg(s: Seq<int>)
    ensures
        sum_squares(s) >= 0,
    decreases s.len(),
{
    if s.len() > 0 {
        lemma_sum_squares_nonneg(s.drop_last());
        assert(s.last() * s.last() >= 0) by (nonlinear_arith);
    }
}

proof fn lemma_square_le_sum(s: Seq<int>, i: int)
    requires
        0 <= i < s.len(),
    ensures
        s[i] * s[i] <= sum_squares(s),
    decreases s.len(),
{
    lemma_sum_squares_nonneg(s.drop_last());
    if i == s.len() - 1 {
        assert(s[i] == s.last());
    } else {
        lemma_square_le_sum(s.drop_last(), i);
        assert(s.drop_last()[i] == s[i]);
        assert(s.last() * s.last() >= 0) by (nonlinear_arith);
    }
}

/// The deterministic vector assigned to a span: the span's letter counts,
/// scaled to a fixed-point unit vector by dividing by the integer square
/// root of their sum of squares.
pub open spec fn fake_embedding(span: Seq<u8>) -> Seq<i64> {
    let c = letter_counts(span);
    let s = spec_isqrt(sum_squares(c));
    Seq::new(26, |i: int| (c[i] * (EMBED_SCALE as int) / s) as i64)
}

proof fn lemma_letter_counts_shape(span: Seq<u8>)
    ensures
        letter_counts(span).len() == 26,
        forall|i: int| 0 <= i < 26 ==> 1 <= #[trigger] letter_counts(span)[i],
    decreases span.len(),
{
    if span.len() > 0 {
        lemma_letter_counts_shape(span.drop_last());
    }
}

proof fn lemma_sum_squares_ge_len(s: Seq<int>)
    requires
        forall|i: int| 0 <= i < s.len() ==> 1 <= #[trigger] s[i],
    ensures
        sum_squares(s) >= s.len(),
    decreases s.len(),
{
    if s.len() > 0 {
        assert forall|i: int| 0 <= i < s.drop_last().len() implies 1 <= #[trigger] s.drop_last()[i] by {
            assert(s.drop_last()[i] == s[i]);
        }
        lemma_sum_squares_ge_len(s.drop_last());
        assert(s.last() == s[s.len() - 1]);
        assert(s.last() * s.last() >= 1) by (nonlinear_arith)
            requires
                s.last() >= 1,
        ;
    }
}

/// Law: the deterministic provider's vectors are normalized in fixed point
/// componentwise: always 26 components, each in `[0, EMBED_SCALE]`.
pub proof fn lemma_fake_embedding_components(span: Seq<u8>)
    ensures
        fake_embedding(span).len() == 26,
        forall|i: int| 0 <= i < 26 ==> 0 <= #[trigger] fake_embedding(span)[i] <= EMBED_SCALE,
{
    let c = letter_counts(span);
    lemma_letter_counts_shape(span);
    lemma_sum_squares_ge_len(c);
    let n2 = sum_squares(c);
    let s = spec_isqrt(n2);
    lemma_isqrt(n2);
    assert(s >= 1) by (nonlinear_arith)
        requires
            n2 >= 26,
            n2 < (s + 1) * (s + 1),
            s >= 0,
    ;
    assert forall|i: int| 0 <= i < 26 implies 0 <= #[trigger] fake_embedding(span)[i]
        <= EMBED_SCALE by {
        lemma_square_le_sum(c, i);
        assert(c[i] <= s) by (nonlinear_arith)
            requires
                c[i] * c[i] <= n2,
                s >= 0,
                n2 < (s + 1) * (s + 1),
                c[i] >= 1,
        ;
        assert(c[i] * 1000int <= s * 1000int) by (nonlinear_arith)
            requires
                c[i] <= s,
        ;
        lemma_div_is_ordered(c[i] * 1000int, s * 1000int, s);
        lemma_div_by_multiple(1000int, s);
        assert(s * 1000int == 1000int * s) by (nonlinear_arith);
        lemma_div_pos_is_pos(c[i] * 1000int, s);
        assert(0 <= c[i] * (EMBED_SCALE as int) / s <= 1000);
        assert(fake_embedding(span)[i] == (c[i] * (EMBED_SCALE as int) / s) as i64);
    }
}

/// Law: the self-similarity of a deterministic provider's vector is
/// nonnegative and at most `26 * EMBED_SCALE^2`.  That it stays close to
/// `EMBED_SCALE^2` — the fixed-point reading of "unit vectors have
/// self-similarity one within tolerance" — is a matter of truncation error
/// bounds, exercised by the test suite rather than stated here.
pub proof fn lemma_fake_embedding_self_similarity(span: Seq<u8>)
    ensures
        0 <= dot_spec(ints(fake_embedding(span)), ints(fake_embedding(span))),
        dot_spec(ints(fake_embedding(span)), ints(fake_embedding(span))) <= 26 * (
        EMBED_SCALE as int) * (EMBED_SCALE as int),
{
    lemma_fake_embedding_components(span);
    lemma_dot_self_nonneg(ints(fake_embedding(span)));
    lemma_dot_self_upper(fake_embedding(span), EMBED_SCALE as int);
}

/// The counts of a sequence of unsigned words, as integers.
pub open spec fn uints(s: Seq<u64>) -> Seq<int> {
    s.map_values(|x: u64| x as int)
}

/// An in-process embedding provider for tests and for running without a
/// remote backend: it embeds a span as its normalized letter frequencies and
/// counts how many spans it has embedded.  It can be told to fail its next
/// batches, to exercise error handling.
pub struct FakeEmbeddingProvider {
    embedding_count: usize,
    fail_requested: bool,
    calls: Ghost<Seq<EmbedCall>>,
}

impl FakeEmbeddingProvider {
    /// How many spans this provider has embedded so far.
    pub closed spec fn count_spec(&self) -> usize {
        self.embedding_count
    }

    /// Whether the provider is set to fail its batches.
    pub closed spec fn fail_spec(&self) -> bool {
        self.fail_requested
    }

    /// A fresh provider: nothing embedded, not failing, no calls on record.
    pub fn new() -> (r: Self)
        ensures
            r.count_spec() == 0,
            !r.fail_spec(),
            r.history() == Seq::<EmbedCall>::empty(),
    {
        FakeEmbeddingProvider {
            embedding_count: 0,
            fail_requested: false,
            calls: Ghost(Seq::empty()),
        }
    }

    /// How many spans have been embedded.
    pub fn embedding_count(&self) -> (r: usize)
        ensures
            r == self.count_spec(),
    {
        self.embedding_count
    }

    /// Makes every following batch fail (or succeed again).
    pub fn set_fail(&mut self, fail: bool)
        ensures
            final(self).fail_spec() == fail,
            final(self).count_spec() == old(self).count_spec(),
            final(self).history() == old(self).history(),
    {
        self.fail_requested = fail;
    }
}

/// Binary search for the integer square root of `n`.
fn isqrt(n: u64) -> (r: u64)
    requires
        n < 288230376151711744u64,  // (1 << 29) squared
    ensures
        r == spec_isqrt(n as int),
        r < 536870912u64,
{
    let mut lo: u64 = 0;
    let mut hi: u64 = 536870912;  // 1 << 29
    proof {
        assert((536870912int) * (536870912int) == 288230376151711744int) by (nonlinear_arith);
    }
    while lo + 1 < hi
        invariant
            lo < hi <= 536870912,
            (lo as int) * (lo as int) <= n as int,
            (n as int) < (hi as int) * (hi as int),
        decreases hi - lo,
    {
        let mid = lo + (hi - lo) / 2;
        proof {
            assert(lo < mid < hi);
            assert((mid as int) * (mid as int) < 288230376151711744int) by (nonlinear_arith)
                requires
                    0 <= (mid as int) < 536870912int,
            ;
        }
        if mid * mid <= n {
            lo = mid;
        } else {
            hi = mid;
        }
    }
    proof {
        lemma_isqrt_unique(n as int, lo as int);
    }
    lo
}

/// The letter-frequency embedding of one span.
fn embed_one(span: &Vec<u8>) -> (r: Vec<i64>)
    requires
        span@.len() <= MAX_SPAN_LEN,
    ensures
        r@ == fake_embedding(span@),
        valid_embedding(r@),
        r@.len() == 26,
{
    let mut counts: Vec<u64> = Vec::new();
    let mut k: usize = 0;
    while k < 26
        invariant
            k <= 26,
            counts@.len() == k,
            forall|t: int| 0 <= t < k ==> counts@[t] == 1u64,
        decreases 26 - k,
    {
        counts.push(1);
        k = k + 1;
    }
    proof {
        assert(uints(counts@) =~= letter_counts(span@.take(0)));
    }
    let mut i: usize = 0;
    while i < span.len()
        invariant
            i <= span@.len() <= MAX_SPAN_LEN,
            counts@.len() == 26,
            uints(counts@) == letter_counts(span@.take(i as int)),
            forall|t: int| 0 <= t < 26 ==> 1 <= #[trigger] counts@[t] <= i + 1,
        decreases span@.len() - i,
    {
        proof {
            assert(span@.take((i + 1) as int).drop_last() =~= span@.take(i as int));
            assert(span@.take((i + 1) as int).last() == span@[i as int]);
        }
        let b = span[i];
        if 97 <= b && b <= 122 {
            let ix = (b - 97) as usize;
            let c = counts[ix];
            counts.set(ix, c + 1);
            proof {
                assert(uints(counts@) =~= letter_counts(span@.take(i as int)).update(
                    ix as int,
                    letter_counts(span@.take(i as int))[ix as int] + 1,
                ));
            }
        } else if 65 <= b && b <= 90 {
            let ix = (b - 65) as usize;
            let c = counts[ix];
            counts.set(ix, c + 1);
            proof {
                assert(uints(counts@) =~= letter_counts(span@.take(i as int)).update(
                    ix as int,
                    letter_counts(span@.take(i as int))[ix as int] + 1,
                ));
            }
        }
        i = i + 1;
    }
    proof {
        assert(span@.take(span@.len() as int) =~= span@);
    }
    let ghost cmodel = letter_counts(span@);
    // Sum of squares of the counts.
    let mut norm2: u64 = 0;
    let mut t: usize = 0;
    while t < 26
        invariant
            t <= 26,
            counts@.len() == 26,
            uints(counts@) == cmodel,
            forall|u: int| 0 <= u < 26 ==> 1 <= #[trigger] counts@[u] <= 100_000_001u64,
            norm2 as int == sum_squares(cmodel.take(t as int)),
            t <= norm2 <= t * 10000000400000001u64,
        decreases 26 - t,
    {
        proof {
            assert(cmodel.take((t + 1) as int).drop_last() =~= cmodel.take(t as int));
            assert(cmodel.take((t + 1) as int).last() == cmodel[t as int]);
        }
        let c = counts[t];
        proof {
            assert(1 <= (c as int) * (c as int) <= 10000000400000001int) by (nonlinear_arith)
                requires
                    1 <= c as int <= 100_000_001int,
            ;
        }
        norm2 = norm2 + c * c;
        t = t + 1;
    }
    proof {
        assert(cmodel.take(26int) =~= cmodel);
        assert(26int * 10000000400000001int < 288230376151711744int) by (nonlinear_arith);
    }
    let s = isqrt(norm2);
    proof {
        lemma_isqrt(norm2 as int);
        assert(s >= 1) by (nonlinear_arith)
            requires
                norm2 as int >= 26,
                (norm2 as int) < ((s as int) + 1) * ((s as int) + 1),
                s as int >= 0,
        ;
    }
    // Scale each count into a fixed-point coordinate.
    let mut out: Vec<i64> = Vec::new();
    let mut w: usize = 0;
    while w < 26
        invariant
            w <= 26,
            counts@.len() == 26,
            uints(counts@) == cmodel,
            forall|u: int| 0 <= u < 26 ==> 1 <= #[trigger] counts@[u] <= 100_000_001u64,
            s as int == spec_isqrt(sum_squares(cmodel)),
            1 <= s <= 536870912u64,
            (s as int) * (s as int) <= sum_squares(cmodel),
            out@.len() == w,
            forall|u: int|
                0 <= u < w ==> #[trigger] out@[u] == (cmodel[u] * (EMBED_SCALE as int) / (
                s as int)) as i64,
            forall|u: int| 0 <= u < w ==> 0 <= #[trigger] out@[u] <= EMBED_SCALE,
        decreases 26 - w,
    {
        let c = counts[w];
        proof {
            lemma_sum_squares_nonneg(cmodel);
            lemma_isqrt(sum_squares(cmodel));
            lemma_square_le_sum(cmodel, w as int);
            assert(c as int <= s as int) by (nonlinear_arith)
                requires
                    (c as int) * (c as int) <= sum_squares(cmodel),
                    (s as int) >= 0,
                    sum_squares(cmodel) < ((s as int) + 1) * ((s as int) + 1),
                    c as int >= 1,
            ;
            assert((c as int) * 1000int <= (s as int) * 1000int) by (nonlinear_arith)
                requires
                    c as int <= s as int,
            ;
            lemma_div_is_ordered((c as int) * 1000int, (s as int) * 1000int, s as int);
            lemma_div_by_multiple(1000int, s as int);
            assert((s as int) * 1000int == 1000int * (s as int)) by (nonlinear_arith);
            lemma_div_pos_is_pos((c as int) * 1000int, s as int);
            assert((c as int) * 1000int / (s as int) <= 1000int);
        }
        let v = c * 1000 / s;
        out.push(v as i64);
        w = w + 1;
    }
    proof {
        assert(out@ =~= fake_embedding(span@));
    }
    out
}

impl EmbeddingProvider for FakeEmbeddingProvider {
    /// The deterministic letter-frequency vector.
    open spec fn embed_spec(&self, span: Seq<u8>) -> Seq<i64> {
        fake_embedding(span)
    }

    /// The recorded calls.
    closed spec fn history(&self) -> Seq<EmbedCall> {
        self.calls@
    }

    /// Succeeds exactly when not set to fail; on success the span counter
    /// rises by the batch size (saturating), on failure nothing changes.
    #[verifier::rlimit(100)]
    #[verifier::spinoff_prover]
    fn embed_batch(&mut self, spans: &Vec<Vec<u8>>) -> (r: Result<Vec<Vec<i64>>, EmbeddingError>)
        ensures
            (r is Ok) == !old(self).fail_spec(),
            final(self).fail_spec() == old(self).fail_spec(),
            r is Ok ==> final(self).count_spec() == (if old(self).count_spec() + spans@.len()
                <= usize::MAX {
                (old(self).count_spec() + spans@.len()) as usize
            } else {
                usize::MAX
            }),
            r is Err ==> final(self).count_spec() == old(self).count_spec(),
    {
        if self.fail_requested {
            self.calls = Ghost(self.calls@.push(EmbedCall { spans: spans_view(spans@), ok: false }));
            return Err(EmbeddingError::BatchFailed);
        }
        let mut out: Vec<Vec<i64>> = Vec::new();
        let mut i: usize = 0;
        while i < spans.len()
            invariant
                i <= spans@.len(),
                out@.len() == i,
                forall|t: int|
                    0 <= t < spans@.len() ==> (#[trigger] spans@[t])@.len() <= MAX_SPAN_LEN,
                forall|t: int|
                    0 <= t < i ==> (#[trigger] out@[t])@ == fake_embedding(spans@[t]@)
                        && valid_embedding(fake_embedding(spans@[t]@)),
            decreases spans@.len() - i,
        {
            let v = embed_one(&spans[i]);
            out.push(v);
            proof {
                assert(out@[i as int] == v);
                assert(forall|t: int| 0 <= t < i ==> out@[t] == out@.drop_last()[t]);
            }
            i = i + 1;
        }
        if self.embedding_count <= usize::MAX - spans.len() {
            self.embedding_count = self.embedding_count + spans.len();
        } else {
            self.embedding_count = usize::MAX;
        }
        self.calls = Ghost(self.calls@.push(EmbedCall { spans: spans_view(spans@), ok: true }));
        proof {
            assert(forall|s: Seq<u8>| #[trigger] self.embed_spec(s) == old(self).embed_spec(s));
            assert forall|t: int| 0 <= t < spans@.len() implies (#[trigger] out@[t])@ == old(
                self,
            ).embed_spec(spans@[t]@) && valid_embedding(old(self).embed_spec(spans@[t]@)) by {
                assert(old(self).embed_spec(spans@[t]@) == fake_embedding(spans@[t]@));
            }
        }
        Ok(out)
    }
}

} // verus!
