//! Speaker similarity for learned embedding vectors.
//!
//! When an embedding backend replaces the built-in feature extractor, two
//! segments belong to the same speaker when the cosine similarity of
//! their embeddings reaches the threshold (0.85 — a similarity, not a
//! distance, so not comparable with the feature-space threshold).
//! Embeddings are carried fixed point in millionths, components clamped
//! to full scale at the boundary; the threshold test is computed without
//! dividing, by cross-multiplying against the norms.

use vstd::prelude::*;
use crate::math::{isqrt, isqrt_spec, lemma_isqrt_lt};

verus! {

/// Cosine similarity at or above this counts as the same speaker: 0.85.
pub const COSINE_SIMILARITY_THRESHOLD: u64 = 850_000;

/// Every component within full scale.
pub open spec fn embedding_wf(e: Seq<i64>) -> bool {
    forall|i: int| 0 <= i < e.len() ==> -1_000_000 <= #[trigger] e[i] <= 1_000_000
}

/// Dot product of the first `n` component pairs.
pub open spec fn dot_to(a: Seq<i64>, b: Seq<i64>, n: int) -> int
    decreases n,
    when n >= 0
{
    if n <= 0 {
        0
    } else {
        dot_to(a, b, n - 1) + a[n - 1] * b[n - 1]
    }
}

/// Dot product of two equally long embeddings.
pub open spec fn dot(a: Seq<i64>, b: Seq<i64>) -> int {
    dot_to(a, b, a.len() as int)
}

/// The integer norm of an embedding: the root of its self dot product.
pub open spec fn norm(e: Seq<i64>) -> int {
    isqrt_spec(dot_to(e, e, e.len() as int) as nat) as int
}

/// Whether two embeddings pass the cosine-similarity threshold:
/// `dot / (|a| * |b|) >= 0.85`, stated by cross-multiplication. Two
/// vectors with a vanishing norm carry no voice information and never
/// match.
pub open spec fn embeddings_match(a: Seq<i64>, b: Seq<i64>) -> bool {
    norm(a) * norm(b) > 0 && dot(a, b) >= 0 && dot(a, b) * 1_000_000 >= 850_000 * (norm(a)
        * norm(b))
}

/// Partial dot products of well-formed embeddings are bounded.
proof fn lemma_dot_bound(a: Seq<i64>, b: Seq<i64>, n: int)
    requires
        embedding_wf(a),
        embedding_wf(b),
        0 <= n <= a.len(),
        n <= b.len(),
    ensures
        -(n * 1_000_000_000_000) <= dot_to(a, b, n) <= n * 1_000_000_000_000,
    decreases n,
{
    if n > 0 {
        lemma_dot_bound(a, b, n - 1);
        assert(-1_000_000_000_000 <= a[n - 1] * b[n - 1] <= 1_000_000_000_000)
            by (nonlinear_arith)
            requires
                -1_000_000 <= a[n - 1] <= 1_000_000,
                -1_000_000 <= b[n - 1] <= 1_000_000,
        ;
        assert(n * 1_000_000_000_000 == (n - 1) * 1_000_000_000_000 + 1_000_000_000_000)
            by (nonlinear_arith);
    }
}

/// A self dot product is never negative.
proof fn lemma_self_dot_nonneg(e: Seq<i64>, n: int)
    requires
        0 <= n <= e.len(),
    ensures
        dot_to(e, e, n) >= 0,
    decreases n,
{
    if n > 0 {
        lemma_self_dot_nonneg(e, n - 1);
        assert(e[n - 1] * e[n - 1] >= 0) by (nonlinear_arith);
    }
}

/// Computes the dot product of two equally long embeddings.
fn dot_product(a: &Vec<i64>, b: &Vec<i64>) -> (d: i128)
    requires
        a@.len() == b@.len() <= 0x10_0000,
        embedding_wf(a@),
        embedding_wf(b@),
    ensures
        d == dot(a@, b@),
        -(0x10_0000 * 1_000_000_000_000) <= d <= 0x10_0000 * 1_000_000_000_000,
{
    let len: usize = a.len();
    let mut d: i128 = 0;
    let mut i: usize = 0;
    proof {
        lemma_dot_bound(a@, b@, 0);
    }
    while i < len
        invariant
            0 <= i <= len,
            len == a@.len() == b@.len(),
            len <= 0x10_0000,
            embedding_wf(a@),
            embedding_wf(b@),
            d == dot_to(a@, b@, i as int),
            -(i * 1_000_000_000_000) <= d <= i * 1_000_000_000_000,
        decreases len - i,
    {
        let x: i64 = a[i];
        let y: i64 = b[i];
        proof {
            assert(-1_000_000_000_000 <= x * y <= 1_000_000_000_000) by (nonlinear_arith)
                requires
                    -1_000_000 <= x <= 1_000_000,
                    -1_000_000 <= y <= 1_000_000,
            ;
            assert((i + 1) * 1_000_000_000_000 == i * 1_000_000_000_000 + 1_000_000_000_000)
                by (nonlinear_arith);
            assert(i * 1_000_000_000_000 <= 0x10_0000 * 1_000_000_000_000) by (nonlinear_arith)
                requires
                    i <= 0x10_0000,
            ;
        }
        d = d + (x as i128) * (y as i128);
        i = i + 1;
    }
    d
}

/// Decides whether two embeddings belong to the same speaker under the
/// cosine-similarity rule.
pub fn embedding_same_speaker(a: &Vec<i64>, b: &Vec<i64>) -> (r: bool)
    requires
        a@.len() == b@.len() <= 0x10_0000,
        embedding_wf(a@),
        embedding_wf(b@),
    ensures
        r == embeddings_match(a@, b@),
{
    let d: i128 = dot_product(a, b);
    let na2: i128 = dot_product(a, a);
    let nb2: i128 = dot_product(b, b);
    proof {
        lemma_self_dot_nonneg(a@, a@.len() as int);
        lemma_self_dot_nonneg(b@, b@.len() as int);
        lemma_isqrt_lt(na2 as nat, 0x4000_0000);
        lemma_isqrt_lt(nb2 as nat, 0x4000_0000);
        assert(0x10_0000 * 1_000_000_000_000 < 0x4000_0000 * 0x4000_0000) by (nonlinear_arith);
    }
    let na: u128 = isqrt(na2 as u128);
    let nb: u128 = isqrt(nb2 as u128);
    proof {
        assert(na * nb <= 0x4000_0000 * 0x4000_0000) by (nonlinear_arith)
            requires
                0 <= na < 0x4000_0000,
                0 <= nb < 0x4000_0000,
        ;
    }
    let p: u128 = na * nb;
    if p == 0 || d < 0 {
        proof {
            if p == 0 {
                assert(norm(a@) * norm(b@) == na as int * nb as int);
            }
        }
        return false;
    }
    proof {
        assert(d * 1_000_000 <= 0x10_0000 * 1_000_000_000_000 * 1_000_000) by (nonlinear_arith)
            requires
                0 <= d <= 0x10_0000 * 1_000_000_000_000,
        ;
        assert(850_000 * (p as int) <= 850_000 * (0x4000_0000 * 0x4000_0000))
            by (nonlinear_arith)
            requires
                0 <= p <= 0x4000_0000 * 0x4000_0000,
        ;
        assert(norm(a@) * norm(b@) == na as int * nb as int);
        assert(na as int * nb as int > 0) by (nonlinear_arith)
            requires
                na as int * nb as int == p,
                p > 0,
        ;
    }
    let lhs: u128 = (d as u128) * 1_000_000;
    let rhs: u128 = (COSINE_SIMILARITY_THRESHOLD as u128) * p;
    lhs >= rhs
}

} // verus!
