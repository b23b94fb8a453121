use vstd::prelude::*;
use crate::kmeans::{valid_data, MAX_DIM};
use crate::record::{bounded, feature_bound};

verus! {

/// Dot product over the first `n` coordinates.
pub open spec fn dot_prefix(a: Seq<i64>, b: Seq<i64>, n: nat) -> int
    decreases n,
{
    if n == 0 {
        0
    } else {
        dot_prefix(a, b, (n - 1) as nat) + a[n - 1] * b[n - 1]
    }
}

pub open spec fn dot(a: Seq<i64>, b: Seq<i64>) -> int {
    dot_prefix(a, b, a.len())
}

/// Squared Euclidean norm.
pub open spec fn norm_sq(a: Seq<i64>) -> int {
    dot(a, a)
}

/// Every coordinate is 0.
pub open spec fn is_zero(a: Seq<i64>) -> bool {
    forall|j: int| 0 <= j < a.len() ==> #[trigger] a[j] == 0
}

/// The cosine similarity of `a` and `b` equals `p / q` (`q > 0`); it is
/// defined as 0 when either vector has norm 0.
pub open spec fn cosine_equals(a: Seq<i64>, b: Seq<i64>, p: int, q: int) -> bool {
    let d = dot(a, b);
    if norm_sq(a) == 0 || norm_sq(b) == 0 {
        p == 0
    } else {
        &&& (p > 0 && d > 0) || (p == 0 && d == 0) || (p < 0 && d < 0)
        &&& q * q * (d * d) == p * p * (norm_sq(a) * norm_sq(b))
    }
}

/// `d / sqrt(na * nb)` exceeds `p / q` (`0 <= p`, `q > 0`), where a zero
/// `na` or `nb` stands for similarity 0.
pub open spec fn parts_exceed(d: int, na: int, nb: int, p: int, q: int) -> bool {
    &&& na > 0
    &&& nb > 0
    &&& d > 0
    &&& q * q * (d * d) > p * p * (na * nb)
}

/// The cosine similarity of `a` and `b` exceeds `p / q` (`0 <= p`, `q > 0`).
pub open spec fn cosine_exceeds(a: Seq<i64>, b: Seq<i64>, p: int, q: int) -> bool {
    parts_exceed(dot(a, b), norm_sq(a), norm_sq(b), p, q)
}

/// Bound on one coordinate product of two bounded vectors.
pub open spec fn prod_bound() -> int {
    0x1_0000_0000_0000_0000_0000
}

proof fn lemma_dot_bounds(a: Seq<i64>, b: Seq<i64>, n: nat)
    requires
        n <= a.len(),
        n <= b.len(),
        bounded(a),
        bounded(b),
    ensures
        -(n * prod_bound()) <= dot_prefix(a, b, n) <= n * prod_bound(),
        a == b ==> dot_prefix(a, b, n) >= 0,
    decreases n,
{
    if n > 0 {
        lemma_dot_bounds(a, b, (n - 1) as nat);
        let x = a[n - 1] as int;
        let y = b[n - 1] as int;
        let m: int = 0x100_0000_0000;
        assert(-(m * m) <= x * y <= m * m) by (nonlinear_arith)
            requires
                -m <= x <= m,
                -m <= y <= m,
        ;
        assert(x * x >= 0) by (nonlinear_arith);
        assert(n * prod_bound() == (n - 1) * prod_bound() + prod_bound()) by (nonlinear_arith);
    }
}

/// Dot product of two bounded vectors of one dimension.
pub fn dot_product(a: &Vec<i64>, b: &Vec<i64>) -> (r: i128)
    requires
        a@.len() == b@.len(),
        a@.len() <= MAX_DIM,
        bounded(a@),
        bounded(b@),
    ensures
        r == dot(a@, b@),
        -(64 * prod_bound()) <= r <= 64 * prod_bound(),
{
    let mut acc: i128 = 0;
    let mut j: usize = 0;
    while j < a.len()
        invariant
            j <= a@.len(),
            a@.len() == b@.len(),
            a@.len() <= MAX_DIM,
            bounded(a@),
            bounded(b@),
            acc == dot_prefix(a@, b@, j as nat),
        decreases a@.len() - j,
    {
        proof {
            lemma_dot_bounds(a@, b@, j as nat);
            lemma_dot_bounds(a@, b@, (j + 1) as nat);
            assert(j * prod_bound() <= 63 * prod_bound()) by (nonlinear_arith)
                requires
                    j < 64,
            ;
            let x = a@[j as int] as int;
            let y = b@[j as int] as int;
            let m: int = 0x100_0000_0000;
            assert(-(m * m) <= x * y <= m * m) by (nonlinear_arith)
                requires
                    -m <= x <= m,
                    -m <= y <= m,
            ;
        }
        acc = acc + a[j] as i128 * b[j] as i128;
        j = j + 1;
    }
    proof {
        lemma_dot_bounds(a@, b@, a@.len());
        assert(a@.len() * prod_bound() <= 64 * prod_bound()) by (nonlinear_arith)
            requires
                a@.len() <= 64,
        ;
    }
    acc
}

proof fn lemma_expand_product(a: int, b: int, c: int, d: int, w: int)
    ensures
        (a * w + b) * (c * w + d) == (a * c) * (w * w) + (b * c + a * d) * w + b * d,
{
    let x = a * w + b;
    vstd::arithmetic::mul::lemma_mul_is_distributive_add(x, c * w, d);
    vstd::arithmetic::mul::lemma_mul_is_distributive_add_other_way(c * w, a * w, b);
    vstd::arithmetic::mul::lemma_mul_is_distributive_add_other_way(d, a * w, b);
    assert((a * w) * (c * w) == (a * c) * (w * w)) by (nonlinear_arith);
    assert(b * (c * w) == (b * c) * w) by (nonlinear_arith);
    assert((a * w) * d == (a * d) * w) by (nonlinear_arith);
    vstd::arithmetic::mul::lemma_mul_is_distributive_add_other_way(w, b * c, a * d);
    vstd::arithmetic::mul::lemma_mul_is_commutative(b, d);
}

/// The product of two integers below 2^96, as a high and a low 128-bit word.
fn wide_mul(x: u128, y: u128) -> (r: (u128, u128))
    requires
        x < 0x1_0000_0000_0000_0000_0000_0000,
        y < 0x1_0000_0000_0000_0000_0000_0000,
    ensures
        r.0 * (0x1_0000_0000_0000_0000 * 0x1_0000_0000_0000_0000) + r.1 == x * y,
{
    let w: u128 = 0x1_0000_0000_0000_0000;
    let x1 = x / w;
    let x0 = x % w;
    let y1 = y / w;
    let y0 = y % w;
    assert(x1 < 0x1_0000_0000 && y1 < 0x1_0000_0000);
    assert(x0 * y0 < (0x1_0000_0000_0000_0000 * 0x1_0000_0000_0000_0000)) by (nonlinear_arith)
        requires
            x0 < 0x1_0000_0000_0000_0000,
            y0 < 0x1_0000_0000_0000_0000,
    ;
    let p00 = x0 * y0;
    assert(x0 * y1 < 0x1_0000_0000_0000_0000_0000_0000) by (nonlinear_arith)
        requires
            x0 < 0x1_0000_0000_0000_0000,
            y1 < 0x1_0000_0000,
    ;
    let p01 = x0 * y1;
    assert(x1 * y0 < 0x1_0000_0000_0000_0000_0000_0000) by (nonlinear_arith)
        requires
            x1 < 0x1_0000_0000,
            y0 < 0x1_0000_0000_0000_0000,
    ;
    let p10 = x1 * y0;
    assert(x1 * y1 < 0x1_0000_0000_0000_0000) by (nonlinear_arith)
        requires
            x1 < 0x1_0000_0000,
            y1 < 0x1_0000_0000,
    ;
    let p11 = x1 * y1;
    let mid = p01 + p10;
    let mid_lo = mid % w;
    let mid_hi = mid / w;
    let lo_sum = p00 / w + mid_lo;
    let lo = (lo_sum % w) * w + p00 % w;
    let hi = p11 + mid_hi + lo_sum / w;
    proof {
        let W: int = 0x1_0000_0000_0000_0000;
        assert(x == x1 * W + x0);
        assert(y == y1 * W + y0);
        lemma_expand_product(x1 as int, x0 as int, y1 as int, y0 as int, W);
        assert(x * y == p11 * (W * W) + mid * W + p00);
        assert(mid == mid_hi * W + mid_lo);
        assert(p00 as int == (p00 as int / W) * W + p00 as int % W);
        assert(lo_sum as int == (lo_sum as int / W) * W + lo_sum as int % W);
        assert(x * y == hi * (W * W) + lo) by (nonlinear_arith)
            requires
                x * y == p11 * (W * W) + mid * W + p00,
                mid == mid_hi * W + mid_lo,
                p00 as int == (p00 as int / W) * W + p00 as int % W,
                lo_sum as int == p00 as int / W + mid_lo,
                lo_sum as int == (lo_sum as int / W) * W + lo_sum as int % W,
                lo as int == (lo_sum as int % W) * W + p00 as int % W,
                hi as int == p11 + mid_hi + lo_sum as int / W,
        ;
    }
    (hi, lo)
}

/// Whether `x * y` exceeds `u * v`, for factors below 2^96.
fn product_greater(x: u128, y: u128, u: u128, v: u128) -> (r: bool)
    requires
        x < 0x1_0000_0000_0000_0000_0000_0000,
        y < 0x1_0000_0000_0000_0000_0000_0000,
        u < 0x1_0000_0000_0000_0000_0000_0000,
        v < 0x1_0000_0000_0000_0000_0000_0000,
    ensures
        r == (x * y > u * v),
{
    let (h1, l1) = wide_mul(x, y);
    let (h2, l2) = wide_mul(u, v);
    proof {
        let W: int = 0x1_0000_0000_0000_0000;
        let B: int = W * W;
        assert(h1 > h2 ==> h1 * B + l1 > h2 * B + l2) by (nonlinear_arith)
            requires
                l1 < B,
                l2 < B,
                l1 >= 0,
                l2 >= 0,
        ;
        assert(h1 < h2 ==> h1 * B + l1 < h2 * B + l2) by (nonlinear_arith)
            requires
                l1 < B,
                l2 < B,
                l1 >= 0,
                l2 >= 0,
        ;
    }
    if h1 != h2 {
        h1 > h2
    } else {
        l1 > l2
    }
}

/// Denominator of similarity thresholds: a threshold of 700 stands for 0.7.
pub const THRESHOLD_SCALE: u16 = 1000;

/// The default similarity threshold, 0.7.
pub const DEFAULT_THRESHOLD: u16 = 700;

/// An exact cosine similarity `dot / sqrt(norm_a * norm_b)`, defined as 0
/// when either squared norm is 0.
#[derive(Clone, Copy, Debug, PartialEq, Eq)]
pub struct Similarity {
    pub dot: i128,
    pub norm_a: i128,
    pub norm_b: i128,
}

/// `s` is the similarity of `a` and `b`.
pub open spec fn similarity_of(a: Seq<i64>, b: Seq<i64>, s: Similarity) -> bool {
    s.dot == dot(a, b) && s.norm_a == norm_sq(a) && s.norm_b == norm_sq(b)
}

/// The exact cosine similarity of two bounded vectors of one dimension.
pub fn cosine_similarity(a: &Vec<i64>, b: &Vec<i64>) -> (r: Similarity)
    requires
        a@.len() == b@.len(),
        a@.len() <= MAX_DIM,
        bounded(a@),
        bounded(b@),
    ensures
        similarity_of(a@, b@, r),
        0 <= r.norm_a <= 64 * prod_bound(),
        0 <= r.norm_b <= 64 * prod_bound(),
        -(64 * prod_bound()) <= r.dot <= 64 * prod_bound(),
{
    let d = dot_product(a, b);
    let na = dot_product(a, a);
    let nb = dot_product(b, b);
    proof {
        lemma_dot_bounds(a@, a@, a@.len());
        lemma_dot_bounds(b@, b@, b@.len());
    }
    Similarity { dot: d, norm_a: na, norm_b: nb }
}

/// Whether the similarity exceeds `threshold / THRESHOLD_SCALE`.
pub fn exceeds_threshold(s: &Similarity, threshold: u16) -> (r: bool)
    requires
        threshold <= THRESHOLD_SCALE,
        0 <= s.norm_a <= 64 * prod_bound(),
        0 <= s.norm_b <= 64 * prod_bound(),
        -(64 * prod_bound()) <= s.dot <= 64 * prod_bound(),
    ensures
        r == parts_exceed(s.dot as int, s.norm_a as int, s.norm_b as int, threshold as int, 1000),
{
    if s.norm_a == 0 || s.norm_b == 0 || s.dot <= 0 {
        return false;
    }
    proof {
        let t = threshold as int;
        assert(s.norm_a * t <= 64 * prod_bound() * 1000) by (nonlinear_arith)
            requires
                0 <= s.norm_a <= 64 * prod_bound(),
                0 <= t <= 1000,
        ;
        assert(s.norm_b * t <= 64 * prod_bound() * 1000) by (nonlinear_arith)
            requires
                0 <= s.norm_b <= 64 * prod_bound(),
                0 <= t <= 1000,
        ;
    }
    let q = s.dot as u128 * 1000u128;
    let pa = s.norm_a as u128 * threshold as u128;
    let pb = s.norm_b as u128 * threshold as u128;
    let r = product_greater(q, q, pa, pb);
    proof {
        let d = s.dot as int;
        let na = s.norm_a as int;
        let nb = s.norm_b as int;
        let p = threshold as int;
        assert((d * 1000) * (d * 1000) == 1000 * 1000 * (d * d)) by (nonlinear_arith);
        assert((na * p) * (nb * p) == p * p * (na * nb)) by (nonlinear_arith);
    }
    r
}

/// An edge of the similarity graph between nodes `a < b`.
#[derive(Clone, Copy, Debug, PartialEq, Eq)]
pub struct Edge {
    pub a: usize,
    pub b: usize,
    pub similarity: Similarity,
}

/// Undirected graph with one node per record (by index) and an edge for each
/// pair whose similarity exceeds the threshold, listed once as `a < b` in
/// increasing order of `(a, b)`.
pub struct SimilarityGraph {
    pub node_count: usize,
    pub edges: Vec<Edge>,
}

/// `(a1, b1)` comes before `(a2, b2)` in lexicographic order.
pub open spec fn pair_before(a1: int, b1: int, a2: int, b2: int) -> bool {
    a1 < a2 || (a1 == a2 && b1 < b2)
}

/// `es` lists exactly the pairs of `vs` whose similarity exceeds
/// `threshold / THRESHOLD_SCALE`, each once, in increasing order.
pub open spec fn graph_edges(vs: Seq<Vec<i64>>, threshold: int, es: Seq<Edge>) -> bool {
    &&& forall|t: int|
        0 <= t < es.len() ==> {
            let e = #[trigger] es[t];
            &&& e.a < e.b < vs.len()
            &&& similarity_of(vs[e.a as int]@, vs[e.b as int]@, e.similarity)
            &&& cosine_exceeds(vs[e.a as int]@, vs[e.b as int]@, threshold, 1000)
        }
    &&& forall|i: int, j: int|
        0 <= i < j < vs.len() && cosine_exceeds(vs[i]@, vs[j]@, threshold, 1000) ==> exists|t: int|
            0 <= t < es.len() && (#[trigger] es[t]).a == i && es[t].b == j
    &&& forall|s: int, t: int|
        0 <= s < t < es.len() ==> pair_before(
            (#[trigger] es[s]).a as int,
            es[s].b as int,
            (#[trigger] es[t]).a as int,
            es[t].b as int,
        )
}

/// The similarity graph of the vectors: an edge joins each pair whose cosine
/// similarity exceeds `threshold / THRESHOLD_SCALE`. Takes time quadratic in
/// the number of vectors.
pub fn build_similarity_graph(vectors: &Vec<Vec<i64>>, threshold: u16) -> (r: SimilarityGraph)
    requires
        valid_data(vectors@),
        threshold <= THRESHOLD_SCALE,
    ensures
        r.node_count == vectors@.len(),
        graph_edges(vectors@, threshold as int, r.edges@),
{
    let n = vectors.len();
    let mut edges: Vec<Edge> = Vec::new();
    let mut i: usize = 0;
    while i < n
        invariant
            i <= n,
            n == vectors@.len(),
            valid_data(vectors@),
            threshold <= THRESHOLD_SCALE,
            forall|t: int|
                0 <= t < edges@.len() ==> {
                    let e = #[trigger] edges@[t];
                    &&& e.a < i
                    &&& e.a < e.b < n
                    &&& similarity_of(vectors@[e.a as int]@, vectors@[e.b as int]@, e.similarity)
                    &&& cosine_exceeds(vectors@[e.a as int]@, vectors@[e.b as int]@, threshold as int, 1000)
                },
            forall|a: int, b: int|
                0 <= a < i && a < b < n && cosine_exceeds(vectors@[a]@, vectors@[b]@, threshold as int, 1000)
                    ==> exists|t: int| 0 <= t < edges@.len() && (#[trigger] edges@[t]).a == a && edges@[t].b == b,
            forall|s: int, t: int|
                0 <= s < t < edges@.len() ==> pair_before(
                    (#[trigger] edges@[s]).a as int,
                    edges@[s].b as int,
                    (#[trigger] edges@[t]).a as int,
                    edges@[t].b as int,
                ),
        decreases n - i,
    {
        let mut j: usize = i + 1;
        while j < n
            invariant
                i < n,
                i + 1 <= j <= n,
                n == vectors@.len(),
                valid_data(vectors@),
                threshold <= THRESHOLD_SCALE,
                forall|t: int|
                    0 <= t < edges@.len() ==> {
                        let e = #[trigger] edges@[t];
                        &&& pair_before(e.a as int, e.b as int, i as int, j as int)
                        &&& e.a <= i
                        &&& e.a < e.b < n
                        &&& similarity_of(vectors@[e.a as int]@, vectors@[e.b as int]@, e.similarity)
                        &&& cosine_exceeds(vectors@[e.a as int]@, vectors@[e.b as int]@, threshold as int, 1000)
                    },
                forall|a: int, b: int|
                    ((0 <= a < i && a < b < n) || (a == i && i < b < j)) && cosine_exceeds(
                        vectors@[a]@,
                        vectors@[b]@,
                        threshold as int,
                        1000,
                    ) ==> exists|t: int| 0 <= t < edges@.len() && (#[trigger] edges@[t]).a == a && edges@[t].b == b,
                forall|s: int, t: int|
                    0 <= s < t < edges@.len() ==> pair_before(
                        (#[trigger] edges@[s]).a as int,
                        edges@[s].b as int,
                        (#[trigger] edges@[t]).a as int,
                        edges@[t].b as int,
                    ),
            decreases n - j,
        {
            let sim = cosine_similarity(&vectors[i], &vectors[j]);
            if exceeds_threshold(&sim, threshold) {
                let ghost before = edges@;
                edges.push(Edge { a: i, b: j, similarity: sim });
                assert forall|a: int, b: int|
                    ((0 <= a < i && a < b < n) || (a == i && i < b < j + 1)) && cosine_exceeds(
                        vectors@[a]@,
                        vectors@[b]@,
                        threshold as int,
                        1000,
                    ) implies exists|t: int| 0 <= t < edges@.len() && (#[trigger] edges@[t]).a == a && edges@[t].b == b by {
                    if a == i && b == j {
                        assert(edges@[before.len() as int].a == a);
                    } else {
                        let t = choose|t: int| 0 <= t < before.len() && (#[trigger] before[t]).a == a && before[t].b == b;
                        assert(edges@[t] == before[t]);
                    }
                }
            }
            j = j + 1;
        }
        i = i + 1;
    }
    SimilarityGraph { node_count: n, edges }
}

proof fn lemma_dot_prefix_symmetric(a: Seq<i64>, b: Seq<i64>, n: nat)
    requires
        n <= a.len(),
        n <= b.len(),
    ensures
        dot_prefix(a, b, n) == dot_prefix(b, a, n),
    decreases n,
{
    if n > 0 {
        lemma_dot_prefix_symmetric(a, b, (n - 1) as nat);
        vstd::arithmetic::mul::lemma_mul_is_commutative(a[n - 1] as int, b[n - 1] as int);
    }
}

proof fn lemma_norm_prefix_zero(a: Seq<i64>, n: nat)
    requires
        n <= a.len(),
    ensures
        dot_prefix(a, a, n) >= 0,
        dot_prefix(a, a, n) == 0 <==> forall|j: int| 0 <= j < n ==> #[trigger] a[j] == 0,
    decreases n,
{
    if n > 0 {
        lemma_norm_prefix_zero(a, (n - 1) as nat);
        let x = a[n - 1] as int;
        assert(x * x >= 0) by (nonlinear_arith);
        assert(x != 0 ==> x * x > 0) by (nonlinear_arith);
        if dot_prefix(a, a, n) == 0 {
            assert forall|j: int| 0 <= j < n implies #[trigger] a[j] == 0 by {
                if j < n - 1 {
                } else {
                }
            }
        }
    }
}

proof fn lemma_dot_with_zero(a: Seq<i64>, b: Seq<i64>, n: nat)
    requires
        n <= a.len(),
        n <= b.len(),
        is_zero(b),
    ensures
        dot_prefix(a, b, n) == 0,
    decreases n,
{
    if n > 0 {
        lemma_dot_with_zero(a, b, (n - 1) as nat);
        assert(b[n - 1] == 0);
    }
}

/// Cosine similarity is symmetric: for every value `p / q`, the similarity
/// of `a` and `b` equals (and exceeds) it exactly when that of `b` and `a` does.
pub proof fn lemma_cosine_symmetric(a: Seq<i64>, b: Seq<i64>, p: int, q: int)
    requires
        a.len() == b.len(),
    ensures
        cosine_equals(a, b, p, q) == cosine_equals(b, a, p, q),
        cosine_exceeds(a, b, p, q) == cosine_exceeds(b, a, p, q),
        dot(a, b) == dot(b, a),
{
    lemma_dot_prefix_symmetric(a, b, a.len());
    vstd::arithmetic::mul::lemma_mul_is_commutative(norm_sq(a), norm_sq(b));
}

/// A vector with a non-zero coordinate has cosine similarity 1 with itself.
pub proof fn lemma_cosine_self(a: Seq<i64>)
    requires
        !is_zero(a),
    ensures
        cosine_equals(a, a, 1, 1),
{
    lemma_norm_prefix_zero(a, a.len());
    let n = norm_sq(a);
    assert(1 * 1 * (n * n) == 1 * 1 * (n * n));
}

/// Any vector has cosine similarity 0 with a zero vector of its dimension.
pub proof fn lemma_cosine_zero(a: Seq<i64>, b: Seq<i64>)
    requires
        a.len() == b.len(),
        is_zero(b),
    ensures
        cosine_equals(a, b, 0, 1),
        cosine_equals(b, a, 0, 1),
        !cosine_exceeds(a, b, 0, 1),
{
    lemma_dot_with_zero(b, b, b.len());
}

} // verus!
