use vstd::prelude::*;
use crate::record::{bounded, feature_bound, holds_ints};

verus! {

/// Largest vector dimension the engine accepts.
pub const MAX_DIM: usize = 64;

/// Largest number of vectors the engine accepts.
pub const MAX_POINTS: u64 = 0x1_0000_0000;

pub open spec fn max_points() -> int {
    0x1_0000_0000
}

/// Bound on one squared coordinate difference of two bounded vectors.
pub open spec fn term_bound() -> int {
    0x4_0000_0000_0000_0000_0000
}

/// Sum of squared coordinate differences over the first `n` coordinates.
pub open spec fn sq_dist_prefix(a: Seq<i64>, b: Seq<i64>, n: nat) -> int
    decreases n,
{
    if n == 0 {
        0
    } else {
        sq_dist_prefix(a, b, (n - 1) as nat) + (a[n - 1] - b[n - 1]) * (a[n - 1] - b[n - 1])
    }
}

/// Squared Euclidean distance.
pub open spec fn sq_dist(a: Seq<i64>, b: Seq<i64>) -> int {
    sq_dist_prefix(a, b, a.len())
}

/// All vectors share one dimension of at most `MAX_DIM`, lie within the
/// feature bound, and are at most `MAX_POINTS` in number.
pub open spec fn valid_data(vs: Seq<Vec<i64>>) -> bool {
    &&& vs.len() <= max_points()
    &&& vs.len() > 0 ==> vs[0]@.len() <= MAX_DIM
    &&& forall|i: int|
        0 <= i < vs.len() ==> (#[trigger] vs[i])@.len() == vs[0]@.len() && bounded(vs[i]@)
}

/// Vectors of dimension `d` within the feature bound.
pub open spec fn rows_of_dim(vs: Seq<Vec<i64>>, d: nat) -> bool {
    forall|i: int| 0 <= i < vs.len() ==> (#[trigger] vs[i])@.len() == d && bounded(vs[i]@)
}

/// Distance from `v` to the nearest of the first `m` centroids.
pub open spec fn min_dist(v: Seq<i64>, cs: Seq<Vec<i64>>, m: nat) -> int
    decreases m,
{
    if m <= 1 {
        sq_dist(v, cs[0]@)
    } else {
        let p = min_dist(v, cs, (m - 1) as nat);
        let q = sq_dist(v, cs[m - 1]@);
        if q < p {
            q
        } else {
            p
        }
    }
}

/// Distance from `v` to its nearest centroid.
pub open spec fn near_dist(v: Seq<i64>, cs: Seq<Vec<i64>>) -> int {
    min_dist(v, cs, cs.len())
}

/// `c` is the centroid nearest to `v`, the lowest index among equally near ones.
pub open spec fn is_nearest(v: Seq<i64>, cs: Seq<Vec<i64>>, c: int) -> bool {
    &&& 0 <= c < cs.len()
    &&& forall|o: int| 0 <= o < cs.len() ==> sq_dist(v, cs[c]@) <= #[trigger] sq_dist(v, cs[o]@)
    &&& forall|o: int| 0 <= o < c ==> sq_dist(v, cs[c]@) < #[trigger] sq_dist(v, cs[o]@)
}

/// `f` is the vector farthest from its nearest centroid, the lowest index among ties.
pub open spec fn is_farthest(vs: Seq<Vec<i64>>, cs: Seq<Vec<i64>>, f: int) -> bool {
    &&& 0 <= f < vs.len()
    &&& forall|i: int|
        0 <= i < vs.len() ==> #[trigger] near_dist(vs[i]@, cs) <= near_dist(vs[f]@, cs)
    &&& forall|i: int| 0 <= i < f ==> #[trigger] near_dist(vs[i]@, cs) < near_dist(vs[f]@, cs)
}

proof fn lemma_sq_dist_bounds(a: Seq<i64>, b: Seq<i64>, n: nat)
    requires
        n <= a.len(),
        n <= b.len(),
        bounded(a),
        bounded(b),
    ensures
        0 <= sq_dist_prefix(a, b, n) <= n * term_bound(),
    decreases n,
{
    if n > 0 {
        lemma_sq_dist_bounds(a, b, (n - 1) as nat);
        let x = a[n - 1] - b[n - 1];
        let m: int = 0x200_0000_0000;
        assert(-m <= x <= m);
        assert(0 <= x * x <= m * m) by (nonlinear_arith)
            requires
                -m <= x <= m,
        ;
        assert(m * m == term_bound());
        assert(n * term_bound() == (n - 1) * term_bound() + term_bound()) by (nonlinear_arith);
    }
}

proof fn lemma_min_dist_attained(v: Seq<i64>, cs: Seq<Vec<i64>>, m: nat)
    requires
        1 <= m <= cs.len(),
    ensures
        exists|c: int| 0 <= c < m && min_dist(v, cs, m) == sq_dist(v, cs[c]@),
        forall|c: int| 0 <= c < m ==> min_dist(v, cs, m) <= #[trigger] sq_dist(v, cs[c]@),
    decreases m,
{
    if m > 1 {
        lemma_min_dist_attained(v, cs, (m - 1) as nat);
        let c0 = choose|c: int| 0 <= c < m - 1 && min_dist(v, cs, (m - 1) as nat) == sq_dist(v, cs[c]@);
        if sq_dist(v, cs[m - 1]@) < min_dist(v, cs, (m - 1) as nat) {
            assert(min_dist(v, cs, m) == sq_dist(v, cs[m - 1]@));
        } else {
            assert(min_dist(v, cs, m) == sq_dist(v, cs[c0]@));
        }
    } else {
        assert(min_dist(v, cs, m) == sq_dist(v, cs[0]@));
    }
}

/// Squared Euclidean distance of two bounded vectors of one dimension.
pub fn squared_distance(a: &Vec<i64>, b: &Vec<i64>) -> (r: i128)
    requires
        a@.len() == b@.len(),
        a@.len() <= MAX_DIM,
        bounded(a@),
        bounded(b@),
    ensures
        r == sq_dist(a@, b@),
        0 <= r <= a@.len() * term_bound(),
{
    let mut acc: i128 = 0;
    let mut j: usize = 0;
    while j < a.len()
        invariant
            j <= a@.len(),
            a@.len() == b@.len(),
            a@.len() <= MAX_DIM,
            bounded(a@),
            bounded(b@),
            acc == sq_dist_prefix(a@, b@, j as nat),
        decreases a@.len() - j,
    {
        proof {
            lemma_sq_dist_bounds(a@, b@, j as nat);
            lemma_sq_dist_bounds(a@, b@, (j + 1) as nat);
            let x = a@[j as int] - b@[j as int];
            let m: int = 0x200_0000_0000;
            assert(0 <= x * x <= m * m) by (nonlinear_arith)
                requires
                    -m <= x <= m,
            ;
            assert(m * m == term_bound());
            assert(j * term_bound() <= 63 * term_bound()) by (nonlinear_arith)
                requires
                    j < 64,
                    term_bound() > 0,
            ;
        }
        let x: i128 = a[j] as i128 - b[j] as i128;
        acc = acc + x * x;
        j = j + 1;
    }
    proof {
        lemma_sq_dist_bounds(a@, b@, a@.len());
    }
    acc
}

/// Index of the centroid nearest to `v`, the lowest index among ties.
pub fn nearest_centroid(v: &Vec<i64>, centroids: &Vec<Vec<i64>>) -> (r: usize)
    requires
        centroids@.len() > 0,
        v@.len() <= MAX_DIM,
        bounded(v@),
        rows_of_dim(centroids@, v@.len()),
    ensures
        is_nearest(v@, centroids@, r as int),
        sq_dist(v@, centroids@[r as int]@) == near_dist(v@, centroids@),
{
    let mut best: usize = 0;
    let mut best_d: i128 = squared_distance(v, &centroids[0]);
    let mut c: usize = 1;
    while c < centroids.len()
        invariant
            1 <= c <= centroids@.len(),
            best < c,
            v@.len() <= MAX_DIM,
            bounded(v@),
            rows_of_dim(centroids@, v@.len()),
            best_d == sq_dist(v@, centroids@[best as int]@),
            best_d == min_dist(v@, centroids@, c as nat),
            forall|o: int| 0 <= o < c ==> best_d <= #[trigger] sq_dist(v@, centroids@[o]@),
            forall|o: int| 0 <= o < best ==> best_d < #[trigger] sq_dist(v@, centroids@[o]@),
        decreases centroids@.len() - c,
    {
        let d = squared_distance(v, &centroids[c]);
        if d < best_d {
            best = c;
            best_d = d;
        }
        c = c + 1;
    }
    best
}

/// Assigns every vector to its nearest centroid.
pub fn assign_all(vectors: &Vec<Vec<i64>>, centroids: &Vec<Vec<i64>>, d: usize) -> (r: Vec<usize>)
    requires
        centroids@.len() > 0,
        d <= MAX_DIM,
        rows_of_dim(vectors@, d as nat),
        rows_of_dim(centroids@, d as nat),
    ensures
        r@.len() == vectors@.len(),
        forall|i: int|
            0 <= i < r@.len() ==> is_nearest(vectors@[i]@, centroids@, #[trigger] r@[i] as int),
{
    let mut r: Vec<usize> = Vec::new();
    let mut i: usize = 0;
    while i < vectors.len()
        invariant
            i <= vectors@.len(),
            r@.len() == i,
            centroids@.len() > 0,
            d <= MAX_DIM,
            rows_of_dim(vectors@, d as nat),
            rows_of_dim(centroids@, d as nat),
            forall|q: int|
                0 <= q < i ==> is_nearest(vectors@[q]@, centroids@, #[trigger] r@[q] as int),
        decreases vectors@.len() - i,
    {
        let c = nearest_centroid(&vectors[i], centroids);
        r.push(c);
        i = i + 1;
    }
    r
}

/// Index of the vector farthest from its nearest centroid, the lowest index among ties.
pub fn farthest_vector(vectors: &Vec<Vec<i64>>, centroids: &Vec<Vec<i64>>, d: usize) -> (r: usize)
    requires
        vectors@.len() > 0,
        centroids@.len() > 0,
        d <= MAX_DIM,
        rows_of_dim(vectors@, d as nat),
        rows_of_dim(centroids@, d as nat),
    ensures
        is_farthest(vectors@, centroids@, r as int),
{
    let c0 = nearest_centroid(&vectors[0], centroids);
    let mut best: usize = 0;
    let mut best_d: i128 = squared_distance(&vectors[0], &centroids[c0]);
    let mut i: usize = 1;
    while i < vectors.len()
        invariant
            1 <= i <= vectors@.len(),
            best < i,
            centroids@.len() > 0,
            d <= MAX_DIM,
            rows_of_dim(vectors@, d as nat),
            rows_of_dim(centroids@, d as nat),
            best_d == near_dist(vectors@[best as int]@, centroids@),
            forall|q: int| 0 <= q < i ==> #[trigger] near_dist(vectors@[q]@, centroids@) <= best_d,
            forall|q: int| 0 <= q < best ==> #[trigger] near_dist(vectors@[q]@, centroids@) < best_d,
        decreases vectors@.len() - i,
    {
        let c = nearest_centroid(&vectors[i], centroids);
        let dist = squared_distance(&vectors[i], &centroids[c]);
        if dist > best_d {
            best = i;
            best_d = dist;
        }
        i = i + 1;
    }
    best
}

/// Number of the first `n` vectors assigned to cluster `c`.
pub open spec fn member_count(asg: Seq<usize>, c: int, n: nat) -> nat
    decreases n,
{
    if n == 0 {
        0
    } else {
        member_count(asg, c, (n - 1) as nat) + if asg[n - 1] == c {
            1nat
        } else {
            0nat
        }
    }
}

/// Sum of coordinate `j` over the first `n` vectors assigned to cluster `c`.
pub open spec fn member_sum(vs: Seq<Vec<i64>>, asg: Seq<usize>, c: int, j: int, n: nat) -> int
    decreases n,
{
    if n == 0 {
        0
    } else {
        member_sum(vs, asg, c, j, (n - 1) as nat) + if asg[n - 1] == c {
            vs[n - 1]@[j] as int
        } else {
            0
        }
    }
}

/// Elementwise mean (rounded down) of the vectors assigned to cluster `c`.
pub open spec fn cluster_mean(vs: Seq<Vec<i64>>, asg: Seq<usize>, c: int, d: nat) -> Seq<int> {
    Seq::new(d, |j: int| member_sum(vs, asg, c, j, vs.len()) / member_count(asg, c, vs.len()) as int)
}

/// Every entry of the assignment names one of `k` clusters.
pub open spec fn assignment_in_range(asg: Seq<usize>, k: int) -> bool {
    forall|i: int| 0 <= i < asg.len() ==> #[trigger] asg[i] < k
}

/// `s / c` rounded down.
pub(crate) fn floor_div(s: i128, c: i128) -> (r: i128)
    requires
        c > 0,
        s > i128::MIN,
    ensures
        r == s as int / c as int,
{
    if s >= 0 {
        s / c
    } else {
        let q = (-s) / c;
        let rem = (-s) % c;
        proof {
            vstd::arithmetic::div_mod::lemma_fundamental_div_mod(-s as int, c as int);
        }
        if rem == 0 {
            proof {
                assert(s as int == (-q as int) * c as int + 0) by (nonlinear_arith)
                    requires
                        -(s as int) == c as int * q as int + rem as int,
                        rem == 0,
                ;
                vstd::arithmetic::div_mod::lemma_fundamental_div_mod_converse(
                    s as int,
                    c as int,
                    -q as int,
                    0,
                );
            }
            -q
        } else {
            proof {
                assert(s as int == (-q as int - 1) * c as int + (c - rem)) by (nonlinear_arith)
                    requires
                        -(s as int) == c as int * q as int + rem as int,
                ;
                vstd::arithmetic::div_mod::lemma_fundamental_div_mod_converse(
                    s as int,
                    c as int,
                    -q - 1,
                    c - rem,
                );
            }
            -q - 1
        }
    }
}

pub(crate) proof fn lemma_mean_bounded(s: int, c: int, b: int)
    requires
        c > 0,
        b >= 0,
        -c * b <= s <= c * b,
    ensures
        -b <= s / c <= b,
{
    vstd::arithmetic::div_mod::lemma_fundamental_div_mod(s, c);
    let q = s / c;
    let r = s % c;
    assert(-b <= q <= b) by (nonlinear_arith)
        requires
            c > 0,
            s == c * q + r,
            0 <= r < c,
            -c * b <= s <= c * b,
    ;
}

/// Elementwise mean of the vectors assigned to cluster `c`, rounded down;
/// the cluster must have a member.
pub(crate) fn cluster_centroid(vectors: &Vec<Vec<i64>>, assignment: &Vec<usize>, c: usize, d: usize) -> (r: Vec<i64>)
    requires
        vectors@.len() <= max_points(),
        d <= MAX_DIM,
        rows_of_dim(vectors@, d as nat),
        assignment@.len() == vectors@.len(),
        member_count(assignment@, c as int, vectors@.len()) > 0,
    ensures
        holds_ints(r@, cluster_mean(vectors@, assignment@, c as int, d as nat)),
        r@.len() == d,
        bounded(r@),
{
    let ghost n = vectors@.len();
    let mut count: i128 = 0;
    let mut sums: Vec<i128> = Vec::new();
    let mut j: usize = 0;
    while j < d
        invariant
            j <= d,
            sums@.len() == j,
            forall|q: int| 0 <= q < j ==> #[trigger] sums@[q] == 0,
        decreases d - j,
    {
        sums.push(0);
        j = j + 1;
    }
    let mut i: usize = 0;
    while i < vectors.len()
        invariant
            i <= n,
            n == vectors@.len(),
            n <= max_points(),
            d <= MAX_DIM,
            rows_of_dim(vectors@, d as nat),
            assignment@.len() == n,
            sums@.len() == d,
            count == member_count(assignment@, c as int, i as nat),
            count <= i,
            forall|q: int|
                0 <= q < d ==> #[trigger] sums@[q] == member_sum(vectors@, assignment@, c as int, q, i as nat),
            forall|q: int|
                0 <= q < d ==> -count * feature_bound() <= #[trigger] sums@[q] <= count * feature_bound(),
        decreases n - i,
    {
        if assignment[i] == c {
            let mut q: usize = 0;
            while q < d
                invariant
                    q <= d,
                    i < n,
                    n == vectors@.len(),
                    n <= max_points(),
                    d <= MAX_DIM,
                    rows_of_dim(vectors@, d as nat),
                    assignment@.len() == n,
                    assignment@[i as int] == c,
                    sums@.len() == d,
                    count == member_count(assignment@, c as int, i as nat),
                    count <= i,
                    forall|p: int|
                        q <= p < d ==> #[trigger] sums@[p] == member_sum(vectors@, assignment@, c as int, p, i as nat),
                    forall|p: int|
                        0 <= p < q ==> #[trigger] sums@[p] == member_sum(vectors@, assignment@, c as int, p, (i + 1) as nat),
                    forall|p: int|
                        q <= p < d ==> -count * feature_bound() <= #[trigger] sums@[p] <= count * feature_bound(),
                    forall|p: int|
                        0 <= p < q ==> -(count + 1) * feature_bound() <= #[trigger] sums@[p] <= (count + 1) * feature_bound(),
                decreases d - q,
            {
                let x = vectors[i][q];
                assert(vectors@[i as int]@[q as int] == x);
                let v = sums[q] + x as i128;
                sums.set(q, v);
                q = q + 1;
            }
            count = count + 1;
        } else {
            assert forall|p: int| 0 <= p < d implies #[trigger] sums@[p] == member_sum(vectors@, assignment@, c as int, p, (i + 1) as nat) by {}
        }
        i = i + 1;
    }
    let mut r: Vec<i64> = Vec::new();
    let mut q: usize = 0;
    while q < d
        invariant
            q <= d,
            count > 0,
            count == member_count(assignment@, c as int, n),
            count <= max_points(),
            sums@.len() == d,
            r@.len() == q,
            forall|p: int|
                0 <= p < d ==> #[trigger] sums@[p] == member_sum(vectors@, assignment@, c as int, p, n),
            forall|p: int|
                0 <= p < d ==> -count * feature_bound() <= #[trigger] sums@[p] <= count * feature_bound(),
            forall|p: int|
                0 <= p < q ==> #[trigger] r@[p] as int == sums@[p] as int / count as int,
            bounded(r@),
        decreases d - q,
    {
        let s = sums[q];
        proof {
            lemma_mean_bounded(s as int, count as int, feature_bound());
            assert(-count * feature_bound() >= -max_points() * feature_bound()) by (nonlinear_arith)
                requires
                    count <= max_points(),
                    feature_bound() > 0,
            ;
        }
        let m = floor_div(s, count);
        r.push(m as i64);
        q = q + 1;
    }
    assert(holds_ints(r@, cluster_mean(vectors@, assignment@, c as int, d as nat)));
    r
}

fn copy_row(v: &Vec<i64>) -> (r: Vec<i64>)
    ensures
        r@ == v@,
{
    let mut r: Vec<i64> = Vec::new();
    let mut j: usize = 0;
    while j < v.len()
        invariant
            j <= v@.len(),
            r@ == v@.subrange(0, j as int),
        decreases v@.len() - j,
    {
        r.push(v[j]);
        j = j + 1;
        assert(r@ =~= v@.subrange(0, j as int));
    }
    assert(r@ =~= v@);
    r
}

fn count_members(assignment: &Vec<usize>, c: usize) -> (r: usize)
    ensures
        r == member_count(assignment@, c as int, assignment@.len()),
{
    let mut r: usize = 0;
    let mut i: usize = 0;
    while i < assignment.len()
        invariant
            i <= assignment@.len(),
            r == member_count(assignment@, c as int, i as nat),
            r <= i,
        decreases assignment@.len() - i,
    {
        if assignment[i] == c {
            r = r + 1;
        }
        i = i + 1;
    }
    r
}

/// The update step: each cluster with members moves to the mean of its
/// members (rounded down); each cluster without members is reseeded to the
/// vector farthest from its nearest old centroid.
pub fn update_centroids(
    vectors: &Vec<Vec<i64>>,
    assignment: &Vec<usize>,
    centroids: &Vec<Vec<i64>>,
    d: usize,
) -> (r: Vec<Vec<i64>>)
    requires
        vectors@.len() > 0,
        vectors@.len() <= max_points(),
        centroids@.len() > 0,
        d <= MAX_DIM,
        rows_of_dim(vectors@, d as nat),
        rows_of_dim(centroids@, d as nat),
        assignment@.len() == vectors@.len(),
    ensures
        r@.len() == centroids@.len(),
        rows_of_dim(r@, d as nat),
        forall|c: int|
            0 <= c < r@.len() && member_count(assignment@, c, vectors@.len()) > 0 ==> holds_ints(
                #[trigger] r@[c]@,
                cluster_mean(vectors@, assignment@, c, d as nat),
            ),
        forall|c: int|
            0 <= c < r@.len() && member_count(assignment@, c, vectors@.len()) == 0 ==> exists|f: int|
                is_farthest(vectors@, centroids@, f) && #[trigger] r@[c]@ == vectors@[f]@,
{
    let far = farthest_vector(vectors, centroids, d);
    let mut r: Vec<Vec<i64>> = Vec::new();
    let mut c: usize = 0;
    while c < centroids.len()
        invariant
            c <= centroids@.len(),
            r@.len() == c,
            vectors@.len() <= max_points(),
            d <= MAX_DIM,
            rows_of_dim(vectors@, d as nat),
            assignment@.len() == vectors@.len(),
            is_farthest(vectors@, centroids@, far as int),
            rows_of_dim(r@, d as nat),
            forall|q: int|
                0 <= q < c && member_count(assignment@, q, vectors@.len()) > 0 ==> holds_ints(
                    #[trigger] r@[q]@,
                    cluster_mean(vectors@, assignment@, q, d as nat),
                ),
            forall|q: int|
                0 <= q < c && member_count(assignment@, q, vectors@.len()) == 0 ==> #[trigger] r@[q]@
                    == vectors@[far as int]@,
        decreases centroids@.len() - c,
    {
        let m = count_members(assignment, c);
        if m > 0 {
            let row = cluster_centroid(vectors, assignment, c, d);
            r.push(row);
        } else {
            let row = copy_row(&vectors[far]);
            r.push(row);
        }
        c = c + 1;
    }
    r
}

/// One step of the engine's pseudo-random generator (a 64-bit linear
/// congruential generator); returns the new state.
fn next_random(state: u64) -> u64 {
    state.wrapping_mul(6364136223846793005u64).wrapping_add(1442695040888963407u64)
}

/// Index of the vector picked by `draw` with probability proportional to its
/// squared distance from the nearest chosen centroid; `draw` picks uniformly
/// when every distance is 0.
fn pick_weighted(vectors: &Vec<Vec<i64>>, centroids: &Vec<Vec<i64>>, d: usize, draw: u128) -> (r: usize)
    requires
        vectors@.len() > 0,
        vectors@.len() <= max_points(),
        centroids@.len() > 0,
        d <= MAX_DIM,
        rows_of_dim(vectors@, d as nat),
        rows_of_dim(centroids@, d as nat),
    ensures
        r < vectors@.len(),
{
    let n = vectors.len();
    let mut weights: Vec<i128> = Vec::new();
    let mut total: i128 = 0;
    let mut i: usize = 0;
    while i < n
        invariant
            i <= n,
            n == vectors@.len(),
            n <= max_points(),
            centroids@.len() > 0,
            d <= MAX_DIM,
            rows_of_dim(vectors@, d as nat),
            rows_of_dim(centroids@, d as nat),
            weights@.len() == i,
            0 <= total <= i * (64 * term_bound()),
        decreases n - i,
    {
        let c = nearest_centroid(&vectors[i], centroids);
        let w = squared_distance(&vectors[i], &centroids[c]);
        proof {
            assert(d * term_bound() <= 64 * term_bound()) by (nonlinear_arith)
                requires
                    d <= 64,
                    term_bound() > 0,
            ;
            assert((i + 1) * (64 * term_bound()) == i * (64 * term_bound()) + 64 * term_bound())
                by (nonlinear_arith);
            assert(i * (64 * term_bound()) <= max_points() * (64 * term_bound())) by (nonlinear_arith)
                requires
                    i <= max_points(),
                    term_bound() > 0,
            ;
        }
        weights.push(w);
        total = total + w;
        i = i + 1;
    }
    proof {
        assert(n * (64 * term_bound()) <= max_points() * (64 * term_bound())) by (nonlinear_arith)
            requires
                n <= max_points(),
                term_bound() > 0,
        ;
    }
    if total == 0 {
        return (draw % (n as u128)) as usize;
    }
    let target: i128 = (draw % (total as u128)) as i128;
    let mut cum: i128 = 0;
    let mut j: usize = 0;
    while j < n
        invariant
            j <= n,
            n == weights@.len(),
            n == vectors@.len(),
            0 <= cum <= total,
            total <= max_points() * (64 * term_bound()),
        decreases n - j,
    {
        let w = weights[j];
        if w < 0 || w > total - cum {
            return j;
        }
        cum = cum + w;
        if cum > target {
            return j;
        }
        j = j + 1;
    }
    n - 1
}

/// Initial centroids by k-means++ seeding: the first is drawn uniformly from
/// the vectors, each further one with probability proportional to the
/// squared distance from the nearest centroid chosen so far.
fn init_centroids(vectors: &Vec<Vec<i64>>, k: usize, d: usize, seed: u64) -> (r: Vec<Vec<i64>>)
    requires
        1 <= k <= vectors@.len(),
        vectors@.len() <= max_points(),
        d <= MAX_DIM,
        rows_of_dim(vectors@, d as nat),
    ensures
        r@.len() == k,
        rows_of_dim(r@, d as nat),
        forall|c: int|
            0 <= c < k ==> exists|i: int| 0 <= i < vectors@.len() && #[trigger] r@[c]@ == vectors@[i]@,
{
    let n = vectors.len();
    let mut state = next_random(seed);
    let first = ((state >> 16) % (n as u64)) as usize;
    let mut r: Vec<Vec<i64>> = Vec::new();
    r.push(copy_row(&vectors[first]));
    assert(r@[0]@ == vectors@[first as int]@);
    while r.len() < k
        invariant
            1 <= r@.len() <= k,
            k <= n,
            n == vectors@.len(),
            n <= max_points(),
            d <= MAX_DIM,
            rows_of_dim(vectors@, d as nat),
            rows_of_dim(r@, d as nat),
            forall|c: int|
                0 <= c < r@.len() ==> exists|i: int| 0 <= i < n && #[trigger] r@[c]@ == vectors@[i]@,
        decreases k - r@.len(),
    {
        state = next_random(state);
        let hi = state;
        state = next_random(state);
        let lo = state;
        let draw: u128 = (hi as u128) * 0x1_0000_0000_0000_0000u128 + (lo as u128);
        let p = pick_weighted(vectors, &r, d, draw);
        let row = copy_row(&vectors[p]);
        let ghost old_r = r@;
        r.push(row);
        assert forall|c: int| 0 <= c < r@.len() implies exists|i: int|
            0 <= i < n && #[trigger] r@[c]@ == vectors@[i]@ by {
            if c < old_r.len() {
                assert(r@[c] == old_r[c]);
            } else {
                assert(r@[c]@ == vectors@[p as int]@);
            }
        }
    }
    r
}

/// Settings of the clustering engine.
pub struct KMeansConfig {
    /// Number of clusters `k`.
    pub n_clusters: usize,
    /// Largest number of update steps.
    pub max_iterations: usize,
    /// The engine stops once the summed squared displacement of the
    /// centroids in one step, in squared fixed-point units, is below this.
    pub tolerance: u64,
    /// Seed of the pseudo-random initialisation.
    pub seed: u64,
}

/// A fitted clustering: the cluster of every vector and the centroids.
pub struct KMeansModel {
    pub assignment: Vec<usize>,
    pub centroids: Vec<Vec<i64>>,
}

#[derive(Clone, Copy, Debug, PartialEq, Eq)]
pub enum KMeansError {
    /// `k` is 0 or exceeds the number of vectors.
    InvalidConfiguration,
}

/// Dimension of the vectors in `vs` (0 when there are none).
pub open spec fn data_dim(vs: Seq<Vec<i64>>) -> nat {
    if vs.len() > 0 {
        vs[0]@.len()
    } else {
        0
    }
}

/// The model is a clustering of `vs` into `k` clusters in which every vector
/// sits in the cluster of its nearest centroid.
pub open spec fn is_fitted(vs: Seq<Vec<i64>>, k: int, m: KMeansModel) -> bool {
    &&& m.assignment@.len() == vs.len()
    &&& m.centroids@.len() == k
    &&& rows_of_dim(m.centroids@, data_dim(vs))
    &&& assignment_in_range(m.assignment@, k)
    &&& forall|i: int|
        0 <= i < vs.len() ==> is_nearest(vs[i]@, m.centroids@, #[trigger] m.assignment@[i] as int)
}

/// Lloyd's algorithm with k-means++ initialisation.
///
/// Fails with `InvalidConfiguration` exactly when `k` is 0 or exceeds the
/// number of vectors. Otherwise every vector is assigned to the nearest of
/// `k` centroids (lowest index among ties).
pub fn fit(vectors: &Vec<Vec<i64>>, config: &KMeansConfig) -> (r: Result<KMeansModel, KMeansError>)
    requires
        valid_data(vectors@),
    ensures
        r is Err <==> (config.n_clusters == 0 || config.n_clusters > vectors@.len()),
        r is Err ==> r == Err::<KMeansModel, KMeansError>(KMeansError::InvalidConfiguration),
        r is Ok ==> is_fitted(vectors@, config.n_clusters as int, r->Ok_0),
{
    let k = config.n_clusters;
    let n = vectors.len();
    if k == 0 || k > n {
        return Err(KMeansError::InvalidConfiguration);
    }
    let d = vectors[0].len();
    assert(rows_of_dim(vectors@, d as nat));
    let mut centroids = init_centroids(vectors, k, d, config.seed);
    let mut it: usize = 0;
    while it < config.max_iterations
        invariant
            1 <= k <= n,
            n == vectors@.len(),
            n <= max_points(),
            d <= MAX_DIM,
            rows_of_dim(vectors@, d as nat),
            rows_of_dim(centroids@, d as nat),
            centroids@.len() == k,
        decreases config.max_iterations - it,
    {
        let assignment = assign_all(vectors, &centroids, d);
        let next = update_centroids(vectors, &assignment, &centroids, d);
        let mut moved: i128 = 0;
        let mut c: usize = 0;
        while c < k
            invariant
                c <= k,
                k <= n,
                n <= max_points(),
                d <= MAX_DIM,
                centroids@.len() == k,
                next@.len() == k,
                rows_of_dim(centroids@, d as nat),
                rows_of_dim(next@, d as nat),
                0 <= moved <= c * (64 * term_bound()),
            decreases k - c,
        {
            let step = squared_distance(&centroids[c], &next[c]);
            proof {
                assert(d * term_bound() <= 64 * term_bound()) by (nonlinear_arith)
                    requires
                        d <= 64,
                        term_bound() > 0,
                ;
                assert((c + 1) * (64 * term_bound()) == c * (64 * term_bound()) + 64 * term_bound())
                    by (nonlinear_arith);
                assert(c * (64 * term_bound()) <= max_points() * (64 * term_bound())) by (nonlinear_arith)
                    requires
                        c <= max_points(),
                        term_bound() > 0,
                ;
            }
            moved = moved + step;
            c = c + 1;
        }
        centroids = next;
        it = it + 1;
        if moved < config.tolerance as i128 {
            break;
        }
    }
    let assignment = assign_all(vectors, &centroids, d);
    let model = KMeansModel { assignment, centroids };
    assert(assignment_in_range(model.assignment@, k as int));
    Ok(model)
}

} // verus!
