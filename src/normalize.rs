use vstd::prelude::*;
use crate::kmeans::{floor_div, max_points, valid_data, data_dim, MAX_DIM};
use crate::record::{bounded, clamp_feature, feature_bound, FEATURE_BOUND};

verus! {

/// Sum of column `j` over the first `m` rows.
pub open spec fn column_sum(vs: Seq<Vec<i64>>, j: int, m: nat) -> int
    decreases m,
{
    if m == 0 {
        0
    } else {
        column_sum(vs, j, (m - 1) as nat) + vs[m - 1]@[j]
    }
}

/// Mean of column `j`, rounded down.
pub open spec fn column_mean(vs: Seq<Vec<i64>>, j: int) -> int {
    column_sum(vs, j, vs.len()) / vs.len() as int
}

/// Sum of squared deviations from `mean` of column `j` over the first `m` rows.
pub open spec fn deviation_sum(vs: Seq<Vec<i64>>, j: int, mean: int, m: nat) -> int
    decreases m,
{
    if m == 0 {
        0
    } else {
        deviation_sum(vs, j, mean, (m - 1) as nat) + (vs[m - 1]@[j] - mean) * (vs[m - 1]@[j] - mean)
    }
}

/// Population variance of column `j` (about its rounded mean), rounded down.
pub open spec fn column_variance(vs: Seq<Vec<i64>>, j: int) -> int {
    deviation_sum(vs, j, column_mean(vs, j), vs.len()) / vs.len() as int
}

/// `s` is the square root of `v`, rounded down.
pub open spec fn is_floor_sqrt(v: int, s: int) -> bool {
    s >= 0 && s * s <= v && v < (s + 1) * (s + 1)
}

/// The standardised value of `x`: `(x - mean) / std` in fixed-point units,
/// rounded down and clamped to the feature bound; `x` itself when `std` is 0.
pub open spec fn standardised(x: int, mean: int, std: int) -> int {
    if std == 0 {
        x
    } else {
        clamp_feature((x - mean) * 100 / std)
    }
}

/// Column `j` of `r` holds the standardised values of column `j` of `vs`
/// for the standard deviation `s`.
pub open spec fn column_standardised(vs: Seq<Vec<i64>>, r: Seq<Vec<i64>>, j: int, s: int) -> bool {
    forall|i: int|
        0 <= i < vs.len() ==> (#[trigger] r[i])@[j] as int == standardised(
            vs[i]@[j] as int,
            column_mean(vs, j),
            s,
        )
}

/// Column `j` of `r` is column `j` of `vs` standardised with the rounded-down
/// population standard deviation.
pub open spec fn column_normalized(vs: Seq<Vec<i64>>, r: Seq<Vec<i64>>, j: int) -> bool {
    exists|s: int| is_floor_sqrt(column_variance(vs, j), s) && #[trigger] column_standardised(vs, r, j, s)
}

/// `ws` is `vs` standardised column by column.
pub open spec fn normalized_of(vs: Seq<Vec<i64>>, ws: Seq<Vec<i64>>) -> bool {
    &&& ws.len() == vs.len()
    &&& valid_data(ws)
    &&& data_dim(ws) == data_dim(vs)
    &&& forall|j: int| 0 <= j < data_dim(vs) ==> #[trigger] column_normalized(vs, ws, j)
}

/// Square root of `v`, rounded down.
fn floor_sqrt(v: u128) -> (r: u128)
    requires
        v < 0x1_0000_0000_0000_0000_0000_0000_0000,
    ensures
        is_floor_sqrt(v as int, r as int),
        r < 0x1_0000_0000_0000_0000,
{
    let mut lo: u128 = 0;
    let mut hi: u128 = 0x1_0000_0000_0000_0000;
    assert(hi * hi == 0x1_0000_0000_0000_0000 * 0x1_0000_0000_0000_0000);
    while hi - lo > 1
        invariant
            lo < hi <= 0x1_0000_0000_0000_0000,
            lo * lo <= v,
            v < hi * hi,
        decreases hi - lo,
    {
        let mid = lo + (hi - lo) / 2;
        assert(mid * mid < 0x1_0000_0000_0000_0000 * 0x1_0000_0000_0000_0000) by (nonlinear_arith)
            requires
                mid < 0x1_0000_0000_0000_0000,
        ;
        if mid * mid <= v {
            lo = mid;
        } else {
            hi = mid;
        }
    }
    assert(hi == lo + 1);
    lo
}

/// Column-wise standardisation of the clustering input: each value becomes
/// `(x - mean) / std` of its column in fixed-point units (`FEATURE_SCALE`
/// per standard deviation), with the column's mean and population standard
/// deviation rounded down; a column whose standard deviation is 0 is left
/// unchanged.
pub fn normalize_features(vectors: &Vec<Vec<i64>>) -> (r: Vec<Vec<i64>>)
    requires
        valid_data(vectors@),
    ensures
        normalized_of(vectors@, r@),
{
    let n = vectors.len();
    let mut r: Vec<Vec<i64>> = Vec::new();
    if n == 0 {
        return r;
    }
    let d = vectors[0].len();
    // Column statistics: mean and floor standard deviation.
    let mut means: Vec<i128> = Vec::new();
    let mut stds: Vec<i128> = Vec::new();
    let mut j: usize = 0;
    while j < d
        invariant
            j <= d,
            n == vectors@.len(),
            n > 0,
            d == vectors@[0]@.len(),
            valid_data(vectors@),
            means@.len() == j,
            stds@.len() == j,
            forall|q: int| 0 <= q < j ==> #[trigger] means@[q] == column_mean(vectors@, q),
            forall|q: int| 0 <= q < j ==> is_floor_sqrt(column_variance(vectors@, q), #[trigger] stds@[q] as int),
            forall|q: int| 0 <= q < j ==> -feature_bound() <= #[trigger] means@[q] <= feature_bound(),
        decreases d - j,
    {
        let mut sum: i128 = 0;
        let mut i: usize = 0;
        while i < n
            invariant
                i <= n,
                j < d,
                n == vectors@.len(),
                d == vectors@[0]@.len(),
                valid_data(vectors@),
                sum == column_sum(vectors@, j as int, i as nat),
                -(i * feature_bound()) <= sum <= i * feature_bound(),
            decreases n - i,
        {
            assert(vectors@[i as int]@.len() == d && bounded(vectors@[i as int]@));
            let x = vectors[i][j];
            proof {
                assert((i + 1) * feature_bound() == i * feature_bound() + feature_bound()) by (nonlinear_arith);
                assert(i * feature_bound() <= max_points() * feature_bound()) by (nonlinear_arith)
                    requires
                        i <= max_points(),
                ;
            }
            sum = sum + x as i128;
            i = i + 1;
        }
        proof {
            crate::kmeans::lemma_mean_bounded(sum as int, n as int, feature_bound());
            assert(n * feature_bound() <= max_points() * feature_bound()) by (nonlinear_arith)
                requires
                    n <= max_points(),
            ;
        }
        let mean = floor_div(sum, n as i128);
        let mut dev: i128 = 0;
        let mut i: usize = 0;
        while i < n
            invariant
                i <= n,
                j < d,
                n == vectors@.len(),
                d == vectors@[0]@.len(),
                valid_data(vectors@),
                mean == column_mean(vectors@, j as int),
                -feature_bound() <= mean <= feature_bound(),
                dev == deviation_sum(vectors@, j as int, mean as int, i as nat),
                0 <= dev <= i * crate::kmeans::term_bound(),
            decreases n - i,
        {
            assert(vectors@[i as int]@.len() == d && bounded(vectors@[i as int]@));
            let x = vectors[i][j] as i128 - mean;
            proof {
                let m: int = 0x200_0000_0000;
                assert(0 <= x * x <= m * m) by (nonlinear_arith)
                    requires
                        -m <= x <= m,
                ;
                assert(m * m == crate::kmeans::term_bound());
                assert((i + 1) * crate::kmeans::term_bound() == i * crate::kmeans::term_bound()
                    + crate::kmeans::term_bound()) by (nonlinear_arith);
                assert(i * crate::kmeans::term_bound() <= max_points() * crate::kmeans::term_bound())
                    by (nonlinear_arith)
                    requires
                        i <= max_points(),
                ;
            }
            dev = dev + x * x;
            i = i + 1;
        }
        proof {
            assert(n * crate::kmeans::term_bound() <= max_points() * crate::kmeans::term_bound())
                by (nonlinear_arith)
                requires
                    n <= max_points(),
            ;
            vstd::arithmetic::div_mod::lemma_div_is_ordered(dev as int, n * crate::kmeans::term_bound(), n as int);
            vstd::arithmetic::div_mod::lemma_div_by_multiple(crate::kmeans::term_bound(), n as int);
            assert(n * crate::kmeans::term_bound() == crate::kmeans::term_bound() * n) by (nonlinear_arith);
        }
        let var = dev / (n as i128);
        let s = floor_sqrt(var as u128);
        means.push(mean);
        stds.push(s as i128);
        j = j + 1;
    }
    let mut i: usize = 0;
    while i < n
        invariant
            i <= n,
            n == vectors@.len(),
            d == vectors@[0]@.len(),
            valid_data(vectors@),
            means@.len() == d,
            stds@.len() == d,
            forall|q: int| 0 <= q < d ==> #[trigger] means@[q] == column_mean(vectors@, q),
            forall|q: int| 0 <= q < d ==> is_floor_sqrt(column_variance(vectors@, q), #[trigger] stds@[q] as int),
            forall|q: int| 0 <= q < d ==> -feature_bound() <= #[trigger] means@[q] <= feature_bound(),
            r@.len() == i,
            forall|p: int| 0 <= p < i ==> (#[trigger] r@[p])@.len() == d && bounded(r@[p]@),
            forall|p: int, q: int|
                0 <= p < i && 0 <= q < d ==> #[trigger] r@[p]@[q] as int == standardised(
                    vectors@[p]@[q] as int,
                    means@[q] as int,
                    stds@[q] as int,
                ),
        decreases n - i,
    {
        assert(vectors@[i as int]@.len() == d && bounded(vectors@[i as int]@));
        let mut row: Vec<i64> = Vec::new();
        let mut q: usize = 0;
        while q < d
            invariant
                q <= d,
                i < n,
                n == vectors@.len(),
                d == vectors@[0]@.len(),
                vectors@[i as int]@.len() == d,
                bounded(vectors@[i as int]@),
                means@.len() == d,
                stds@.len() == d,
                forall|q2: int| 0 <= q2 < d ==> is_floor_sqrt(column_variance(vectors@, q2), #[trigger] stds@[q2] as int),
                forall|q2: int| 0 <= q2 < d ==> -feature_bound() <= #[trigger] means@[q2] <= feature_bound(),
                row@.len() == q,
                bounded(row@),
                forall|q2: int| 0 <= q2 < q ==> #[trigger] row@[q2] as int == standardised(
                    vectors@[i as int]@[q2] as int,
                    means@[q2] as int,
                    stds@[q2] as int,
                ),
            decreases d - q,
        {
            let x = vectors[i][q];
            let s = stds[q];
            let v: i64 = if s == 0 {
                x
            } else {
                let m = means[q];
                assert(-feature_bound() <= m <= feature_bound());
                let diff: i128 = (x as i128 - m) * 100;
                let z = floor_div(diff, s);
                if z > FEATURE_BOUND as i128 {
                    FEATURE_BOUND
                } else if z < -(FEATURE_BOUND as i128) {
                    -FEATURE_BOUND
                } else {
                    z as i64
                }
            };
            row.push(v);
            q = q + 1;
        }
        r.push(row);
        i = i + 1;
    }
    assert(valid_data(r@));
    proof {
        assert forall|j: int| 0 <= j < data_dim(vectors@) implies #[trigger] column_normalized(vectors@, r@, j) by {
            let s = stds@[j] as int;
            assert(is_floor_sqrt(column_variance(vectors@, j), s));
            assert(means@[j] == column_mean(vectors@, j));
            assert(column_standardised(vectors@, r@, j, s));
        }
    }
    r
}

} // verus!
