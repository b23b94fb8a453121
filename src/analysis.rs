use vstd::prelude::*;
use crate::kmeans::{
    assignment_in_range, cluster_centroid, cluster_mean, fit, is_fitted, member_count, max_points,
    rows_of_dim, valid_data, KMeansConfig, KMeansError, KMeansModel, MAX_DIM,
};
use crate::normalize::{normalize_features, normalized_of};
use crate::record::{
    category_index, category_of, category_rank, feature_rows, feature_vectors, holds_ints, is_fraud,
    CategoryKind, Transaction, FEATURE_DIM,
};

verus! {

/// Summary of one non-empty cluster.
pub struct ClusterAnalysis {
    /// The cluster's id in `0..k`.
    pub cluster_id: usize,
    pub size: usize,
    pub fraud_count: usize,
    pub unique_users: usize,
    /// Elementwise mean of the members' feature vectors, rounded down.
    pub avg_features: Vec<i64>,
    pub most_common_tx_type: String,
    pub most_common_payment: String,
}

/// Number of fraudulent transactions among the first `n` assigned to cluster `c`.
pub open spec fn fraud_in(ts: Seq<Transaction>, asg: Seq<usize>, c: int, n: nat) -> nat
    decreases n,
{
    if n == 0 {
        0
    } else {
        fraud_in(ts, asg, c, (n - 1) as nat) + if asg[n - 1] == c && is_fraud(ts[n - 1]) {
            1nat
        } else {
            0nat
        }
    }
}

/// User ids among the first `n` transactions assigned to cluster `c`.
pub open spec fn users_in(ts: Seq<Transaction>, asg: Seq<usize>, c: int, n: nat) -> Set<u32>
    decreases n,
{
    if n == 0 {
        Set::empty()
    } else if asg[n - 1] == c {
        users_in(ts, asg, c, (n - 1) as nat).insert(ts[n - 1].user_id)
    } else {
        users_in(ts, asg, c, (n - 1) as nat)
    }
}

/// Values of the categorical field `kind` of the first `n` members of cluster `c`, in order.
pub open spec fn member_values(
    ts: Seq<Transaction>,
    asg: Seq<usize>,
    c: int,
    n: nat,
    kind: CategoryKind,
) -> Seq<Seq<char>>
    decreases n,
{
    if n == 0 {
        Seq::empty()
    } else if asg[n - 1] == c {
        member_values(ts, asg, c, (n - 1) as nat, kind).push(category_of(kind, ts[n - 1]))
    } else {
        member_values(ts, asg, c, (n - 1) as nat, kind)
    }
}

/// Occurrences of `v` among the first `m` entries of `vals`.
pub open spec fn occurrences(vals: Seq<Seq<char>>, v: Seq<char>, m: nat) -> nat
    decreases m,
{
    if m == 0 {
        0
    } else {
        occurrences(vals, v, (m - 1) as nat) + if vals[m - 1] == v {
            1nat
        } else {
            0nat
        }
    }
}

pub open spec fn count_of(vals: Seq<Seq<char>>, v: Seq<char>) -> nat {
    occurrences(vals, v, vals.len())
}

/// Position `p` holds the mode of `vals`: a value of highest count, of lowest
/// rank in the enumeration of `kind` among those, and first to occur among those.
pub open spec fn mode_at(vals: Seq<Seq<char>>, kind: CategoryKind, p: int) -> bool {
    &&& 0 <= p < vals.len()
    &&& forall|j: int|
        0 <= j < vals.len() ==> #[trigger] count_of(vals, vals[j]) <= count_of(vals, vals[p])
    &&& forall|j: int|
        0 <= j < vals.len() && count_of(vals, vals[j]) == count_of(vals, vals[p]) ==> category_rank(
            kind,
            vals[p],
        ) <= #[trigger] category_rank(kind, vals[j])
    &&& forall|j: int|
        0 <= j < p ==> #[trigger] count_of(vals, vals[j]) < count_of(vals, vals[p]) || category_rank(
            kind,
            vals[j],
        ) > category_rank(kind, vals[p])
}

/// `m` is the mode of `vals` for the enumeration of `kind`.
pub open spec fn is_mode(vals: Seq<Seq<char>>, kind: CategoryKind, m: Seq<char>) -> bool {
    exists|p: int| mode_at(vals, kind, p) && vals[p] == m
}

/// `a` summarises cluster `c` of the transactions `ts` with feature rows `vs`
/// of dimension `d` under the assignment `asg`.
pub open spec fn summarises(
    ts: Seq<Transaction>,
    vs: Seq<Vec<i64>>,
    asg: Seq<usize>,
    c: int,
    d: nat,
    a: ClusterAnalysis,
) -> bool {
    let n = ts.len();
    &&& a.cluster_id == c
    &&& a.size == member_count(asg, c, n)
    &&& a.fraud_count == fraud_in(ts, asg, c, n)
    &&& a.unique_users == users_in(ts, asg, c, n).len()
    &&& a.fraud_count <= a.size
    &&& a.unique_users <= a.size
    &&& holds_ints(a.avg_features@, cluster_mean(vs, asg, c, d))
    &&& is_mode(member_values(ts, asg, c, n, CategoryKind::TransactionType), CategoryKind::TransactionType, a.most_common_tx_type@)
    &&& is_mode(member_values(ts, asg, c, n, CategoryKind::PaymentMethod), CategoryKind::PaymentMethod, a.most_common_payment@)
}

/// Ids of the clusters among `0..k` that have members, in increasing order.
pub open spec fn nonempty_ids(asg: Seq<usize>, k: nat) -> Seq<int>
    decreases k,
{
    if k == 0 {
        Seq::empty()
    } else if member_count(asg, k - 1, asg.len()) > 0 {
        nonempty_ids(asg, (k - 1) as nat).push(k - 1)
    } else {
        nonempty_ids(asg, (k - 1) as nat)
    }
}

/// `r` holds one summary per non-empty cluster among `0..k`, in order of id.
pub open spec fn describes(
    ts: Seq<Transaction>,
    vs: Seq<Vec<i64>>,
    asg: Seq<usize>,
    k: nat,
    d: nat,
    r: Seq<ClusterAnalysis>,
) -> bool {
    let ids = nonempty_ids(asg, k);
    &&& r.len() == ids.len()
    &&& forall|t: int| 0 <= t < r.len() ==> summarises(ts, vs, asg, ids[t], d, #[trigger] r[t])
}

/// Index of the mode of `vals` for the enumeration of `kind`.
fn mode_index(vals: &Vec<String>, kind: CategoryKind) -> (p: usize)
    requires
        vals@.len() > 0,
    ensures
        mode_at(vals@.map_values(|s: String| s@), kind, p as int),
{
    let ghost sv = vals@.map_values(|s: String| s@);
    let mut best: usize = 0;
    let mut best_count: usize = 0;
    let mut best_rank: usize = 0;
    let mut p: usize = 0;
    while p < vals.len()
        invariant
            p <= vals@.len(),
            sv == vals@.map_values(|s: String| s@),
            p > 0 ==> best < p,
            p > 0 ==> best_count == count_of(sv, sv[best as int]),
            p > 0 ==> best_rank == category_rank(kind, sv[best as int]),
            forall|j: int| 0 <= j < p ==> #[trigger] count_of(sv, sv[j]) <= best_count,
            forall|j: int|
                0 <= j < p && count_of(sv, sv[j]) == best_count ==> best_rank <= #[trigger] category_rank(
                    kind,
                    sv[j],
                ),
            forall|j: int|
                0 <= j < best ==> #[trigger] count_of(sv, sv[j]) < best_count || category_rank(kind, sv[j])
                    > best_rank,
        decreases vals@.len() - p,
    {
        let mut cnt: usize = 0;
        let mut j: usize = 0;
        while j < vals.len()
            invariant
                j <= vals@.len(),
                p < vals@.len(),
                sv == vals@.map_values(|s: String| s@),
                cnt == occurrences(sv, sv[p as int], j as nat),
                cnt <= j,
            decreases vals@.len() - j,
        {
            if vals[j] == vals[p] {
                cnt = cnt + 1;
            }
            j = j + 1;
        }
        let rank = category_index(kind, &vals[p]);
        if p == 0 || cnt > best_count || (cnt == best_count && rank < best_rank) {
            best = p;
            best_count = cnt;
            best_rank = rank;
        }
        p = p + 1;
    }
    best
}

/// Values of the categorical field `kind` of the members of cluster `c`, in order.
fn collect_values(
    transactions: &[Transaction],
    assignment: &Vec<usize>,
    c: usize,
    kind: CategoryKind,
) -> (r: Vec<String>)
    requires
        assignment@.len() == transactions@.len(),
    ensures
        r@.map_values(|s: String| s@) == member_values(
            transactions@,
            assignment@,
            c as int,
            transactions@.len(),
            kind,
        ),
        r@.len() == member_count(assignment@, c as int, transactions@.len()),
{
    let mut r: Vec<String> = Vec::new();
    let mut i: usize = 0;
    while i < transactions.len()
        invariant
            i <= transactions@.len(),
            assignment@.len() == transactions@.len(),
            r@.map_values(|s: String| s@) == member_values(
                transactions@,
                assignment@,
                c as int,
                i as nat,
                kind,
            ),
            r@.len() == member_count(assignment@, c as int, i as nat),
        decreases transactions@.len() - i,
    {
        if assignment[i] == c {
            let v = match kind {
                CategoryKind::TransactionType => transactions[i].transaction_type.clone(),
                CategoryKind::PaymentMethod => transactions[i].payment_method.clone(),
            };
            let ghost before = r@;
            r.push(v);
            assert(r@.map_values(|s: String| s@) =~= before.map_values(|s: String| s@).push(
                category_of(kind, transactions@[i as int]),
            ));
        }
        i = i + 1;
    }
    r
}

/// The mode of the categorical field `kind` among the members of cluster `c`.
fn most_common(
    transactions: &[Transaction],
    assignment: &Vec<usize>,
    c: usize,
    kind: CategoryKind,
) -> (r: String)
    requires
        assignment@.len() == transactions@.len(),
        member_count(assignment@, c as int, transactions@.len()) > 0,
    ensures
        is_mode(member_values(transactions@, assignment@, c as int, transactions@.len(), kind), kind, r@),
{
    let vals = collect_values(transactions, assignment, c, kind);
    let p = mode_index(&vals, kind);
    let r = vals[p].clone();
    assert(vals@.map_values(|s: String| s@)[p as int] == r@);
    r
}

/// Size, number of fraudulent transactions and number of distinct users of
/// the group of transactions labelled `c`.
pub(crate) fn member_stats(transactions: &[Transaction], assignment: &Vec<usize>, c: usize) -> (r: (
    usize,
    usize,
    usize,
))
    requires
        assignment@.len() == transactions@.len(),
    ensures
        r.0 == member_count(assignment@, c as int, transactions@.len()),
        r.1 == fraud_in(transactions@, assignment@, c as int, transactions@.len()),
        r.2 == users_in(transactions@, assignment@, c as int, transactions@.len()).len(),
        r.1 <= r.0,
        r.2 <= r.0,
{
    let ghost ts = transactions@;
    let ghost asg = assignment@;
    let mut size: usize = 0;
    let mut fraud_count: usize = 0;
    let mut users: Vec<u32> = Vec::new();
    let mut i: usize = 0;
    while i < transactions.len()
        invariant
            i <= ts.len(),
            ts == transactions@,
            asg == assignment@,
            asg.len() == ts.len(),
            size == member_count(asg, c as int, i as nat),
            fraud_count == fraud_in(ts, asg, c as int, i as nat),
            fraud_count <= size,
            size <= i,
            users@.no_duplicates(),
            users@.to_set() == users_in(ts, asg, c as int, i as nat),
            users@.len() <= size,
        decreases ts.len() - i,
    {
        if assignment[i] == c {
            size = size + 1;
            if transactions[i].is_fraudulent() {
                fraud_count = fraud_count + 1;
            }
            let u = transactions[i].user_id;
            let mut found = false;
            let mut q: usize = 0;
            while q < users.len()
                invariant
                    q <= users@.len(),
                    found == (exists|w: int| 0 <= w < q && users@[w] == u),
                decreases users@.len() - q,
            {
                if users[q] == u {
                    found = true;
                }
                q = q + 1;
            }
            let ghost before = users@;
            if !found {
                users.push(u);
                proof {
                    assert forall|a: int, b: int| 0 <= a < b < users@.len() implies users@[a] != users@[b] by {
                        if b == users@.len() - 1 {
                            assert(users@[a] == before[a]);
                        } else {
                            assert(users@[a] == before[a] && users@[b] == before[b]);
                        }
                    }
                    assert(users@.to_set() =~= before.to_set().insert(u)) by {
                        assert forall|x: u32| users@.to_set().contains(x) == before.to_set().insert(u).contains(x) by {
                            if x == u {
                                assert(users@[before.len() as int] == u);
                            }
                            if users@.contains(x) && x != u {
                                let w = choose|w: int| 0 <= w < users@.len() && users@[w] == x;
                                assert(before[w] == x);
                            }
                            if before.contains(x) {
                                let w = choose|w: int| 0 <= w < before.len() && before[w] == x;
                                assert(users@[w] == x);
                            }
                        }
                    }
                }
            } else {
                proof {
                    let w = choose|w: int| 0 <= w < users@.len() && users@[w] == u;
                    assert(users@.to_set().contains(u));
                    assert(users@.to_set() =~= users@.to_set().insert(u));
                }
            }
        }
        i = i + 1;
    }
    proof {
        users@.unique_seq_to_set();
    }
    (size, fraud_count, users.len())
}

/// Summary of cluster `c`, which must have a member.
pub fn analyze_cluster(
    transactions: &[Transaction],
    vectors: &Vec<Vec<i64>>,
    assignment: &Vec<usize>,
    c: usize,
    d: usize,
) -> (r: ClusterAnalysis)
    requires
        vectors@.len() == transactions@.len(),
        assignment@.len() == transactions@.len(),
        transactions@.len() <= max_points(),
        d <= MAX_DIM,
        rows_of_dim(vectors@, d as nat),
        member_count(assignment@, c as int, transactions@.len()) > 0,
    ensures
        summarises(transactions@, vectors@, assignment@, c as int, d as nat, r),
{
    let (size, fraud_count, unique_users) = member_stats(transactions, assignment, c);
    let avg_features = cluster_centroid(vectors, assignment, c, d);
    let most_common_tx_type = most_common(transactions, assignment, c, CategoryKind::TransactionType);
    let most_common_payment = most_common(transactions, assignment, c, CategoryKind::PaymentMethod);
    ClusterAnalysis {
        cluster_id: c,
        size,
        fraud_count,
        unique_users,
        avg_features,
        most_common_tx_type,
        most_common_payment,
    }
}

/// One summary per cluster among `0..k` that has members, in order of id.
pub fn analyze(
    transactions: &[Transaction],
    vectors: &Vec<Vec<i64>>,
    assignment: &Vec<usize>,
    k: usize,
    d: usize,
) -> (r: Vec<ClusterAnalysis>)
    requires
        vectors@.len() == transactions@.len(),
        assignment@.len() == transactions@.len(),
        transactions@.len() <= max_points(),
        d <= MAX_DIM,
        rows_of_dim(vectors@, d as nat),
    ensures
        describes(transactions@, vectors@, assignment@, k as nat, d as nat, r@),
{
    let mut r: Vec<ClusterAnalysis> = Vec::new();
    let mut c: usize = 0;
    while c < k
        invariant
            c <= k,
            vectors@.len() == transactions@.len(),
            assignment@.len() == transactions@.len(),
            transactions@.len() <= max_points(),
            d <= MAX_DIM,
            rows_of_dim(vectors@, d as nat),
            describes(transactions@, vectors@, assignment@, c as nat, d as nat, r@),
        decreases k - c,
    {
        let mut members: usize = 0;
        let mut i: usize = 0;
        while i < assignment.len()
            invariant
                i <= assignment@.len(),
                members == member_count(assignment@, c as int, i as nat),
                members <= i,
            decreases assignment@.len() - i,
        {
            if assignment[i] == c {
                members = members + 1;
            }
            i = i + 1;
        }
        let ghost before = r@;
        if members > 0 {
            let a = analyze_cluster(transactions, vectors, assignment, c, d);
            r.push(a);
            assert(nonempty_ids(assignment@, (c + 1) as nat) == nonempty_ids(assignment@, c as nat).push(c as int));
            assert forall|t: int| 0 <= t < r@.len() implies summarises(
                transactions@,
                vectors@,
                assignment@,
                nonempty_ids(assignment@, (c + 1) as nat)[t],
                d as nat,
                #[trigger] r@[t],
            ) by {
                if t < before.len() {
                    assert(r@[t] == before[t]);
                }
            }
        }
        c = c + 1;
    }
    r
}

/// Update steps of the default configuration.
pub const DEFAULT_MAX_ITERATIONS: usize = 100;

/// Convergence tolerance of the default configuration, in squared
/// fixed-point units: the engine stops once no centroid moves.
pub const DEFAULT_TOLERANCE: u64 = 1;

/// Seed of the default configuration.
pub const DEFAULT_SEED: u64 = 42;

/// The default engine settings for `n_clusters` clusters.
pub fn default_config(n_clusters: usize) -> (r: KMeansConfig)
    ensures
        r.n_clusters == n_clusters,
        r.max_iterations == DEFAULT_MAX_ITERATIONS,
        r.tolerance == DEFAULT_TOLERANCE,
        r.seed == DEFAULT_SEED,
{
    KMeansConfig {
        n_clusters,
        max_iterations: DEFAULT_MAX_ITERATIONS,
        tolerance: DEFAULT_TOLERANCE,
        seed: DEFAULT_SEED,
    }
}

/// `r` is a correct outcome of clustering the transactions `ts` into `k`
/// clusters: empty for no transactions, else the summaries of the non-empty
/// clusters of some fitted clustering of their feature vectors.
pub open spec fn clustering_outcome(ts: Seq<Transaction>, k: nat, r: Seq<ClusterAnalysis>) -> bool {
    if ts.len() == 0 {
        r.len() == 0
    } else {
        exists|vs: Seq<Vec<i64>>, m: KMeansModel|
            feature_rows(ts, vs) && #[trigger] is_fitted(vs, k as int, m) && describes(
                ts,
                vs,
                m.assignment@,
                k,
                FEATURE_DIM as nat,
                r,
            )
    }
}

/// As `clustering_outcome`, but the clustering is fitted to the
/// standardised feature vectors; the summaries still average the raw ones.
pub open spec fn normalized_clustering_outcome(ts: Seq<Transaction>, k: nat, r: Seq<ClusterAnalysis>) -> bool {
    if ts.len() == 0 {
        r.len() == 0
    } else {
        exists|vs: Seq<Vec<i64>>, ws: Seq<Vec<i64>>, m: KMeansModel|
            #![trigger normalized_of(vs, ws), is_fitted(ws, k as int, m)]
            feature_rows(ts, vs) && normalized_of(vs, ws) && is_fitted(ws, k as int, m) && describes(
                ts,
                vs,
                m.assignment@,
                k,
                FEATURE_DIM as nat,
                r,
            )
    }
}

/// Clusters the transactions' standardised feature vectors and summarises
/// every non-empty cluster over the raw feature vectors.
///
/// An empty input gives an empty result. Otherwise fails with
/// `InvalidConfiguration` exactly when `k` is 0 or exceeds the number of
/// transactions.
pub fn analyze_clusters_normalized(transactions: &[Transaction], config: &KMeansConfig) -> (r: Result<
    Vec<ClusterAnalysis>,
    KMeansError,
>)
    requires
        transactions@.len() <= max_points(),
    ensures
        r is Err <==> (transactions@.len() > 0 && (config.n_clusters == 0 || config.n_clusters
            > transactions@.len())),
        r is Err ==> r == Err::<Vec<ClusterAnalysis>, KMeansError>(KMeansError::InvalidConfiguration),
        r is Ok ==> normalized_clustering_outcome(transactions@, config.n_clusters as nat, r->Ok_0@),
{
    if transactions.len() == 0 {
        return Ok(Vec::new());
    }
    let vectors = feature_vectors(transactions);
    assert(valid_data(vectors@));
    let scaled = normalize_features(&vectors);
    let model = match fit(&scaled, config) {
        Ok(m) => m,
        Err(e) => {
            return Err(e);
        },
    };
    assert(rows_of_dim(vectors@, FEATURE_DIM as nat));
    let r = analyze(transactions, &vectors, &model.assignment, config.n_clusters, FEATURE_DIM);
    assert(is_fitted(scaled@, config.n_clusters as int, model));
    assert(normalized_of(vectors@, scaled@));
    Ok(r)
}

/// Clusters the transactions' feature vectors with the given settings and
/// summarises every non-empty cluster.
///
/// An empty input gives an empty result. Otherwise fails with
/// `InvalidConfiguration` exactly when `k` is 0 or exceeds the number of
/// transactions.
pub fn analyze_clusters_with(transactions: &[Transaction], config: &KMeansConfig) -> (r: Result<
    Vec<ClusterAnalysis>,
    KMeansError,
>)
    requires
        transactions@.len() <= max_points(),
    ensures
        r is Err <==> (transactions@.len() > 0 && (config.n_clusters == 0 || config.n_clusters
            > transactions@.len())),
        r is Err ==> r == Err::<Vec<ClusterAnalysis>, KMeansError>(KMeansError::InvalidConfiguration),
        r is Ok ==> clustering_outcome(transactions@, config.n_clusters as nat, r->Ok_0@),
{
    if transactions.len() == 0 {
        return Ok(Vec::new());
    }
    let vectors = feature_vectors(transactions);
    assert(valid_data(vectors@));
    let model = match fit(&vectors, config) {
        Ok(m) => m,
        Err(e) => {
            return Err(e);
        },
    };
    assert(rows_of_dim(vectors@, FEATURE_DIM as nat));
    let r = analyze(transactions, &vectors, &model.assignment, config.n_clusters, FEATURE_DIM);
    assert(is_fitted(vectors@, config.n_clusters as int, model));
    Ok(r)
}

/// Clusters the transactions into `n_clusters` clusters with the default
/// settings and summarises every non-empty cluster.
pub fn analyze_clusters(transactions: &[Transaction], n_clusters: usize) -> (r: Result<
    Vec<ClusterAnalysis>,
    KMeansError,
>)
    requires
        transactions@.len() <= max_points(),
    ensures
        r is Err <==> (transactions@.len() > 0 && (n_clusters == 0 || n_clusters
            > transactions@.len())),
        r is Err ==> r == Err::<Vec<ClusterAnalysis>, KMeansError>(KMeansError::InvalidConfiguration),
        r is Ok ==> clustering_outcome(transactions@, n_clusters as nat, r->Ok_0@),
{
    let config = default_config(n_clusters);
    analyze_clusters_with(transactions, &config)
}

/// Sum of the sizes of the first `m` summaries.
pub open spec fn sizes_upto(r: Seq<ClusterAnalysis>, m: nat) -> int
    decreases m,
{
    if m == 0 {
        0
    } else {
        sizes_upto(r, (m - 1) as nat) + r[m - 1].size
    }
}

/// Sum of the sizes of all summaries.
pub open spec fn total_size(r: Seq<ClusterAnalysis>) -> int {
    sizes_upto(r, r.len())
}

/// Sum of the member counts of the first `m` listed clusters.
pub open spec fn ids_total(asg: Seq<usize>, ids: Seq<int>, m: nat) -> int
    decreases m,
{
    if m == 0 {
        0
    } else {
        ids_total(asg, ids, (m - 1) as nat) + member_count(asg, ids[m - 1], asg.len())
    }
}

/// Sum over the clusters `0..k` of their members among the first `n` vectors.
pub open spec fn cluster_total(asg: Seq<usize>, k: nat, n: nat) -> int
    decreases k,
{
    if k == 0 {
        0
    } else {
        cluster_total(asg, (k - 1) as nat, n) + member_count(asg, k - 1, n)
    }
}

proof fn lemma_sizes_match(
    ts: Seq<Transaction>,
    vs: Seq<Vec<i64>>,
    asg: Seq<usize>,
    k: nat,
    d: nat,
    r: Seq<ClusterAnalysis>,
    m: nat,
)
    requires
        asg.len() == ts.len(),
        describes(ts, vs, asg, k, d, r),
        m <= r.len(),
    ensures
        sizes_upto(r, m) == ids_total(asg, nonempty_ids(asg, k), m),
    decreases m,
{
    if m > 0 {
        lemma_sizes_match(ts, vs, asg, k, d, r, (m - 1) as nat);
        assert(summarises(ts, vs, asg, nonempty_ids(asg, k)[m - 1], d, r[m - 1]));
    }
}

proof fn lemma_ids_total(asg: Seq<usize>, k: nat)
    ensures
        ids_total(asg, nonempty_ids(asg, k), nonempty_ids(asg, k).len()) == cluster_total(
            asg,
            k,
            asg.len(),
        ),
    decreases k,
{
    if k > 0 {
        lemma_ids_total(asg, (k - 1) as nat);
        let prev = nonempty_ids(asg, (k - 1) as nat);
        if member_count(asg, k - 1, asg.len()) > 0 {
            let ids = prev.push(k - 1);
            assert forall|m: nat| m <= prev.len() implies ids_total(asg, ids, m) == ids_total(asg, prev, m) by {
                lemma_ids_total_prefix(asg, prev, ids, m);
            }
        }
    }
}

proof fn lemma_ids_total_prefix(asg: Seq<usize>, a: Seq<int>, b: Seq<int>, m: nat)
    requires
        m <= a.len(),
        m <= b.len(),
        forall|t: int| 0 <= t < m ==> a[t] == b[t],
    ensures
        ids_total(asg, a, m) == ids_total(asg, b, m),
    decreases m,
{
    if m > 0 {
        lemma_ids_total_prefix(asg, a, b, (m - 1) as nat);
    }
}

proof fn lemma_cluster_total_step(asg: Seq<usize>, k: nat, n: nat)
    requires
        0 < n <= asg.len(),
    ensures
        cluster_total(asg, k, n) == cluster_total(asg, k, (n - 1) as nat) + if asg[n - 1] < k {
            1int
        } else {
            0int
        },
    decreases k,
{
    if k > 0 {
        lemma_cluster_total_step(asg, (k - 1) as nat, n);
    }
}

proof fn lemma_cluster_total(asg: Seq<usize>, k: nat, n: nat)
    requires
        n <= asg.len(),
        assignment_in_range(asg, k as int),
    ensures
        cluster_total(asg, k, n) == n,
    decreases n,
{
    if n == 0 {
        lemma_cluster_total_zero(asg, k);
    } else {
        lemma_cluster_total(asg, k, (n - 1) as nat);
        lemma_cluster_total_step(asg, k, n);
        assert(asg[n - 1] < k);
    }
}

proof fn lemma_cluster_total_zero(asg: Seq<usize>, k: nat)
    ensures
        cluster_total(asg, k, 0) == 0,
    decreases k,
{
    if k > 0 {
        lemma_cluster_total_zero(asg, (k - 1) as nat);
    }
}

/// Every transaction is counted in exactly one summary: when each entry of
/// the assignment names one of the `k` clusters, the sizes of the summaries
/// of the non-empty clusters add up to the number of transactions.
pub proof fn lemma_cluster_sizes_sum_to_total(
    ts: Seq<Transaction>,
    vs: Seq<Vec<i64>>,
    asg: Seq<usize>,
    k: nat,
    d: nat,
    r: Seq<ClusterAnalysis>,
)
    requires
        asg.len() == ts.len(),
        assignment_in_range(asg, k as int),
        describes(ts, vs, asg, k, d, r),
    ensures
        total_size(r) == ts.len(),
{
    lemma_sizes_match(ts, vs, asg, k, d, r, r.len());
    lemma_ids_total(asg, k);
    lemma_cluster_total(asg, k, asg.len());
}

/// The sizes of the summaries that the clustering pipeline returns add up to
/// the number of transactions.
pub proof fn lemma_outcome_sizes_sum_to_total(ts: Seq<Transaction>, k: nat, r: Seq<ClusterAnalysis>)
    requires
        clustering_outcome(ts, k, r),
    ensures
        total_size(r) == ts.len(),
{
    if ts.len() > 0 {
        let (vs, m) = choose|vs: Seq<Vec<i64>>, m: KMeansModel|
            feature_rows(ts, vs) && #[trigger] is_fitted(vs, k as int, m) && describes(
                ts,
                vs,
                m.assignment@,
                k,
                FEATURE_DIM as nat,
                r,
            );
        lemma_cluster_sizes_sum_to_total(ts, vs, m.assignment@, k, FEATURE_DIM as nat, r);
    }
}

/// The same holds when the clustering was fitted to standardised vectors.
pub proof fn lemma_normalized_outcome_sizes_sum_to_total(
    ts: Seq<Transaction>,
    k: nat,
    r: Seq<ClusterAnalysis>,
)
    requires
        normalized_clustering_outcome(ts, k, r),
    ensures
        total_size(r) == ts.len(),
{
    if ts.len() > 0 {
        let (vs, ws, m) = choose|vs: Seq<Vec<i64>>, ws: Seq<Vec<i64>>, m: KMeansModel|
            #![trigger normalized_of(vs, ws), is_fitted(ws, k as int, m)]
            feature_rows(ts, vs) && normalized_of(vs, ws) && is_fitted(ws, k as int, m) && describes(
                ts,
                vs,
                m.assignment@,
                k,
                FEATURE_DIM as nat,
                r,
            );
        lemma_cluster_sizes_sum_to_total(ts, vs, m.assignment@, k, FEATURE_DIM as nat, r);
    }
}

/// Each summary counts no more fraudulent transactions and no more distinct
/// users than it has members.
pub proof fn lemma_summary_counts_bounded(ts: Seq<Transaction>, k: nat, r: Seq<ClusterAnalysis>, t: int)
    requires
        clustering_outcome(ts, k, r),
        0 <= t < r.len(),
    ensures
        r[t].fraud_count <= r[t].size,
        r[t].unique_users <= r[t].size,
        r[t].size > 0,
{
    let (vs, m) = choose|vs: Seq<Vec<i64>>, m: KMeansModel|
        feature_rows(ts, vs) && #[trigger] is_fitted(vs, k as int, m) && describes(
            ts,
            vs,
            m.assignment@,
            k,
            FEATURE_DIM as nat,
            r,
        );
    lemma_ids_nonempty(m.assignment@, k, t);
    assert(summarises(ts, vs, m.assignment@, nonempty_ids(m.assignment@, k)[t], FEATURE_DIM as nat, r[t]));
}

proof fn lemma_ids_nonempty(asg: Seq<usize>, k: nat, t: int)
    requires
        0 <= t < nonempty_ids(asg, k).len(),
    ensures
        member_count(asg, nonempty_ids(asg, k)[t], asg.len()) > 0,
    decreases k,
{
    if k > 0 {
        let prev = nonempty_ids(asg, (k - 1) as nat);
        if t < prev.len() {
            lemma_ids_nonempty(asg, (k - 1) as nat, t);
        }
    }
}

} // verus!
