use vstd::prelude::*;
use crate::analysis::{
    analyze_clusters_normalized, analyze_clusters_with, clustering_outcome, normalized_clustering_outcome,
    ClusterAnalysis,
};
use crate::kmeans::{max_points, valid_data, KMeansConfig, KMeansError};
use crate::offenders::{
    lemma_user_stats_unique, repeat_offenders, user_fraud_stats, user_stats_of, UserFraudStats,
};
use crate::record::{feature_rows, feature_vectors, Transaction};
use crate::rings::{
    edges_sorted, edges_valid, find_rings, labels_components, lemma_ring_ratios_in_unit_range, ring_roots,
    rings_of, FraudRingCandidate,
};
use crate::similarity::{build_similarity_graph, graph_edges, Edge, SimilarityGraph, THRESHOLD_SCALE};

verus! {

/// Settings of a full analysis run.
pub struct AnalysisConfig {
    pub clustering: KMeansConfig,
    /// Similarity threshold in thousandths (700 stands for 0.7), at most `THRESHOLD_SCALE`.
    pub similarity_threshold: u16,
    /// Whether the clustering runs on standardised feature vectors.
    pub normalize: bool,
}

/// Everything one analysis run finds.
pub struct FraudReport {
    pub clusters: Vec<ClusterAnalysis>,
    pub rings: Vec<FraudRingCandidate>,
    /// Per-user counts of every user.
    pub user_stats: Vec<UserFraudStats>,
    /// The entries of `user_stats` with more than one fraudulent transaction.
    pub repeat_offenders: Vec<UserFraudStats>,
}

/// `rings` are the fraud-ring candidates of the similarity graph of the
/// transactions' feature vectors at the given threshold.
pub open spec fn ring_outcome(ts: Seq<Transaction>, threshold: int, rings: Seq<FraudRingCandidate>) -> bool {
    exists|vs: Seq<Vec<i64>>, g: SimilarityGraph, l: Seq<usize>|
        #![trigger graph_edges(vs, threshold, g.edges@), labels_components(g.edges@, ts.len(), l)]
        feature_rows(ts, vs) && g.node_count == ts.len() && graph_edges(vs, threshold, g.edges@)
            && labels_components(g.edges@, ts.len(), l) && rings_of(ts, g.edges@, l, rings)
}

/// Every ring candidate that the pipeline reports has density and average
/// degree centrality in `[0, 1]`, both 0 for a single node.
pub proof fn lemma_reported_ratios_in_unit_range(
    ts: Seq<Transaction>,
    threshold: int,
    rings: Seq<FraudRingCandidate>,
    t: int,
)
    requires
        ring_outcome(ts, threshold, rings),
        0 <= t < rings.len(),
    ensures
        0 <= rings[t].density_num <= rings[t].density_den,
        rings[t].density_den > 0,
        0 <= rings[t].centrality_num <= rings[t].centrality_den,
        rings[t].centrality_den > 0,
        rings[t].members@.len() <= 1 ==> rings[t].density_num == 0 && rings[t].centrality_num == 0,
{
    let (vs, g, l) = choose|vs: Seq<Vec<i64>>, g: SimilarityGraph, l: Seq<usize>|
        #![trigger graph_edges(vs, threshold, g.edges@), labels_components(g.edges@, ts.len(), l)]
        feature_rows(ts, vs) && g.node_count == ts.len() && graph_edges(vs, threshold, g.edges@)
            && labels_components(g.edges@, ts.len(), l) && rings_of(ts, g.edges@, l, rings);
    let es = g.edges@;
    assert(edges_valid(es, ts.len())) by {
        assert forall|q: int| 0 <= q < es.len() implies (#[trigger] es[q]).a < es[q].b < ts.len() by {
            assert(es[q].b < vs.len());
        }
    }
    assert(edges_sorted(es));
    let roots = ring_roots(ts, l, ts.len());
    lemma_ring_ratios_in_unit_range(ts, es, l, roots[t], rings[t]);
}

proof fn lemma_edges_agree_upto(vs: Seq<Vec<i64>>, threshold: int, e1: Seq<Edge>, e2: Seq<Edge>, t: int)
    requires
        graph_edges(vs, threshold, e1),
        graph_edges(vs, threshold, e2),
        0 <= t,
    ensures
        forall|s2: int| 0 <= s2 <= t && s2 < e1.len() && s2 < e2.len() ==> #[trigger] e1[s2] == e2[s2],
        t < e1.len() ==> t < e2.len(),
        t < e2.len() ==> t < e1.len(),
    decreases t,
{
    if t > 0 {
        lemma_edges_agree_upto(vs, threshold, e1, e2, t - 1);
    }
    if t < e1.len() {
        let x = e1[t];
        let u = choose|w: int| 0 <= w < e2.len() && (#[trigger] e2[w]).a == x.a && e2[w].b == x.b;
        if u < t {
            assert(e1[u] == e2[u]);
            assert(crate::similarity::pair_before(e1[u].a as int, e1[u].b as int, x.a as int, x.b as int));
        }
        assert(u >= t);
        assert(t < e2.len());
    }
    if t < e2.len() {
        let y = e2[t];
        let v = choose|w: int| 0 <= w < e1.len() && (#[trigger] e1[w]).a == y.a && e1[w].b == y.b;
        if v < t {
            assert(e1[v] == e2[v]);
            assert(crate::similarity::pair_before(e2[v].a as int, e2[v].b as int, y.a as int, y.b as int));
        }
        assert(v >= t);
        assert(t < e1.len());
    }
    if t < e1.len() && t < e2.len() {
        let x = e1[t];
        let y = e2[t];
        let u = choose|w: int| 0 <= w < e2.len() && (#[trigger] e2[w]).a == x.a && e2[w].b == x.b;
        let v = choose|w: int| 0 <= w < e1.len() && (#[trigger] e1[w]).a == y.a && e1[w].b == y.b;
        if u < t {
            assert(e1[u] == e2[u]);
            assert(crate::similarity::pair_before(e1[u].a as int, e1[u].b as int, x.a as int, x.b as int));
        }
        if v < t {
            assert(e1[v] == e2[v]);
            assert(crate::similarity::pair_before(e2[v].a as int, e2[v].b as int, y.a as int, y.b as int));
        }
        if u > t && v > t {
            assert(crate::similarity::pair_before(y.a as int, y.b as int, x.a as int, x.b as int));
            assert(crate::similarity::pair_before(x.a as int, x.b as int, y.a as int, y.b as int));
        }
        assert(x.a == y.a && x.b == y.b);
        assert(x.similarity == y.similarity);
        assert(x == y);
    }
}

/// The edge list of the similarity graph is determined by the vectors and
/// the threshold.
pub proof fn lemma_graph_edges_unique(vs: Seq<Vec<i64>>, threshold: int, e1: Seq<Edge>, e2: Seq<Edge>)
    requires
        graph_edges(vs, threshold, e1),
        graph_edges(vs, threshold, e2),
    ensures
        e1 == e2,
{
    if e1.len() > 0 {
        lemma_edges_agree_upto(vs, threshold, e1, e2, e1.len() - 1);
        lemma_edges_agree_upto(vs, threshold, e1, e2, e1.len() as int);
    } else {
        lemma_edges_agree_upto(vs, threshold, e1, e2, 0);
    }
    assert(e1 =~= e2);
}

/// Two candidates hold the same values.
pub open spec fn same_ring(x: FraudRingCandidate, y: FraudRingCandidate) -> bool {
    &&& x.root == y.root
    &&& x.members@ == y.members@
    &&& x.edge_count == y.edge_count
    &&& x.density_num == y.density_num
    &&& x.density_den == y.density_den
    &&& x.centrality_num == y.centrality_num
    &&& x.centrality_den == y.centrality_den
    &&& x.fraud_count == y.fraud_count
    &&& x.unique_users == y.unique_users
}

proof fn lemma_rows_agree(ts: Seq<Transaction>, v1: Seq<Vec<i64>>, v2: Seq<Vec<i64>>, threshold: int, es: Seq<Edge>)
    requires
        feature_rows(ts, v1),
        feature_rows(ts, v2),
        graph_edges(v2, threshold, es),
    ensures
        graph_edges(v1, threshold, es),
{
    assert forall|i: int| 0 <= i < v1.len() implies #[trigger] v1[i]@ == v2[i]@ by {
        assert(v1[i]@ =~= v2[i]@);
    }
}

/// The ring view of the report is determined by the transactions and the
/// threshold: two runs report the same candidates in the same order.
pub proof fn lemma_rings_determined(
    ts: Seq<Transaction>,
    threshold: int,
    r1: Seq<FraudRingCandidate>,
    r2: Seq<FraudRingCandidate>,
)
    requires
        ring_outcome(ts, threshold, r1),
        ring_outcome(ts, threshold, r2),
    ensures
        r1.len() == r2.len(),
        forall|t: int| 0 <= t < r1.len() ==> same_ring(#[trigger] r1[t], r2[t]),
{
    let (v1, g1, l1) = choose|vs: Seq<Vec<i64>>, g: SimilarityGraph, l: Seq<usize>|
        #![trigger graph_edges(vs, threshold, g.edges@), labels_components(g.edges@, ts.len(), l)]
        feature_rows(ts, vs) && g.node_count == ts.len() && graph_edges(vs, threshold, g.edges@)
            && labels_components(g.edges@, ts.len(), l) && rings_of(ts, g.edges@, l, r1);
    let (v2, g2, l2) = choose|vs: Seq<Vec<i64>>, g: SimilarityGraph, l: Seq<usize>|
        #![trigger graph_edges(vs, threshold, g.edges@), labels_components(g.edges@, ts.len(), l)]
        feature_rows(ts, vs) && g.node_count == ts.len() && graph_edges(vs, threshold, g.edges@)
            && labels_components(g.edges@, ts.len(), l) && rings_of(ts, g.edges@, l, r2);
    lemma_rows_agree(ts, v1, v2, threshold, g2.edges@);
    lemma_graph_edges_unique(v1, threshold, g1.edges@, g2.edges@);
    let es = g1.edges@;
    assert(edges_valid(es, ts.len())) by {
        assert forall|q: int| 0 <= q < es.len() implies (#[trigger] es[q]).a < es[q].b < ts.len() by {
            assert(es[q].b < v1.len());
        }
    }
    crate::rings::lemma_component_labels_unique(es, ts.len(), l1, l2);
    let roots = ring_roots(ts, l1, ts.len());
    assert forall|t: int| 0 <= t < r1.len() implies same_ring(#[trigger] r1[t], r2[t]) by {
        assert(crate::rings::ring_of(ts, es, l1, roots[t], r1[t]));
        assert(crate::rings::ring_of(ts, es, l1, roots[t], r2[t]));
    }
}

/// Two runs on the same transactions and threshold agree on the ring view,
/// the per-user statistics and the repeat offenders. (The clustering view
/// depends on the engine's iteration, which its contract leaves open.)
pub proof fn lemma_repeat_runs_agree(
    ts: Seq<Transaction>,
    threshold: int,
    rings1: Seq<FraudRingCandidate>,
    rings2: Seq<FraudRingCandidate>,
    stats1: Seq<UserFraudStats>,
    stats2: Seq<UserFraudStats>,
    offenders1: Seq<UserFraudStats>,
    offenders2: Seq<UserFraudStats>,
)
    requires
        ring_outcome(ts, threshold, rings1),
        ring_outcome(ts, threshold, rings2),
        user_stats_of(ts, stats1),
        user_stats_of(ts, stats2),
        offenders1 == stats1.filter(|s: UserFraudStats| s.fraud_count > 1),
        offenders2 == stats2.filter(|s: UserFraudStats| s.fraud_count > 1),
    ensures
        rings1.len() == rings2.len(),
        forall|t: int| 0 <= t < rings1.len() ==> same_ring(#[trigger] rings1[t], rings2[t]),
        stats1 == stats2,
        offenders1 == offenders2,
{
    lemma_rings_determined(ts, threshold, rings1, rings2);
    lemma_user_stats_unique(ts, stats1, stats2);
}

/// Runs both analyses and the per-user count over the transactions.
///
/// Fails with `InvalidConfiguration` exactly when there are transactions and
/// the number of clusters is 0 or exceeds their number.
pub fn analyze_transactions(transactions: &[Transaction], config: &AnalysisConfig) -> (r: Result<
    FraudReport,
    KMeansError,
>)
    requires
        transactions@.len() <= max_points(),
        config.similarity_threshold <= THRESHOLD_SCALE,
    ensures
        r is Err <==> (transactions@.len() > 0 && (config.clustering.n_clusters == 0
            || config.clustering.n_clusters > transactions@.len())),
        r is Err ==> r == Err::<FraudReport, KMeansError>(KMeansError::InvalidConfiguration),
        r is Ok ==> {
            let rep = r->Ok_0;
            &&& !config.normalize ==> clustering_outcome(transactions@, config.clustering.n_clusters as nat, rep.clusters@)
            &&& config.normalize ==> normalized_clustering_outcome(transactions@, config.clustering.n_clusters as nat, rep.clusters@)
            &&& ring_outcome(transactions@, config.similarity_threshold as int, rep.rings@)
            &&& user_stats_of(transactions@, rep.user_stats@)
            &&& rep.repeat_offenders@ == rep.user_stats@.filter(|s: UserFraudStats| s.fraud_count > 1)
        },
{
    let outcome = if config.normalize {
        analyze_clusters_normalized(transactions, &config.clustering)
    } else {
        analyze_clusters_with(transactions, &config.clustering)
    };
    let clusters = match outcome {
        Ok(c) => c,
        Err(e) => {
            return Err(e);
        },
    };
    let vectors = feature_vectors(transactions);
    assert(valid_data(vectors@));
    let graph = build_similarity_graph(&vectors, config.similarity_threshold);
    let rings = find_rings(transactions, &graph);
    let user_stats = user_fraud_stats(transactions);
    let offenders = repeat_offenders(&user_stats);
    Ok(FraudReport { clusters, rings, user_stats, repeat_offenders: offenders })
}

/// Risk level of a cluster by its fraud rate.
#[derive(Clone, Copy, Debug, PartialEq, Eq)]
pub enum RiskLevel {
    High,
    Medium,
    Low,
}

/// Fraud rate, as thousandths, from which a cluster is high risk (0.5).
pub const HIGH_FRAUD_RATE: u64 = 500;

/// Fraud rate, as thousandths, from which a cluster is medium risk (0.2).
pub const MEDIUM_FRAUD_RATE: u64 = 200;

/// The fraud rate `fraud / max(size, 1)` is at least `t / 1000`.
pub open spec fn rate_at_least(fraud: int, size: int, t: int) -> bool {
    let s = if size > 0 {
        size
    } else {
        1
    };
    1000 * fraud >= t * s
}

/// The risk level of a group with `fraud_count` fraudulent transactions
/// among `size`: high from a fraud rate of 0.5, medium from 0.2, else low.
pub fn risk_level(fraud_count: usize, size: usize) -> (r: RiskLevel)
    ensures
        r == (if rate_at_least(fraud_count as int, size as int, HIGH_FRAUD_RATE as int) {
            RiskLevel::High
        } else if rate_at_least(fraud_count as int, size as int, MEDIUM_FRAUD_RATE as int) {
            RiskLevel::Medium
        } else {
            RiskLevel::Low
        }),
{
    let s: u128 = if size > 0 {
        size as u128
    } else {
        1
    };
    let f = 1000 * fraud_count as u128;
    let high = 500 * s;
    let medium = 200 * s;
    if f >= high {
        RiskLevel::High
    } else if f >= medium {
        RiskLevel::Medium
    } else {
        RiskLevel::Low
    }
}

impl RiskLevel {
    /// The level's name as shown in reports.
    pub fn label(&self) -> (r: String)
        ensures
            r@ == (match *self {
                RiskLevel::High => "High Risk"@,
                RiskLevel::Medium => "Medium Risk"@,
                RiskLevel::Low => "Low Risk"@,
            }),
    {
        match *self {
            RiskLevel::High => String::from_str("High Risk"),
            RiskLevel::Medium => String::from_str("Medium Risk"),
            RiskLevel::Low => String::from_str("Low Risk"),
        }
    }
}

/// Totals over all clusters; the overall fraud rate is
/// `total_fraud / total_transactions` (0 when there are none).
pub struct ClusterMetrics {
    pub total_transactions: u128,
    pub total_fraud: u128,
}

/// Sum of the fraud counts of the first `m` summaries.
pub open spec fn frauds_upto(r: Seq<ClusterAnalysis>, m: nat) -> int
    decreases m,
{
    if m == 0 {
        0
    } else {
        frauds_upto(r, (m - 1) as nat) + r[m - 1].fraud_count
    }
}

/// Totals of sizes and fraud counts over all clusters.
pub fn calculate_metrics(clusters: &Vec<ClusterAnalysis>) -> (r: ClusterMetrics)
    ensures
        r.total_transactions == crate::analysis::total_size(clusters@),
        r.total_fraud == frauds_upto(clusters@, clusters@.len()),
{
    let mut total: u128 = 0;
    let mut fraud: u128 = 0;
    let mut i: usize = 0;
    while i < clusters.len()
        invariant
            i <= clusters@.len(),
            total == crate::analysis::sizes_upto(clusters@, i as nat),
            fraud == frauds_upto(clusters@, i as nat),
            total <= i * 0x1_0000_0000_0000_0000,
            fraud <= i * 0x1_0000_0000_0000_0000,
        decreases clusters@.len() - i,
    {
        proof {
            assert(i * 0x1_0000_0000_0000_0000 <= 0xffff_ffff_ffff_ffff * 0x1_0000_0000_0000_0000) by (nonlinear_arith)
                requires
                    i <= 0xffff_ffff_ffff_ffff,
            ;
        }
        total = total + clusters[i].size as u128;
        fraud = fraud + clusters[i].fraud_count as u128;
        i = i + 1;
    }
    ClusterMetrics { total_transactions: total, total_fraud: fraud }
}

/// Cluster `x` of `cs` ranks before cluster `y`: its fraud rate
/// `fraud_count / max(size, 1)` is higher, or equal with a lower index.
pub open spec fn ranks_before(cs: Seq<ClusterAnalysis>, x: int, y: int) -> bool {
    let dx = if cs[x].size > 0 {
        cs[x].size as int
    } else {
        1
    };
    let dy = if cs[y].size > 0 {
        cs[y].size as int
    } else {
        1
    };
    let lhs = cs[x].fraud_count as int * dy;
    let rhs = cs[y].fraud_count as int * dx;
    lhs > rhs || (lhs == rhs && x < y)
}

proof fn lemma_ranks_before_transitive(cs: Seq<ClusterAnalysis>, x: int, y: int, z: int)
    requires
        ranks_before(cs, x, y),
        ranks_before(cs, y, z),
    ensures
        ranks_before(cs, x, z),
{
    let d = |i: int| if cs[i].size > 0 {
        cs[i].size as int
    } else {
        1
    };
    let (fx, fy, fz) = (cs[x].fraud_count as int, cs[y].fraud_count as int, cs[z].fraud_count as int);
    let (dx, dy, dz) = (d(x), d(y), d(z));
    assert(fx * dz >= fz * dx && (fx * dz == fz * dx ==> fx * dy == fy * dx && fy * dz == fz * dy))
        by (nonlinear_arith)
        requires
            dx > 0,
            dy > 0,
            dz > 0,
            fx * dy >= fy * dx,
            fy * dz >= fz * dy,
    ;
}

/// The order in which to report the clusters: by fraud rate, highest first,
/// equal rates in order of index. Holds each index of `clusters` once.
pub fn rank_by_fraud_rate(clusters: &Vec<ClusterAnalysis>) -> (r: Vec<usize>)
    ensures
        r@.len() == clusters@.len(),
        forall|t: int| 0 <= t < r@.len() ==> #[trigger] r@[t] < clusters@.len(),
        forall|s: int, t: int|
            0 <= s < t < r@.len() ==> ranks_before(clusters@, #[trigger] r@[s] as int, #[trigger] r@[t] as int),
{
    let ghost cs = clusters@;
    let mut r: Vec<usize> = Vec::new();
    let mut i: usize = 0;
    while i < clusters.len()
        invariant
            i <= cs.len(),
            cs == clusters@,
            r@.len() == i,
            forall|t: int| 0 <= t < r@.len() ==> #[trigger] r@[t] < i,
            forall|s: int, t: int|
                0 <= s < t < r@.len() ==> ranks_before(cs, #[trigger] r@[s] as int, #[trigger] r@[t] as int),
        decreases cs.len() - i,
    {
        let fi = clusters[i].fraud_count as u128;
        let di: u128 = if clusters[i].size > 0 {
            clusters[i].size as u128
        } else {
            1
        };
        let mut p: usize = 0;
        let mut found = false;
        while p < r.len() && !found
            invariant
                p <= r@.len(),
                r@.len() == i,
                i < cs.len(),
                cs == clusters@,
                fi == cs[i as int].fraud_count,
                di == (if cs[i as int].size > 0 {
                    cs[i as int].size as int
                } else {
                    1
                }),
                forall|t: int| 0 <= t < r@.len() ==> #[trigger] r@[t] < i,
                forall|q: int| 0 <= q < p ==> ranks_before(cs, #[trigger] r@[q] as int, i as int),
                found ==> p < r@.len() && ranks_before(cs, i as int, r@[p as int] as int),
            decreases r@.len() - p + if found {
                0int
            } else {
                1int
            },
        {
            let j = r[p];
            assert(r@[p as int] == j);
            let fj = clusters[j].fraud_count as u128;
            let dj: u128 = if clusters[j].size > 0 {
                clusters[j].size as u128
            } else {
                1
            };
            proof {
                assert(fj * di <= 0xffff_ffff_ffff_ffff * 0xffff_ffff_ffff_ffff) by (nonlinear_arith)
                    requires
                        fj <= 0xffff_ffff_ffff_ffff,
                        di <= 0xffff_ffff_ffff_ffff,
                ;
                assert(fi * dj <= 0xffff_ffff_ffff_ffff * 0xffff_ffff_ffff_ffff) by (nonlinear_arith)
                    requires
                        fi <= 0xffff_ffff_ffff_ffff,
                        dj <= 0xffff_ffff_ffff_ffff,
                ;
            }
            if fj * di >= fi * dj {
                p = p + 1;
            } else {
                found = true;
            }
        }
        let ghost before = r@;
        r.insert(p, i);
        assert forall|s: int, t: int|
            0 <= s < t < r@.len() implies ranks_before(cs, #[trigger] r@[s] as int, #[trigger] r@[t] as int) by {
            if t < p {
                assert(r@[s] == before[s] && r@[t] == before[t]);
            } else if t == p {
                assert(r@[s] == before[s]);
            } else if s == p {
                assert(r@[t] == before[t - 1]);
                if t - 1 > p {
                    lemma_ranks_before_transitive(cs, i as int, before[p as int] as int, before[t - 1] as int);
                }
            } else if s < p {
                assert(r@[s] == before[s] && r@[t] == before[t - 1]);
            } else {
                assert(r@[s] == before[s - 1] && r@[t] == before[t - 1]);
            }
        }
        i = i + 1;
    }
    r
}

} // verus!
