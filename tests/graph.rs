use fraud_detection::kmeans::{fit, KMeansConfig, KMeansError};
use fraud_detection::offenders::{repeat_offenders, user_fraud_stats};
use fraud_detection::pipeline::{analyze_transactions, calculate_metrics, risk_level, AnalysisConfig, RiskLevel};
use fraud_detection::record::{category_index, CategoryKind, Transaction, FEATURE_SCALE};
use fraud_detection::rings::{component_labels, find_rings};
use fraud_detection::similarity::{build_similarity_graph, cosine_similarity, exceeds_threshold, DEFAULT_THRESHOLD};

fn record(user_id: u32, amount: i64, time: i64, prior: u32, age: u32, count: u32, fraud: u32) -> Transaction {
    Transaction {
        user_id,
        transaction_amount: Some(amount * FEATURE_SCALE),
        transaction_type: "POS Payment".to_string(),
        time_of_transaction: Some(time * FEATURE_SCALE),
        previous_fraudulent_transactions: Some(prior),
        account_age: Some(age),
        number_of_transactions_last_24h: Some(count),
        payment_method: "UPI".to_string(),
        fraudulent: Some(fraud),
    }
}

fn three_records() -> Vec<Transaction> {
    vec![
        record(1, 100, 1, 0, 365, 2, 0),
        record(2, 1000, 2, 1, 30, 5, 1),
        record(1, 50, 3, 0, 365, 3, 0),
    ]
}

fn config(k: usize) -> AnalysisConfig {
    AnalysisConfig {
        clustering: KMeansConfig { n_clusters: k, max_iterations: 100, tolerance: 1, seed: 7 },
        similarity_threshold: DEFAULT_THRESHOLD,
        normalize: false,
    }
}

#[test]
fn vectorization_is_deterministic() {
    let t = three_records()[1].clone();
    assert_eq!(t.to_feature_vector(), t.to_feature_vector());
    assert_eq!(t.to_feature_vector(), vec![100_000, 200, 100, 3_000, 500]);
}

#[test]
fn missing_fields_give_zero_vector() {
    let t = Transaction {
        user_id: 9,
        transaction_amount: None,
        transaction_type: String::new(),
        time_of_transaction: None,
        previous_fraudulent_transactions: None,
        account_age: None,
        number_of_transactions_last_24h: None,
        payment_method: String::new(),
        fraudulent: None,
    };
    assert_eq!(t.to_feature_vector(), vec![0, 0, 0, 0, 0]);
    assert!(!t.is_fraudulent());
}

#[test]
fn huge_amount_is_clamped() {
    let mut t = three_records()[0].clone();
    t.transaction_amount = Some(i64::MAX);
    t.time_of_transaction = Some(i64::MIN);
    let v = t.to_feature_vector();
    assert_eq!(v[0], 0x100_0000_0000);
    assert_eq!(v[1], -0x100_0000_0000);
}

#[test]
fn category_positions() {
    assert_eq!(category_index(CategoryKind::TransactionType, &"ATM Withdrawal".to_string()), 0);
    assert_eq!(category_index(CategoryKind::TransactionType, &"POS Payment".to_string()), 4);
    assert_eq!(category_index(CategoryKind::TransactionType, &"Transfer".to_string()), 5);
    assert_eq!(category_index(CategoryKind::PaymentMethod, &"Bank Transfer".to_string()), 0);
    assert_eq!(category_index(CategoryKind::PaymentMethod, &"UPI".to_string()), 4);
}

#[test]
fn cosine_is_symmetric_and_exact() {
    let a = vec![3, 4, 0];
    let b = vec![4, 3, 0];
    let ab = cosine_similarity(&a, &b);
    let ba = cosine_similarity(&b, &a);
    assert_eq!(ab.dot, ba.dot);
    assert_eq!((ab.dot, ab.norm_a, ab.norm_b), (24, 25, 25));
    // 24 / 25 = 0.96
    assert!(exceeds_threshold(&ab, 959));
    assert!(!exceeds_threshold(&ab, 960));
    assert_eq!(exceeds_threshold(&ab, 700), exceeds_threshold(&ba, 700));
}

#[test]
fn self_and_zero_similarity() {
    let a = vec![5, -7, 2];
    let s = cosine_similarity(&a, &a);
    assert_eq!(s.dot, s.norm_a);
    assert_eq!(s.dot * s.dot, s.norm_a * s.norm_b);
    assert!(exceeds_threshold(&s, 999));
    assert!(!exceeds_threshold(&s, 1000));
    let z = vec![0, 0, 0];
    let sz = cosine_similarity(&a, &z);
    assert_eq!(sz.dot, 0);
    assert!(!exceeds_threshold(&sz, 0));
}

#[test]
fn graph_edges_above_threshold() {
    let vs = vec![vec![1, 0], vec![1, 1], vec![0, 1], vec![-1, 0]];
    let g = build_similarity_graph(&vs, DEFAULT_THRESHOLD);
    assert_eq!(g.node_count, 4);
    let pairs: Vec<(usize, usize)> = g.edges.iter().map(|e| (e.a, e.b)).collect();
    // cos 45 degrees = 0.707 > 0.7; cos 90 degrees = 0.
    assert_eq!(pairs, vec![(0, 1), (1, 2)]);
    let labels = component_labels(&g);
    assert_eq!(labels, vec![0, 0, 0, 3]);
}

#[test]
fn rings_density_and_centrality() {
    let vs = vec![vec![1, 0], vec![1, 1], vec![0, 1], vec![-1, 0]];
    let g = build_similarity_graph(&vs, DEFAULT_THRESHOLD);
    let ts = vec![
        record(1, 1, 0, 0, 0, 0, 0),
        record(2, 1, 1, 0, 0, 0, 1),
        record(2, 0, 1, 0, 0, 0, 0),
        record(3, 0, 0, 0, 0, 0, 1),
    ];
    let rings = find_rings(&ts, &g);
    assert_eq!(rings.len(), 2);
    let r = &rings[0];
    assert_eq!(r.root, 0);
    assert_eq!(r.members, vec![0, 1, 2]);
    assert_eq!(r.edge_count, 2);
    assert_eq!((r.density_num, r.density_den), (4, 6));
    assert_eq!((r.centrality_num, r.centrality_den), (4, 6));
    assert_eq!(r.fraud_count, 1);
    assert_eq!(r.unique_users, 2);
    let single = &rings[1];
    assert_eq!(single.members, vec![3]);
    assert_eq!((single.density_num, single.density_den), (0, 1));
    assert_eq!((single.centrality_num, single.centrality_den), (0, 1));
}

#[test]
fn fraud_free_components_are_dropped() {
    let vs = vec![vec![1, 0], vec![0, 1]];
    let g = build_similarity_graph(&vs, DEFAULT_THRESHOLD);
    let ts = vec![record(1, 1, 0, 0, 0, 0, 0), record(2, 0, 1, 0, 0, 0, 1)];
    let rings = find_rings(&ts, &g);
    assert_eq!(rings.len(), 1);
    assert_eq!(rings[0].root, 1);
}

#[test]
fn fit_three_records() {
    let ts = three_records();
    let vs: Vec<Vec<i64>> = ts.iter().map(|t| t.to_feature_vector()).collect();
    let m = fit(&vs, &KMeansConfig { n_clusters: 2, max_iterations: 100, tolerance: 1, seed: 3 }).ok().unwrap();
    assert_eq!(m.assignment.len(), 3);
    assert_eq!(m.centroids.len(), 2);
    assert_eq!(m.assignment[0], m.assignment[2]);
    assert_ne!(m.assignment[0], m.assignment[1]);
    let bad = fit(&vs, &KMeansConfig { n_clusters: 0, max_iterations: 100, tolerance: 1, seed: 3 });
    assert!(matches!(bad, Err(KMeansError::InvalidConfiguration)));
}

#[test]
fn repeat_offenders_need_two_frauds() {
    let ts = vec![
        record(1, 10, 1, 0, 1, 1, 1),
        record(2, 10, 1, 0, 1, 1, 1),
        record(1, 20, 1, 0, 1, 1, 1),
        record(3, 10, 1, 0, 1, 1, 0),
        record(1, 30, 1, 0, 1, 1, 0),
    ];
    let stats = user_fraud_stats(&ts);
    let summary: Vec<(u32, usize, usize)> = stats.iter().map(|s| (s.user_id, s.fraud_count, s.total_count)).collect();
    assert_eq!(summary, vec![(1, 2, 3), (2, 1, 1), (3, 0, 1)]);
    let offenders = repeat_offenders(&stats);
    assert_eq!(offenders.len(), 1);
    assert_eq!(offenders[0].user_id, 1);
}

#[test]
fn pipeline_runs_twice_identically() {
    let ts = three_records();
    let a = analyze_transactions(&ts, &config(2)).ok().unwrap();
    let b = analyze_transactions(&ts, &config(2)).ok().unwrap();
    assert_eq!(a.clusters.len(), b.clusters.len());
    for (x, y) in a.clusters.iter().zip(b.clusters.iter()) {
        assert_eq!(x.cluster_id, y.cluster_id);
        assert_eq!((x.size, x.fraud_count, x.unique_users), (y.size, y.fraud_count, y.unique_users));
        assert_eq!(x.avg_features, y.avg_features);
        assert_eq!(x.most_common_tx_type, y.most_common_tx_type);
        assert_eq!(x.most_common_payment, y.most_common_payment);
    }
    assert_eq!(a.rings.len(), b.rings.len());
    for (x, y) in a.rings.iter().zip(b.rings.iter()) {
        assert_eq!(x.members, y.members);
        assert_eq!((x.density_num, x.density_den), (y.density_num, y.density_den));
    }
    assert_eq!(a.user_stats, b.user_stats);
    assert_eq!(a.repeat_offenders, b.repeat_offenders);
}

#[test]
fn pipeline_on_three_records() {
    let ts = three_records();
    let rep = analyze_transactions(&ts, &config(2)).ok().unwrap();
    assert_eq!(rep.clusters.len(), 2);
    assert_eq!(rep.clusters.iter().map(|c| c.size).sum::<usize>(), 3);
    assert_eq!(rep.rings.len(), 1);
    assert!(rep.rings[0].members.contains(&1));
    assert_eq!(rep.user_stats.len(), 2);
    assert!(rep.repeat_offenders.is_empty());
    let metrics = calculate_metrics(&rep.clusters);
    assert_eq!((metrics.total_transactions, metrics.total_fraud), (3, 1));
}

#[test]
fn pipeline_rejects_bad_k_and_accepts_empty() {
    let ts = three_records();
    assert!(matches!(analyze_transactions(&ts, &config(0)), Err(KMeansError::InvalidConfiguration)));
    assert!(matches!(analyze_transactions(&ts, &config(4)), Err(KMeansError::InvalidConfiguration)));
    let empty = analyze_transactions(&Vec::new(), &config(3)).ok().unwrap();
    assert!(empty.clusters.is_empty() && empty.rings.is_empty() && empty.user_stats.is_empty());
}

#[test]
fn risk_levels() {
    assert_eq!(risk_level(1, 2), RiskLevel::High);
    assert_eq!(risk_level(1, 3), RiskLevel::Medium);
    assert_eq!(risk_level(1, 5), RiskLevel::Medium);
    assert_eq!(risk_level(1, 6), RiskLevel::Low);
    assert_eq!(risk_level(0, 0), RiskLevel::Low);
    assert_eq!(RiskLevel::High.label(), "High Risk");
    assert_eq!(RiskLevel::Low.label(), "Low Risk");
}

#[test]
fn ranking_by_fraud_rate() {
    let base = three_records();
    let mut ts = Vec::new();
    // Users 1 and 2 each get their own cluster by amount; fraud rates 1/3, 1/1, 0/2.
    for (amount, fraud) in [(10, 0), (10, 1), (10, 0), (5000, 1), (90000, 0), (90000, 0)] {
        let mut t = base[0].clone();
        t.transaction_amount = Some(amount * FEATURE_SCALE);
        t.fraudulent = Some(fraud);
        ts.push(t);
    }
    let clusters = fraud_detection::analysis::analyze_clusters(&ts, 3).unwrap();
    assert_eq!(clusters.len(), 3);
    let order = fraud_detection::pipeline::rank_by_fraud_rate(&clusters);
    let rates: Vec<(usize, usize)> = order.iter().map(|&i| (clusters[i].fraud_count, clusters[i].size)).collect();
    assert_eq!(rates, vec![(1, 1), (1, 3), (0, 2)]);
}

#[test]
fn ranking_keeps_ties_in_order() {
    let ts = three_records();
    let clusters = fraud_detection::analysis::analyze_clusters(&ts, 3).unwrap();
    assert_eq!(clusters.len(), 3);
    let order = fraud_detection::pipeline::rank_by_fraud_rate(&clusters);
    let fraud_first = order[0];
    assert_eq!(clusters[fraud_first].fraud_count, 1);
    assert!(order[1] < order[2]);
    assert_eq!(order.len(), 3);
}

#[test]
fn normalization_standardises_columns() {
    let vs = vec![vec![0, 5, 0], vec![2, 5, 10], vec![4, 5, 20], vec![2, 5, 30]];
    let ws = fraud_detection::normalize::normalize_features(&vs);
    // Column 0: mean 2, variance 8 / 4 = 2, standard deviation 1.
    assert_eq!(ws.iter().map(|w| w[0]).collect::<Vec<i64>>(), vec![-200, 0, 200, 0]);
    // Column 1 is constant and stays as it is.
    assert!(ws.iter().all(|w| w[1] == 5));
    // Column 2: mean 15, variance 500 / 4 = 125, standard deviation 11.
    assert_eq!(ws.iter().map(|w| w[2]).collect::<Vec<i64>>(), vec![-137, -46, 45, 136]);
}

#[test]
fn normalization_of_nothing_is_empty() {
    let ws = fraud_detection::normalize::normalize_features(&Vec::new());
    assert!(ws.is_empty());
}

#[test]
fn normalized_pipeline_covers_all_records() {
    let ts = three_records();
    let mut cfg = config(2);
    cfg.normalize = true;
    let rep = analyze_transactions(&ts, &cfg).ok().unwrap();
    assert_eq!(rep.clusters.len(), 2);
    assert_eq!(rep.clusters.iter().map(|c| c.size).sum::<usize>(), 3);
    assert_eq!(rep.clusters.iter().map(|c| c.fraud_count).sum::<usize>(), 1);
    for c in &rep.clusters {
        assert!(c.size > 0 && c.fraud_count <= c.size && c.unique_users <= c.size);
    }
}
