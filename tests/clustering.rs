use fraud_detection::analysis::{analyze_clusters, ClusterAnalysis};
use fraud_detection::kmeans::KMeansError;
use fraud_detection::record::{Transaction, FEATURE_DIM, FEATURE_SCALE};

fn create_test_transactions() -> Vec<Transaction> {
    vec![
        Transaction {
            user_id: 1,
            transaction_amount: Some(100 * FEATURE_SCALE),
            transaction_type: "Online Purchase".to_string(),
            time_of_transaction: Some(1 * FEATURE_SCALE),
            previous_fraudulent_transactions: Some(0),
            account_age: Some(365),
            number_of_transactions_last_24h: Some(2),
            payment_method: "Credit Card".to_string(),
            fraudulent: Some(0),
        },
        Transaction {
            user_id: 2,
            transaction_amount: Some(1000 * FEATURE_SCALE),
            transaction_type: "Transfer".to_string(),
            time_of_transaction: Some(2 * FEATURE_SCALE),
            previous_fraudulent_transactions: Some(1),
            account_age: Some(30),
            number_of_transactions_last_24h: Some(5),
            payment_method: "Bank Transfer".to_string(),
            fraudulent: Some(1),
        },
        Transaction {
            user_id: 1,
            transaction_amount: Some(50 * FEATURE_SCALE),
            transaction_type: "ATM Withdrawal".to_string(),
            time_of_transaction: Some(3 * FEATURE_SCALE),
            previous_fraudulent_transactions: Some(0),
            account_age: Some(365),
            number_of_transactions_last_24h: Some(3),
            payment_method: "Debit Card".to_string(),
            fraudulent: Some(0),
        },
    ]
}

fn unit(x: i64) -> f64 {
    x as f64 / FEATURE_SCALE as f64
}

#[test]
fn test_transaction_feature_vector() {
    let transaction = create_test_transactions()[0].clone();
    let features = transaction.to_feature_vector();
    assert_eq!(features.len(), 5, "Feature vector should have 5 elements");

    assert_eq!(unit(features[0]), 100.0, "First feature should be transaction amount");
    assert_eq!(unit(features[1]), 1.0, "Second feature should be time of transaction");
    assert_eq!(unit(features[2]), 0.0, "Third feature should be previous fraudulent transactions");
    assert_eq!(unit(features[3]), 365.0, "Fourth feature should be account age");
    assert_eq!(unit(features[4]), 2.0, "Fifth feature should be number of transactions in last 24h");
}

#[test]
fn test_transaction_feature_vector_with_none_values() {
    let mut transaction = create_test_transactions()[0].clone();
    transaction.transaction_amount = None;
    transaction.time_of_transaction = None;
    transaction.previous_fraudulent_transactions = None;
    transaction.account_age = None;
    transaction.number_of_transactions_last_24h = None;

    let features = transaction.to_feature_vector();
    assert_eq!(features.len(), 5, "Feature vector should still have 5 elements");
    assert_eq!(unit(features[0]), 0.0, "None transaction amount should default to 0.0");
    assert_eq!(unit(features[1]), 0.0, "None time should default to 0.0");
    assert_eq!(unit(features[2]), 0.0, "None previous fraud should default to 0.0");
    assert_eq!(unit(features[3]), 0.0, "None account age should default to 0.0");
    assert_eq!(unit(features[4]), 0.0, "None transaction count should default to 0.0");
}

#[test]
fn test_clustering_basic() {
    let transactions = create_test_transactions();
    let n_clusters = 2;
    let result = analyze_clusters(&transactions, n_clusters);

    assert!(result.is_ok(), "Clustering should succeed");
    let clusters = result.unwrap();
    assert!(clusters.len() <= n_clusters, "Should not have more clusters than requested");
    assert!(!clusters.is_empty(), "Should have at least one cluster");
}

#[test]
fn test_cluster_analysis_properties() {
    let transactions = create_test_transactions();
    let n_clusters = 2;
    let clusters = analyze_clusters(&transactions, n_clusters).unwrap();

    for cluster in clusters {
        assert!(cluster.size > 0, "Cluster size should be positive");
        assert!(cluster.fraud_count <= cluster.size, "Fraud count cannot exceed cluster size");
        assert!(cluster.unique_users <= cluster.size, "Unique users cannot exceed cluster size");

        assert_eq!(cluster.avg_features.len(), 5, "Should have 5 average features");
        for feature in cluster.avg_features {
            let value = unit(feature);
            assert!(!value.is_nan(), "Average features should not be NaN");
            assert!(!value.is_infinite(), "Average features should not be infinite");
        }
        assert!(!cluster.most_common_tx_type.is_empty(), "Transaction type should not be empty");
        assert!(!cluster.most_common_payment.is_empty(), "Payment method should not be empty");
    }
}

#[test]
fn test_empty_transactions() {
    let empty_transactions: Vec<Transaction> = vec![];
    let result = analyze_clusters(&empty_transactions, 2);

    assert!(result.is_ok(), "Should handle empty transactions gracefully");
    assert!(result.unwrap().is_empty(), "Should return empty clusters for empty transactions");
}

#[test]
fn test_single_transaction() {
    let single_transaction = vec![create_test_transactions()[0].clone()];
    // More clusters than transactions is a configuration error, never clamped.
    let result = analyze_clusters(&single_transaction, 2);
    assert!(matches!(result, Err(KMeansError::InvalidConfiguration)), "Two clusters need two transactions");

    let result = analyze_clusters(&single_transaction, 1);
    assert!(result.is_ok(), "Should handle single transaction");
    let clusters = result.unwrap();
    assert!(!clusters.is_empty(), "Should create at least one cluster");

    if let Some(cluster) = clusters.first() {
        assert_eq!(cluster.size, 1, "Cluster should contain exactly one transaction");
        assert!(cluster.unique_users == 1, "Should have exactly one unique user");
    }
}

fn total(clusters: &[ClusterAnalysis]) -> usize {
    clusters.iter().map(|c| c.size).sum()
}

#[test]
fn three_records_two_clusters() {
    let transactions = create_test_transactions();
    let clusters = analyze_clusters(&transactions, 2).unwrap();
    assert_eq!(clusters.len(), 2);
    assert!(clusters.iter().all(|c| c.size > 0));
    assert_eq!(total(&clusters), 3);
    // The fraudulent record sits alone, far from the other two.
    let with_fraud: Vec<&ClusterAnalysis> = clusters.iter().filter(|c| c.fraud_count >= 1).collect();
    assert_eq!(with_fraud.len(), 1);
    assert_eq!(with_fraud[0].size, 1);
    assert_eq!(with_fraud[0].avg_features, vec![100_000, 200, 100, 3_000, 500]);
    let other = clusters.iter().find(|c| c.fraud_count == 0).unwrap();
    assert_eq!(other.size, 2);
    assert_eq!(other.unique_users, 1);
    assert_eq!(other.avg_features, vec![7_500, 200, 0, 36_500, 250]);
    // Tie between two types: the one earlier in the fixed enumeration wins.
    assert_eq!(other.most_common_tx_type, "ATM Withdrawal");
    assert_eq!(other.most_common_payment, "Credit Card");
}

#[test]
fn sizes_sum_to_record_count() {
    let mut transactions = create_test_transactions();
    for i in 0..7u32 {
        let mut t = create_test_transactions()[(i % 3) as usize].clone();
        t.user_id = 10 + i;
        t.transaction_amount = Some((i as i64 + 1) * 12_345);
        transactions.push(t);
    }
    for k in 1..=transactions.len() {
        let clusters = analyze_clusters(&transactions, k).unwrap();
        assert_eq!(total(&clusters), transactions.len());
        assert!(clusters.len() <= k);
        for c in &clusters {
            assert!(c.fraud_count <= c.size && c.unique_users <= c.size);
        }
    }
}

#[test]
fn zero_clusters_is_invalid() {
    let transactions = create_test_transactions();
    assert!(matches!(analyze_clusters(&transactions, 0), Err(KMeansError::InvalidConfiguration)));
    assert!(matches!(analyze_clusters(&transactions, 4), Err(KMeansError::InvalidConfiguration)));
}

#[test]
fn mode_prefers_higher_count() {
    let mut transactions = create_test_transactions();
    transactions[1].fraudulent = Some(0);
    transactions[1].transaction_amount = Some(100 * FEATURE_SCALE);
    transactions[1].transaction_type = "Online Purchase".to_string();
    let clusters = analyze_clusters(&transactions, 1).unwrap();
    assert_eq!(clusters.len(), 1);
    assert_eq!(clusters[0].size, 3);
    assert_eq!(clusters[0].unique_users, 2);
    assert_eq!(clusters[0].fraud_count, 0);
    assert_eq!(clusters[0].most_common_tx_type, "Online Purchase");
    assert_eq!(clusters[0].avg_features.len(), FEATURE_DIM);
    // (10000 + 10000 + 5000) / 3 rounded down.
    assert_eq!(clusters[0].avg_features[0], 8_333);
}
