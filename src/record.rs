use vstd::prelude::*;

verus! {

/// Number of fixed-point units per whole unit in every feature value:
/// an amount of 12.34 is held as 1234.
pub const FEATURE_SCALE: i64 = 100;

/// Largest magnitude of a feature value; larger inputs are clamped to it.
pub const FEATURE_BOUND: i64 = 0x100_0000_0000;

/// Number of features in a vector.
pub const FEATURE_DIM: usize = 5;

pub open spec fn feature_bound() -> int {
    0x100_0000_0000
}

/// A transaction record as loaded from the data set.
///
/// Monetary amounts and times of day are fixed-point values in hundredths
/// (`FEATURE_SCALE` units per whole unit); a loader maps a missing or
/// non-finite value to `None`.
#[derive(Clone, Debug)]
pub struct Transaction {
    pub user_id: u32,
    pub transaction_amount: Option<i64>,
    pub transaction_type: String,
    pub time_of_transaction: Option<i64>,
    pub previous_fraudulent_transactions: Option<u32>,
    pub account_age: Option<u32>,
    pub number_of_transactions_last_24h: Option<u32>,
    pub payment_method: String,
    pub fraudulent: Option<u32>,
}

pub open spec fn clamp_feature(x: int) -> int {
    if x > feature_bound() {
        feature_bound()
    } else if x < -feature_bound() {
        -feature_bound()
    } else {
        x
    }
}

/// Feature value of an optional fixed-point field: 0 when absent.
pub open spec fn fixed_feature(a: Option<i64>) -> int {
    match a {
        Some(v) => clamp_feature(v as int),
        None => 0,
    }
}

/// Feature value of an optional count: the count in fixed-point units, 0 when absent.
pub open spec fn count_feature(c: Option<u32>) -> int {
    match c {
        Some(v) => v * 100,
        None => 0,
    }
}

/// The feature vector of a transaction: amount, time of day, prior fraud
/// count, account age and number of transactions in the last 24 hours.
pub open spec fn features_of(t: Transaction) -> Seq<int> {
    seq![
        fixed_feature(t.transaction_amount),
        fixed_feature(t.time_of_transaction),
        count_feature(t.previous_fraudulent_transactions),
        count_feature(t.account_age),
        count_feature(t.number_of_transactions_last_24h),
    ]
}

/// Every component of `v` lies within the feature bound.
pub open spec fn bounded(v: Seq<i64>) -> bool {
    forall|j: int| 0 <= j < v.len() ==> -feature_bound() <= #[trigger] v[j] <= feature_bound()
}

/// `v` holds exactly the integers of `s`.
pub open spec fn holds_ints(v: Seq<i64>, s: Seq<int>) -> bool {
    &&& v.len() == s.len()
    &&& forall|j: int| 0 <= j < v.len() ==> #[trigger] v[j] as int == s[j]
}

/// The transaction is labelled fraudulent.
pub open spec fn is_fraud(t: Transaction) -> bool {
    t.fraudulent == Some(1u32)
}

fn fixed_to_feature(a: Option<i64>) -> (r: i64)
    ensures
        r as int == fixed_feature(a),
{
    match a {
        Some(v) => {
            if v > FEATURE_BOUND {
                FEATURE_BOUND
            } else if v < -FEATURE_BOUND {
                -FEATURE_BOUND
            } else {
                v
            }
        },
        None => 0,
    }
}

fn count_to_feature(c: Option<u32>) -> (r: i64)
    ensures
        r as int == count_feature(c),
{
    match c {
        Some(v) => v as i64 * FEATURE_SCALE,
        None => 0,
    }
}

impl Transaction {
    /// The transaction's feature vector, of length `FEATURE_DIM`; a missing
    /// field contributes 0.
    pub fn to_feature_vector(&self) -> (r: Vec<i64>)
        ensures
            holds_ints(r@, features_of(*self)),
            r@.len() == FEATURE_DIM,
            bounded(r@),
    {
        let r = vec![
            fixed_to_feature(self.transaction_amount),
            fixed_to_feature(self.time_of_transaction),
            count_to_feature(self.previous_fraudulent_transactions),
            count_to_feature(self.account_age),
            count_to_feature(self.number_of_transactions_last_24h),
        ];
        assert(holds_ints(r@, features_of(*self)));
        r
    }

    /// Whether the transaction is labelled fraudulent.
    pub fn is_fraudulent(&self) -> (r: bool)
        ensures
            r == is_fraud(*self),
    {
        match self.fraudulent {
            Some(f) => f == 1,
            None => false,
        }
    }
}

/// `vs` holds the feature vector of each transaction of `ts`, in order.
pub open spec fn feature_rows(ts: Seq<Transaction>, vs: Seq<Vec<i64>>) -> bool {
    &&& vs.len() == ts.len()
    &&& forall|i: int| 0 <= i < vs.len() ==> holds_ints(#[trigger] vs[i]@, features_of(ts[i]))
}

/// The feature vectors of all transactions, in order.
pub fn feature_vectors(transactions: &[Transaction]) -> (r: Vec<Vec<i64>>)
    ensures
        feature_rows(transactions@, r@),
        r@.len() == transactions@.len(),
        forall|i: int|
            0 <= i < r@.len() ==> holds_ints(#[trigger] r@[i]@, features_of(transactions@[i]))
                && r@[i]@.len() == FEATURE_DIM && bounded(r@[i]@),
{
    let mut r: Vec<Vec<i64>> = Vec::new();
    let mut i: usize = 0;
    while i < transactions.len()
        invariant
            i <= transactions@.len(),
            r@.len() == i,
            forall|q: int|
                0 <= q < i ==> holds_ints(#[trigger] r@[q]@, features_of(transactions@[q]))
                    && r@[q]@.len() == FEATURE_DIM && bounded(r@[q]@),
        decreases transactions@.len() - i,
    {
        r.push(transactions[i].to_feature_vector());
        i = i + 1;
    }
    r
}

/// The categorical fields of a transaction.
#[derive(Clone, Copy, Debug, PartialEq, Eq)]
pub enum CategoryKind {
    TransactionType,
    PaymentMethod,
}

/// Number of named categories of each kind; an unrecognised value takes
/// this index.
pub const UNKNOWN_CATEGORY: usize = 5;

/// Position of a value in the fixed enumeration of its kind:
/// transaction types "ATM Withdrawal", "Bank Transfer", "Bill Payment",
/// "Online Purchase", "POS Payment"; payment methods "Bank Transfer",
/// "Credit Card", "Debit Card", "Net Banking", "UPI"; any other value
/// takes `UNKNOWN_CATEGORY`.
pub open spec fn category_rank(kind: CategoryKind, s: Seq<char>) -> nat {
    match kind {
        CategoryKind::TransactionType => {
            if s == "ATM Withdrawal"@ {
                0
            } else if s == "Bank Transfer"@ {
                1
            } else if s == "Bill Payment"@ {
                2
            } else if s == "Online Purchase"@ {
                3
            } else if s == "POS Payment"@ {
                4
            } else {
                5
            }
        },
        CategoryKind::PaymentMethod => {
            if s == "Bank Transfer"@ {
                0
            } else if s == "Credit Card"@ {
                1
            } else if s == "Debit Card"@ {
                2
            } else if s == "Net Banking"@ {
                3
            } else if s == "UPI"@ {
                4
            } else {
                5
            }
        },
    }
}

fn is_named(s: &String, name: &str) -> (r: bool)
    ensures
        r == (s@ == name@),
{
    let n = String::from_str(name);
    *s == n
}

/// Position of `s` in the fixed enumeration of `kind`.
pub fn category_index(kind: CategoryKind, s: &String) -> (r: usize)
    ensures
        r == category_rank(kind, s@),
        r <= UNKNOWN_CATEGORY,
{
    match kind {
        CategoryKind::TransactionType => {
            if is_named(s, "ATM Withdrawal") {
                0
            } else if is_named(s, "Bank Transfer") {
                1
            } else if is_named(s, "Bill Payment") {
                2
            } else if is_named(s, "Online Purchase") {
                3
            } else if is_named(s, "POS Payment") {
                4
            } else {
                5
            }
        },
        CategoryKind::PaymentMethod => {
            if is_named(s, "Bank Transfer") {
                0
            } else if is_named(s, "Credit Card") {
                1
            } else if is_named(s, "Debit Card") {
                2
            } else if is_named(s, "Net Banking") {
                3
            } else if is_named(s, "UPI") {
                4
            } else {
                5
            }
        },
    }
}

/// The value of the categorical field `kind` of a transaction.
pub open spec fn category_of(kind: CategoryKind, t: Transaction) -> Seq<char> {
    match kind {
        CategoryKind::TransactionType => t.transaction_type@,
        CategoryKind::PaymentMethod => t.payment_method@,
    }
}

/// Vectorization is deterministic and of fixed length: two vectors computed
/// from one record are equal and have `FEATURE_DIM` entries.
pub proof fn lemma_vectorization_deterministic(t: Transaction, v1: Seq<i64>, v2: Seq<i64>)
    requires
        holds_ints(v1, features_of(t)),
        holds_ints(v2, features_of(t)),
    ensures
        v1 == v2,
        v1.len() == FEATURE_DIM,
{
    assert(v1 =~= v2);
}

/// A record whose optional numeric fields are all absent has the zero
/// vector; each absent field alone gives 0 in its own slot.
pub proof fn lemma_missing_fields_zero(t: Transaction)
    ensures
        t.transaction_amount is None ==> features_of(t)[0] == 0,
        t.time_of_transaction is None ==> features_of(t)[1] == 0,
        t.previous_fraudulent_transactions is None ==> features_of(t)[2] == 0,
        t.account_age is None ==> features_of(t)[3] == 0,
        t.number_of_transactions_last_24h is None ==> features_of(t)[4] == 0,
        (t.transaction_amount is None && t.time_of_transaction is None
            && t.previous_fraudulent_transactions is None && t.account_age is None
            && t.number_of_transactions_last_24h is None) ==> features_of(t) =~= seq![0int, 0, 0, 0, 0],
{
}

} // verus!
