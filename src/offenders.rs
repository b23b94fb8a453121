use vstd::prelude::*;
use crate::record::{is_fraud, Transaction};

verus! {

/// Per-user totals over the whole data set.
#[derive(Clone, Copy, Debug, PartialEq, Eq)]
pub struct UserFraudStats {
    pub user_id: u32,
    pub fraud_count: usize,
    pub total_count: usize,
}

/// Number of the first `m` transactions made by user `u`.
pub open spec fn user_total(ts: Seq<Transaction>, u: u32, m: nat) -> nat
    decreases m,
{
    if m == 0 {
        0
    } else {
        user_total(ts, u, (m - 1) as nat) + if ts[m - 1].user_id == u {
            1nat
        } else {
            0nat
        }
    }
}

/// Number of the first `m` transactions made by user `u` that are fraudulent.
pub open spec fn user_fraud(ts: Seq<Transaction>, u: u32, m: nat) -> nat
    decreases m,
{
    if m == 0 {
        0
    } else {
        user_fraud(ts, u, (m - 1) as nat) + if ts[m - 1].user_id == u && is_fraud(ts[m - 1]) {
            1nat
        } else {
            0nat
        }
    }
}

/// Some transaction among the first `m` is made by user `u`.
pub open spec fn has_user(ts: Seq<Transaction>, u: u32, m: nat) -> bool {
    exists|i: int| 0 <= i < m && (#[trigger] ts[i]).user_id == u
}

/// `i` is the index of the first transaction of user `u`.
pub open spec fn is_first(ts: Seq<Transaction>, u: u32, i: int) -> bool {
    &&& 0 <= i < ts.len()
    &&& ts[i].user_id == u
    &&& forall|j: int| 0 <= j < i ==> (#[trigger] ts[j]).user_id != u
}

/// Index of the first transaction of user `u`.
pub open spec fn first_of(ts: Seq<Transaction>, u: u32) -> int {
    choose|i: int| is_first(ts, u, i)
}

proof fn lemma_first_of(ts: Seq<Transaction>, u: u32, i: int)
    requires
        is_first(ts, u, i),
    ensures
        first_of(ts, u) == i,
{
    let f = first_of(ts, u);
    assert(is_first(ts, u, f));
    if f < i {
        assert(ts[f].user_id == u);
    } else if f > i {
        assert(ts[i].user_id == u);
    }
}

/// Some entry of `r` is for user `u`.
pub open spec fn listed(r: Seq<UserFraudStats>, u: u32) -> bool {
    exists|t: int| 0 <= t < r.len() && (#[trigger] r[t]).user_id == u
}

/// `r` holds one entry per user of `ts`, each user once, with the user's
/// fraudulent and total transaction counts.
pub open spec fn user_stats_of(ts: Seq<Transaction>, r: Seq<UserFraudStats>) -> bool {
    &&& forall|t: int|
        0 <= t < r.len() ==> {
            let s = #[trigger] r[t];
            &&& has_user(ts, s.user_id, ts.len())
            &&& s.total_count == user_total(ts, s.user_id, ts.len())
            &&& s.fraud_count == user_fraud(ts, s.user_id, ts.len())
        }
    &&& forall|i: int| 0 <= i < ts.len() ==> listed(r, (#[trigger] ts[i]).user_id)
    &&& forall|s: int, t: int|
        0 <= s < t < r.len() ==> first_of(ts, (#[trigger] r[s]).user_id) < first_of(ts, (#[trigger] r[t]).user_id)
}

/// Counts of one user's transactions and fraudulent transactions.
fn count_for_user(transactions: &[Transaction], u: u32) -> (r: (usize, usize))
    ensures
        r.0 == user_fraud(transactions@, u, transactions@.len()),
        r.1 == user_total(transactions@, u, transactions@.len()),
{
    let mut fraud: usize = 0;
    let mut total: usize = 0;
    let mut i: usize = 0;
    while i < transactions.len()
        invariant
            i <= transactions@.len(),
            fraud == user_fraud(transactions@, u, i as nat),
            total == user_total(transactions@, u, i as nat),
            fraud <= total <= i,
        decreases transactions@.len() - i,
    {
        if transactions[i].user_id == u {
            total = total + 1;
            if transactions[i].is_fraudulent() {
                fraud = fraud + 1;
            }
        }
        i = i + 1;
    }
    (fraud, total)
}

/// Fraudulent and total transaction counts of every user, in order of each
/// user's first transaction.
pub fn user_fraud_stats(transactions: &[Transaction]) -> (r: Vec<UserFraudStats>)
    ensures
        user_stats_of(transactions@, r@),
{
    let ghost ts = transactions@;
    let mut r: Vec<UserFraudStats> = Vec::new();
    let mut i: usize = 0;
    while i < transactions.len()
        invariant
            i <= ts.len(),
            ts == transactions@,
            forall|t: int|
                0 <= t < r@.len() ==> {
                    let s = #[trigger] r@[t];
                    &&& has_user(ts, s.user_id, i as nat)
                    &&& s.total_count == user_total(ts, s.user_id, ts.len())
                    &&& s.fraud_count == user_fraud(ts, s.user_id, ts.len())
                },
            forall|q: int| 0 <= q < i ==> listed(r@, (#[trigger] ts[q]).user_id),
            forall|t: int| 0 <= t < r@.len() ==> #[trigger] first_of(ts, r@[t].user_id) < i,
            forall|s: int, t: int|
                0 <= s < t < r@.len() ==> first_of(ts, (#[trigger] r@[s]).user_id) < first_of(ts, (#[trigger] r@[t]).user_id),
        decreases ts.len() - i,
    {
        let u = transactions[i].user_id;
        let mut seen = false;
        let mut t: usize = 0;
        while t < r.len()
            invariant
                t <= r@.len(),
                seen == (exists|w: int| 0 <= w < t && (#[trigger] r@[w]).user_id == u),
            decreases r@.len() - t,
        {
            if r[t].user_id == u {
                seen = true;
            }
            t = t + 1;
        }
        if !seen {
            proof {
                assert forall|j: int| 0 <= j < i implies (#[trigger] ts[j]).user_id != u by {
                    if ts[j].user_id == u {
                        assert(listed(r@, ts[j].user_id));
                    }
                }
                assert(is_first(ts, u, i as int));
                lemma_first_of(ts, u, i as int);
            }
            let (fraud_count, total_count) = count_for_user(transactions, u);
            let ghost before = r@;
            r.push(UserFraudStats { user_id: u, fraud_count, total_count });
            assert forall|q: int| 0 <= q < i + 1 implies listed(r@, (#[trigger] ts[q]).user_id) by {
                if q == i {
                    assert(r@[before.len() as int].user_id == ts[q].user_id);
                } else {
                    let t = choose|t: int| 0 <= t < before.len() && (#[trigger] before[t]).user_id == ts[q].user_id;
                    assert(r@[t] == before[t]);
                }
            }
            assert forall|t: int| 0 <= t < r@.len() implies has_user(ts, (#[trigger] r@[t]).user_id, (i + 1) as nat) by {
                if t < before.len() {
                    assert(r@[t] == before[t]);
                    let w = choose|w: int| 0 <= w < i && (#[trigger] ts[w]).user_id == before[t].user_id;
                    assert(0 <= w < i + 1 && ts[w].user_id == r@[t].user_id);
                } else {
                    assert(ts[i as int].user_id == r@[t].user_id);
                }
            }
        } else {
            assert forall|t: int| 0 <= t < r@.len() implies has_user(ts, (#[trigger] r@[t]).user_id, (i + 1) as nat) by {
                let w = choose|w: int| 0 <= w < i && (#[trigger] ts[w]).user_id == r@[t].user_id;
                assert(0 <= w < i + 1 && ts[w].user_id == r@[t].user_id);
            }
        }
        i = i + 1;
    }
    assert forall|t: int| 0 <= t < r@.len() implies has_user(ts, (#[trigger] r@[t]).user_id, ts.len()) by {
        assert(has_user(ts, r@[t].user_id, i as nat));
    }
    r
}

/// The entries of users with more than one fraudulent transaction, in order.
pub fn repeat_offenders(stats: &Vec<UserFraudStats>) -> (r: Vec<UserFraudStats>)
    ensures
        r@ == stats@.filter(|s: UserFraudStats| s.fraud_count > 1),
{
    let mut r: Vec<UserFraudStats> = Vec::new();
    let mut i: usize = 0;
    while i < stats.len()
        invariant
            i <= stats@.len(),
            r@ == stats@.subrange(0, i as int).filter(|s: UserFraudStats| s.fraud_count > 1),
        decreases stats@.len() - i,
    {
        let s = stats[i];
        proof {
            assert(stats@.subrange(0, i + 1) =~= stats@.subrange(0, i as int).push(s));
            stats@.subrange(0, i as int).lemma_filter_push(s, |s: UserFraudStats| s.fraud_count > 1);
        }
        if s.fraud_count > 1 {
            r.push(s);
        }
        i = i + 1;
    }
    assert(stats@.subrange(0, stats@.len() as int) =~= stats@);
    r
}

proof fn lemma_stats_agree_upto(ts: Seq<Transaction>, r1: Seq<UserFraudStats>, r2: Seq<UserFraudStats>, t: int)
    requires
        user_stats_of(ts, r1),
        user_stats_of(ts, r2),
        0 <= t,
    ensures
        forall|s: int| 0 <= s <= t && s < r1.len() && s < r2.len() ==> #[trigger] r1[s] == r2[s],
        t < r1.len() ==> t < r2.len(),
        t < r2.len() ==> t < r1.len(),
    decreases t,
{
    if t > 0 {
        lemma_stats_agree_upto(ts, r1, r2, t - 1);
    }
    if t < r1.len() {
        let x = r1[t];
        let i = choose|i: int| 0 <= i < ts.len() && (#[trigger] ts[i]).user_id == x.user_id;
        assert(listed(r2, ts[i].user_id));
        let u = choose|w: int| 0 <= w < r2.len() && (#[trigger] r2[w]).user_id == x.user_id;
        if u < t {
            assert(r1[u] == r2[u]);
        }
        assert(t < r2.len());
    }
    if t < r2.len() {
        let y = r2[t];
        let i = choose|i: int| 0 <= i < ts.len() && (#[trigger] ts[i]).user_id == y.user_id;
        assert(listed(r1, ts[i].user_id));
        let v = choose|w: int| 0 <= w < r1.len() && (#[trigger] r1[w]).user_id == y.user_id;
        if v < t {
            assert(r1[v] == r2[v]);
        }
        assert(t < r1.len());
    }
    if t < r1.len() && t < r2.len() {
        let x = r1[t];
        let y = r2[t];
        let i = choose|i: int| 0 <= i < ts.len() && (#[trigger] ts[i]).user_id == x.user_id;
        assert(listed(r2, ts[i].user_id));
        let u = choose|w: int| 0 <= w < r2.len() && (#[trigger] r2[w]).user_id == x.user_id;
        let j = choose|i: int| 0 <= i < ts.len() && (#[trigger] ts[i]).user_id == y.user_id;
        assert(listed(r1, ts[j].user_id));
        let v = choose|w: int| 0 <= w < r1.len() && (#[trigger] r1[w]).user_id == y.user_id;
        if u < t {
            assert(r1[u] == r2[u]);
        }
        if v < t {
            assert(r1[v] == r2[v]);
        }
        assert(x.user_id == y.user_id);
        assert(x == y);
    }
}

/// The per-user statistics are determined by the transactions: two lists
/// that both satisfy `user_stats_of` are equal.
pub proof fn lemma_user_stats_unique(ts: Seq<Transaction>, r1: Seq<UserFraudStats>, r2: Seq<UserFraudStats>)
    requires
        user_stats_of(ts, r1),
        user_stats_of(ts, r2),
    ensures
        r1 == r2,
{
    if r1.len() > 0 {
        lemma_stats_agree_upto(ts, r1, r2, r1.len() - 1);
        lemma_stats_agree_upto(ts, r1, r2, r1.len() as int);
    } else {
        lemma_stats_agree_upto(ts, r1, r2, 0);
    }
    assert(r1 =~= r2);
}

} // verus!
