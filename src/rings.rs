use vstd::prelude::*;
use crate::analysis::{fraud_in, member_stats, users_in};
use crate::kmeans::member_count;
use crate::record::Transaction;
use crate::similarity::{Edge, SimilarityGraph};

verus! {

/// Every edge joins two distinct nodes below `n`, the lower one first.
pub open spec fn edges_valid(es: Seq<Edge>, n: nat) -> bool {
    forall|t: int| 0 <= t < es.len() ==> (#[trigger] es[t]).a < es[t].b < n
}

/// An edge of `es` joins `x` and `y`.
pub open spec fn adjacent(es: Seq<Edge>, x: int, y: int) -> bool {
    exists|t: int|
        0 <= t < es.len() && ((#[trigger] es[t].a == x && es[t].b == y) || (es[t].a == y && es[t].b
            == x))
}

/// `p` is a walk along the edges of `es`.
pub open spec fn is_walk(es: Seq<Edge>, p: Seq<int>) -> bool {
    &&& p.len() >= 1
    &&& forall|t: int| 0 <= t < p.len() - 1 ==> adjacent(es, #[trigger] p[t], p[t + 1])
}

/// Some walk leads from `x` to `y`.
pub open spec fn connected(es: Seq<Edge>, x: int, y: int) -> bool {
    exists|p: Seq<int>| #[trigger] is_walk(es, p) && p[0] == x && p.last() == y
}

/// `l` labels each of the `n` nodes with a node of at most its index that it
/// is connected to, and every edge joins nodes with equal labels.
pub open spec fn labels_components(es: Seq<Edge>, n: nat, l: Seq<usize>) -> bool {
    &&& l.len() == n
    &&& forall|i: int| 0 <= i < n ==> #[trigger] l[i] <= i && connected(es, l[i] as int, i)
    &&& forall|t: int|
        0 <= t < es.len() ==> l[(#[trigger] es[t]).a as int] == l[es[t].b as int]
}

/// Sum of the first `m` labels.
pub open spec fn label_sum(l: Seq<usize>, m: nat) -> int
    decreases m,
{
    if m == 0 {
        0
    } else {
        label_sum(l, (m - 1) as nat) + l[m - 1]
    }
}

proof fn lemma_label_sum_update(l: Seq<usize>, i: int, v: usize, m: nat)
    requires
        0 <= i < l.len(),
        m <= l.len(),
    ensures
        label_sum(l.update(i, v), m) == label_sum(l, m) + if i < m {
            v - l[i]
        } else {
            0
        },
    decreases m,
{
    if m > 0 {
        lemma_label_sum_update(l, i, v, (m - 1) as nat);
    }
}

proof fn lemma_label_sum_nonneg(l: Seq<usize>, m: nat)
    requires
        m <= l.len(),
    ensures
        label_sum(l, m) >= 0,
    decreases m,
{
    if m > 0 {
        lemma_label_sum_nonneg(l, (m - 1) as nat);
    }
}

proof fn lemma_walk_extend(es: Seq<Edge>, x: int, y: int, z: int)
    requires
        connected(es, x, y),
        adjacent(es, y, z),
    ensures
        connected(es, x, z),
{
    let p = choose|p: Seq<int>| #[trigger] is_walk(es, p) && p[0] == x && p.last() == y;
    let q = p.push(z);
    assert forall|t: int| 0 <= t < q.len() - 1 implies adjacent(es, #[trigger] q[t], q[t + 1]) by {
        if t < p.len() - 1 {
            assert(q[t] == p[t] && q[t + 1] == p[t + 1]);
        } else {
            assert(q[t] == y && q[t + 1] == z);
        }
    }
    assert(is_walk(es, q));
}

proof fn lemma_connected_self(es: Seq<Edge>, x: int)
    ensures
        connected(es, x, x),
{
    let p = seq![x];
    assert(is_walk(es, p));
}

/// Labels the connected components of the graph: afterwards every node
/// carries the label of the lowest-indexed node of its component.
pub fn component_labels(graph: &SimilarityGraph) -> (r: Vec<usize>)
    requires
        edges_valid(graph.edges@, graph.node_count as nat),
    ensures
        labels_components(graph.edges@, graph.node_count as nat, r@),
{
    let n = graph.node_count;
    let ghost es = graph.edges@;
    let mut labels: Vec<usize> = Vec::new();
    let mut i: usize = 0;
    while i < n
        invariant
            i <= n,
            labels@.len() == i,
            forall|q: int| 0 <= q < i ==> #[trigger] labels@[q] == q,
        decreases n - i,
    {
        labels.push(i);
        i = i + 1;
    }
    proof {
        assert forall|q: int| 0 <= q < n implies #[trigger] labels@[q] <= q && connected(
            es,
            labels@[q] as int,
            q,
        ) by {
            lemma_connected_self(es, q);
        }
        lemma_label_sum_nonneg(labels@, n as nat);
    }
    loop
        invariant
            es == graph.edges@,
            edges_valid(es, n as nat),
            labels@.len() == n,
            forall|q: int| 0 <= q < n ==> #[trigger] labels@[q] <= q && connected(es, labels@[q] as int, q),
        ensures
            labels@.len() == n,
            forall|q: int| 0 <= q < n ==> #[trigger] labels@[q] <= q && connected(es, labels@[q] as int, q),
            forall|s: int|
                0 <= s < es.len() ==> labels@[(#[trigger] es[s]).a as int] == labels@[es[s].b as int],
        decreases label_sum(labels@, n as nat),
    {
        let ghost start = labels@;
        proof {
            lemma_label_sum_nonneg(labels@, n as nat);
        }
        let mut changed = false;
        let mut t: usize = 0;
        while t < graph.edges.len()
            invariant
                es == graph.edges@,
                edges_valid(es, n as nat),
                t <= es.len(),
                labels@.len() == n,
                forall|q: int| 0 <= q < n ==> #[trigger] labels@[q] <= q && connected(es, labels@[q] as int, q),
                !changed ==> labels@ == start,
                !changed ==> forall|s: int|
                    0 <= s < t ==> labels@[(#[trigger] es[s]).a as int] == labels@[es[s].b as int],
                changed ==> label_sum(labels@, n as nat) < label_sum(start, n as nat),
            decreases es.len() - t,
        {
            let e = graph.edges[t];
            assert(es[t as int] == e);
            let la = labels[e.a];
            let lb = labels[e.b];
            if la < lb {
                proof {
                    lemma_label_sum_update(labels@, e.b as int, la, n as nat);
                    assert(adjacent(es, e.a as int, e.b as int));
                    lemma_walk_extend(es, la as int, e.a as int, e.b as int);
                }
                labels.set(e.b, la);
                changed = true;
            } else if lb < la {
                proof {
                    lemma_label_sum_update(labels@, e.a as int, lb, n as nat);
                    assert(adjacent(es, e.b as int, e.a as int));
                    lemma_walk_extend(es, lb as int, e.b as int, e.a as int);
                }
                labels.set(e.a, lb);
                changed = true;
            }
            t = t + 1;
        }
        if !changed {
            break;
        }
        proof {
            lemma_label_sum_nonneg(labels@, n as nat);
        }
    }
    labels
}

proof fn lemma_walk_same_label(es: Seq<Edge>, n: nat, l: Seq<usize>, p: Seq<int>, t: int)
    requires
        labels_components(es, n, l),
        edges_valid(es, n),
        is_walk(es, p),
        0 <= p[0] < n,
        0 <= t < p.len(),
    ensures
        0 <= p[t] < n,
        l[p[t]] == l[p[0]],
    decreases t,
{
    if t > 0 {
        lemma_walk_same_label(es, n, l, p, t - 1);
        assert(adjacent(es, p[t - 1], p[t]));
        let e = choose|e: int|
            0 <= e < es.len() && ((#[trigger] es[e].a == p[t - 1] && es[e].b == p[t]) || (es[e].a
                == p[t] && es[e].b == p[t - 1]));
        assert(l[es[e].a as int] == l[es[e].b as int]);
    }
}

/// Labels that satisfy `labels_components` identify the connected
/// components exactly: nodes that a walk joins carry equal labels.
pub proof fn lemma_connected_same_label(es: Seq<Edge>, n: nat, l: Seq<usize>, x: int, y: int)
    requires
        labels_components(es, n, l),
        edges_valid(es, n),
        0 <= x < n,
        connected(es, x, y),
    ensures
        0 <= y < n,
        l[x] == l[y],
{
    let p = choose|p: Seq<int>| #[trigger] is_walk(es, p) && p[0] == x && p.last() == y;
    lemma_walk_same_label(es, n, l, p, p.len() - 1);
}

/// Number of the first `m` edges whose first endpoint is labelled `r`.
pub open spec fn edges_within(es: Seq<Edge>, l: Seq<usize>, r: int, m: nat) -> nat
    decreases m,
{
    if m == 0 {
        0
    } else {
        edges_within(es, l, r, (m - 1) as nat) + if l[es[m - 1].a as int] == r {
            1nat
        } else {
            0nat
        }
    }
}

/// Sum over the nodes labelled `r` of their degree in the first `m` edges.
pub open spec fn degree_total(es: Seq<Edge>, l: Seq<usize>, r: int, m: nat) -> nat
    decreases m,
{
    if m == 0 {
        0
    } else {
        degree_total(es, l, r, (m - 1) as nat) + (if l[es[m - 1].a as int] == r {
            1nat
        } else {
            0nat
        }) + (if l[es[m - 1].b as int] == r {
            1nat
        } else {
            0nat
        })
    }
}

/// The nodes among the first `m` labelled `r`, in increasing order.
pub open spec fn members_upto(l: Seq<usize>, r: int, m: nat) -> Seq<usize>
    decreases m,
{
    if m == 0 {
        Seq::empty()
    } else if l[m - 1] == r {
        members_upto(l, r, (m - 1) as nat).push((m - 1) as usize)
    } else {
        members_upto(l, r, (m - 1) as nat)
    }
}

/// A connected component that holds a fraudulent transaction.
///
/// Density is `density_num / density_den`: the component's edges over the
/// `size * (size - 1) / 2` possible ones. Average degree centrality is
/// `centrality_num / centrality_den`: the mean degree of the members over
/// `size - 1`. Both are 0 (as `0 / 1`) for a single node.
pub struct FraudRingCandidate {
    /// The lowest-indexed member, which names the component.
    pub root: usize,
    pub members: Vec<usize>,
    pub edge_count: usize,
    pub density_num: u128,
    pub density_den: u128,
    pub centrality_num: u128,
    pub centrality_den: u128,
    pub fraud_count: usize,
    pub unique_users: usize,
}

/// `c` describes the component of the node `root` under the labels `l`.
pub open spec fn ring_of(ts: Seq<Transaction>, es: Seq<Edge>, l: Seq<usize>, root: int, c: FraudRingCandidate) -> bool {
    let n = ts.len();
    let size = member_count(l, root, n);
    let edges = edges_within(es, l, root, es.len());
    let degrees = degree_total(es, l, root, es.len());
    &&& c.root == root
    &&& c.members@ == members_upto(l, root, n)
    &&& c.edge_count == edges
    &&& c.fraud_count == fraud_in(ts, l, root, n)
    &&& c.unique_users == users_in(ts, l, root, n).len()
    &&& size <= 1 ==> c.density_num == 0 && c.density_den == 1 && c.centrality_num == 0
        && c.centrality_den == 1
    &&& size > 1 ==> c.density_num == 2 * edges && c.density_den == size * (size - 1)
        && c.centrality_num == degrees && c.centrality_den == size * (size - 1)
}

/// The roots among the first `m` nodes whose component holds a fraudulent transaction.
pub open spec fn ring_roots(ts: Seq<Transaction>, l: Seq<usize>, m: nat) -> Seq<int>
    decreases m,
{
    if m == 0 {
        Seq::empty()
    } else if l[m - 1] == m - 1 && fraud_in(ts, l, m - 1, ts.len()) > 0 {
        ring_roots(ts, l, (m - 1) as nat).push(m - 1)
    } else {
        ring_roots(ts, l, (m - 1) as nat)
    }
}

/// `r` holds one candidate per component with a fraudulent transaction, in
/// order of root.
pub open spec fn rings_of(ts: Seq<Transaction>, es: Seq<Edge>, l: Seq<usize>, r: Seq<FraudRingCandidate>) -> bool {
    let roots = ring_roots(ts, l, ts.len());
    &&& r.len() == roots.len()
    &&& forall|t: int| 0 <= t < r.len() ==> ring_of(ts, es, l, roots[t], #[trigger] r[t])
}

/// The component of `root` as a candidate.
fn ring_candidate(
    transactions: &[Transaction],
    graph: &SimilarityGraph,
    labels: &Vec<usize>,
    root: usize,
) -> (r: FraudRingCandidate)
    requires
        labels@.len() == transactions@.len(),
        edges_valid(graph.edges@, labels@.len()),
    ensures
        ring_of(transactions@, graph.edges@, labels@, root as int, r),
{
    let (size, fraud_count, unique_users) = member_stats(transactions, labels, root);
    let mut members: Vec<usize> = Vec::new();
    let mut i: usize = 0;
    while i < labels.len()
        invariant
            i <= labels@.len(),
            members@ == members_upto(labels@, root as int, i as nat),
        decreases labels@.len() - i,
    {
        if labels[i] == root {
            members.push(i);
        }
        i = i + 1;
    }
    let ghost es = graph.edges@;
    let mut edge_count: usize = 0;
    let mut degrees: u128 = 0;
    let mut t: usize = 0;
    while t < graph.edges.len()
        invariant
            es == graph.edges@,
            edges_valid(es, labels@.len()),
            t <= es.len(),
            edge_count == edges_within(es, labels@, root as int, t as nat),
            degrees == degree_total(es, labels@, root as int, t as nat),
            edge_count <= t,
            degrees <= 2 * t,
        decreases es.len() - t,
    {
        let e = graph.edges[t];
        if labels[e.a] == root {
            edge_count = edge_count + 1;
            degrees = degrees + 1;
        }
        if labels[e.b] == root {
            degrees = degrees + 1;
        }
        t = t + 1;
    }
    let (density_num, density_den, centrality_num, centrality_den) = if size <= 1 {
        (0u128, 1u128, 0u128, 1u128)
    } else {
        let s = size as u128;
        proof {
            assert(s * (s - 1) < s * s) by (nonlinear_arith)
                requires
                    s > 1,
            ;
            assert(s * s <= 0xffff_ffff_ffff_ffff * 0xffff_ffff_ffff_ffff) by (nonlinear_arith)
                requires
                    s <= 0xffff_ffff_ffff_ffff,
            ;
        }
        (2 * edge_count as u128, s * (s - 1), degrees, s * (s - 1))
    };
    FraudRingCandidate {
        root,
        members,
        edge_count,
        density_num,
        density_den,
        centrality_num,
        centrality_den,
        fraud_count,
        unique_users,
    }
}

/// Fraud-ring candidates: the connected components of the similarity graph
/// that hold a fraudulent transaction, in order of their lowest member.
pub fn find_rings(transactions: &[Transaction], graph: &SimilarityGraph) -> (r: Vec<FraudRingCandidate>)
    requires
        graph.node_count == transactions@.len(),
        edges_valid(graph.edges@, graph.node_count as nat),
    ensures
        exists|l: Seq<usize>|
            labels_components(graph.edges@, graph.node_count as nat, l) && #[trigger] rings_of(
                transactions@,
                graph.edges@,
                l,
                r@,
            ),
{
    let labels = component_labels(graph);
    let mut r: Vec<FraudRingCandidate> = Vec::new();
    let mut i: usize = 0;
    while i < labels.len()
        invariant
            i <= labels@.len(),
            labels@.len() == transactions@.len(),
            edges_valid(graph.edges@, labels@.len()),
            r@.len() == ring_roots(transactions@, labels@, i as nat).len(),
            forall|t: int|
                0 <= t < r@.len() ==> ring_of(
                    transactions@,
                    graph.edges@,
                    labels@,
                    ring_roots(transactions@, labels@, i as nat)[t],
                    #[trigger] r@[t],
                ),
        decreases labels@.len() - i,
    {
        if labels[i] == i {
            let c = ring_candidate(transactions, graph, &labels, i);
            if c.fraud_count > 0 {
                let ghost before = r@;
                r.push(c);
                assert forall|t: int| 0 <= t < r@.len() implies ring_of(
                    transactions@,
                    graph.edges@,
                    labels@,
                    ring_roots(transactions@, labels@, (i + 1) as nat)[t],
                    #[trigger] r@[t],
                ) by {
                    if t < before.len() {
                        assert(r@[t] == before[t]);
                    }
                }
            }
        }
        i = i + 1;
    }
    assert(rings_of(transactions@, graph.edges@, labels@, r@));
    r
}

/// Edges listed in strictly increasing order of `(a, b)`.
pub open spec fn edges_sorted(es: Seq<Edge>) -> bool {
    forall|s: int, t: int|
        0 <= s < t < es.len() ==> crate::similarity::pair_before(
            (#[trigger] es[s]).a as int,
            es[s].b as int,
            (#[trigger] es[t]).a as int,
            es[t].b as int,
        )
}

/// `0 + 1 + ... + i`.
pub open spec fn tri(i: nat) -> nat
    decreases i,
{
    if i == 0 {
        0
    } else {
        tri((i - 1) as nat) + i
    }
}

/// Position of the pair `i < j < n` in the lexicographic list of such pairs.
pub open spec fn pair_index(i: int, j: int, n: int) -> int {
    i * n - tri(i as nat) + j - i - 1
}

proof fn lemma_tri_double(i: nat)
    ensures
        2 * tri(i) == (i as int) * (i as int + 1),
    decreases i,
{
    if i > 0 {
        let k = (i - 1) as nat;
        lemma_tri_double(k);
        let a = i as int;
        let b = k as int;
        let tk = tri(k) as int;
        let ti = tri(i) as int;
        assert(ti == tk + a);
        assert(2 * ti == a * (a + 1)) by (nonlinear_arith)
            requires
                2 * tk == b * (b + 1),
                ti == tk + a,
                b + 1 == a,
        ;
    } else {
        let a = i as int;
        assert(a * (a + 1) == 0) by (nonlinear_arith)
            requires
                a == 0,
        ;
    }
}

/// Start of the block of pairs with first element `i`.
proof fn lemma_block_start_grows(i: int, k: int, n: int)
    requires
        0 <= i <= k < n,
    ensures
        pair_index(i, i + 1, n) <= pair_index(k, k + 1, n),
    decreases k - i,
{
    if i < k {
        lemma_block_start_grows(i + 1, k, n);
        assert((i + 1) * n == i * n + n) by (nonlinear_arith);
    }
}

proof fn lemma_pair_index_order(i1: int, j1: int, i2: int, j2: int, n: int)
    requires
        0 <= i1 < j1 < n,
        0 <= i2 < j2 < n,
        crate::similarity::pair_before(i1, j1, i2, j2),
    ensures
        pair_index(i1, j1, n) < pair_index(i2, j2, n),
{
    if i1 < i2 {
        assert((i1 + 1) * n == i1 * n + n) by (nonlinear_arith);
        lemma_block_start_grows(i1 + 1, i2, n);
    }
}

proof fn lemma_pair_index_bound(i: int, j: int, n: int)
    requires
        0 <= i < j < n,
    ensures
        0 <= pair_index(i, j, n),
        2 * (pair_index(i, j, n) + 1) <= n * (n - 1),
{
    assert((i + 1) * n == i * n + n) by (nonlinear_arith);
    lemma_block_start_grows(i + 1, n - 1, n);
    assert(pair_index(i, j, n) + 1 <= pair_index(i + 1, i + 2, n));
    assert(pair_index(n - 1, n, n) == (n - 1) * n - tri((n - 1) as nat));
    lemma_tri_double((n - 1) as nat);
    lemma_tri_double(i as nat);
    assert((n - 1) * n - tri((n - 1) as nat) == tri((n - 1) as nat));
    assert(i * n - tri(i as nat) >= 0) by (nonlinear_arith)
        requires
            2 * tri(i as nat) == i * (i + 1),
            i < n,
            i >= 0,
    ;
    assert(2 * tri((n - 1) as nat) == (n - 1) * n);
    assert((n - 1) * n == n * (n - 1)) by (nonlinear_arith);
}

proof fn lemma_member_count_mono(l: Seq<usize>, r: int, x: nat, y: nat)
    requires
        x <= y <= l.len(),
    ensures
        member_count(l, r, x) <= member_count(l, r, y),
        x < y && l[x as int] == r ==> member_count(l, r, x) < member_count(l, r, y),
    decreases y - x,
{
    if x < y {
        lemma_member_count_mono(l, r, x, (y - 1) as nat);
        if l[x as int] == r && x + 1 == y {
        }
    }
}

/// Rank of a member among the members below it.
pub open spec fn member_rank(l: Seq<usize>, r: int, x: int) -> int {
    member_count(l, r, x as nat) as int
}

/// Index of a within-component edge in the list of member pairs.
pub open spec fn edge_index(es: Seq<Edge>, l: Seq<usize>, r: int, t: int) -> int {
    pair_index(
        member_rank(l, r, es[t].a as int),
        member_rank(l, r, es[t].b as int),
        member_count(l, r, l.len()) as int,
    )
}

/// One more than the index of the last within-component edge among the first `m`.
pub open spec fn top_index(es: Seq<Edge>, l: Seq<usize>, r: int, m: nat) -> int
    decreases m,
{
    if m == 0 {
        0
    } else if l[es[m - 1].a as int] == r {
        edge_index(es, l, r, m - 1) + 1
    } else {
        top_index(es, l, r, (m - 1) as nat)
    }
}

proof fn lemma_edge_ranks(es: Seq<Edge>, l: Seq<usize>, r: int, t: int)
    requires
        edges_valid(es, l.len()),
        forall|q: int| 0 <= q < es.len() ==> l[(#[trigger] es[q]).a as int] == l[es[q].b as int],
        0 <= t < es.len(),
        l[es[t].a as int] == r,
    ensures
        0 <= member_rank(l, r, es[t].a as int) < member_rank(l, r, es[t].b as int) < member_count(
            l,
            r,
            l.len(),
        ),
{
    let a = es[t].a as nat;
    let b = es[t].b as nat;
    lemma_member_count_mono(l, r, a, b);
    lemma_member_count_mono(l, r, b, l.len());
}

proof fn lemma_top_below(es: Seq<Edge>, l: Seq<usize>, r: int, m: nat, t: int)
    requires
        edges_valid(es, l.len()),
        edges_sorted(es),
        forall|q: int| 0 <= q < es.len() ==> l[(#[trigger] es[q]).a as int] == l[es[q].b as int],
        m <= t < es.len(),
        l[es[t].a as int] == r,
    ensures
        top_index(es, l, r, m) <= edge_index(es, l, r, t),
    decreases m,
{
    lemma_edge_ranks(es, l, r, t);
    lemma_pair_index_bound(
        member_rank(l, r, es[t].a as int),
        member_rank(l, r, es[t].b as int),
        member_count(l, r, l.len()) as int,
    );
    if m > 0 {
        let s = m - 1;
        if l[es[s].a as int] == r {
            lemma_edge_ranks(es, l, r, s);
            let n = member_count(l, r, l.len()) as int;
            let (a1, b1, a2, b2) = (es[s].a as int, es[s].b as int, es[t].a as int, es[t].b as int);
            assert(crate::similarity::pair_before(a1, b1, a2, b2));
            lemma_member_count_mono(l, r, a1 as nat, a2 as nat);
            if a1 == a2 {
                lemma_member_count_mono(l, r, b1 as nat, b2 as nat);
            }
            lemma_pair_index_order(
                member_rank(l, r, a1),
                member_rank(l, r, b1),
                member_rank(l, r, a2),
                member_rank(l, r, b2),
                n,
            );
        } else {
            lemma_top_below(es, l, r, (m - 1) as nat, t);
        }
    }
}

proof fn lemma_edges_within_top(es: Seq<Edge>, l: Seq<usize>, r: int, m: nat)
    requires
        edges_valid(es, l.len()),
        edges_sorted(es),
        forall|q: int| 0 <= q < es.len() ==> l[(#[trigger] es[q]).a as int] == l[es[q].b as int],
        m <= es.len(),
    ensures
        edges_within(es, l, r, m) <= top_index(es, l, r, m),
        2 * top_index(es, l, r, m) <= member_count(l, r, l.len()) * (member_count(l, r, l.len()) - 1),
    decreases m,
{
    if m > 0 {
        lemma_edges_within_top(es, l, r, (m - 1) as nat);
        let t = m - 1;
        if l[es[t].a as int] == r {
            lemma_top_below(es, l, r, (m - 1) as nat, t);
            lemma_edge_ranks(es, l, r, t);
            lemma_pair_index_bound(
                member_rank(l, r, es[t].a as int),
                member_rank(l, r, es[t].b as int),
                member_count(l, r, l.len()) as int,
            );
        }
    } else {
        let n = member_count(l, r, l.len()) as int;
        assert(n * (n - 1) >= 0) by (nonlinear_arith);
    }
}

proof fn lemma_degree_total(es: Seq<Edge>, l: Seq<usize>, r: int, m: nat)
    requires
        forall|q: int| 0 <= q < es.len() ==> l[(#[trigger] es[q]).a as int] == l[es[q].b as int],
        m <= es.len(),
    ensures
        degree_total(es, l, r, m) == 2 * edges_within(es, l, r, m),
    decreases m,
{
    if m > 0 {
        lemma_degree_total(es, l, r, (m - 1) as nat);
        assert(l[es[m - 1].a as int] == l[es[m - 1].b as int]);
    }
}

/// Density and average degree centrality of every candidate lie in `[0, 1]`
/// (numerator at most denominator, denominator positive), and both are 0
/// for a single-node component.
pub proof fn lemma_ring_ratios_in_unit_range(
    ts: Seq<Transaction>,
    es: Seq<Edge>,
    l: Seq<usize>,
    root: int,
    c: FraudRingCandidate,
)
    requires
        edges_valid(es, ts.len()),
        edges_sorted(es),
        labels_components(es, ts.len(), l),
        ring_of(ts, es, l, root, c),
    ensures
        0 <= c.density_num <= c.density_den,
        c.density_den > 0,
        0 <= c.centrality_num <= c.centrality_den,
        c.centrality_den > 0,
        c.members@.len() <= 1 ==> c.density_num == 0 && c.centrality_num == 0,
{
    lemma_edges_within_top(es, l, root, es.len());
    lemma_degree_total(es, l, root, es.len());
    lemma_members_len(l, root, l.len());
    let n = member_count(l, root, l.len()) as int;
    if n > 1 {
        assert(n * (n - 1) > 0) by (nonlinear_arith)
            requires
                n > 1,
        ;
    }
}

proof fn lemma_members_len(l: Seq<usize>, r: int, m: nat)
    requires
        m <= l.len(),
    ensures
        members_upto(l, r, m).len() == member_count(l, r, m),
    decreases m,
{
    if m > 0 {
        lemma_members_len(l, r, (m - 1) as nat);
    }
}

/// The component labels are determined by the graph: any two labellings
/// that satisfy `labels_components` are equal.
pub proof fn lemma_component_labels_unique(es: Seq<Edge>, n: nat, l1: Seq<usize>, l2: Seq<usize>)
    requires
        edges_valid(es, n),
        labels_components(es, n, l1),
        labels_components(es, n, l2),
    ensures
        l1 == l2,
{
    assert forall|i: int| 0 <= i < n implies l1[i] == l2[i] by {
        let x1 = l1[i] as int;
        let x2 = l2[i] as int;
        lemma_connected_symmetric(es, x2, i);
        lemma_connected_same_label(es, n, l1, i, x2);
        lemma_connected_symmetric(es, x1, i);
        lemma_connected_same_label(es, n, l2, i, x1);
        assert(l1[x2] <= x2);
        assert(l2[x1] <= x1);
    }
    assert(l1 =~= l2);
}

proof fn lemma_connected_symmetric(es: Seq<Edge>, x: int, y: int)
    requires
        connected(es, x, y),
    ensures
        connected(es, y, x),
{
    let p = choose|p: Seq<int>| #[trigger] is_walk(es, p) && p[0] == x && p.last() == y;
    let q = p.reverse();
    assert forall|t: int| 0 <= t < q.len() - 1 implies adjacent(es, #[trigger] q[t], q[t + 1]) by {
        let u = p.len() - 2 - t;
        assert(adjacent(es, p[u], p[u + 1]));
        assert(q[t] == p[u + 1] && q[t + 1] == p[u]);
        let e = choose|e: int|
            0 <= e < es.len() && ((#[trigger] es[e].a == p[u] && es[e].b == p[u + 1]) || (es[e].a
                == p[u + 1] && es[e].b == p[u]));
    }
    assert(is_walk(es, q));
    assert(q[0] == y);
    assert(q.last() == x);
}

} // verus!
