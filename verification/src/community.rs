//! Greedy modularity community detection: single-level local moves. Every
//! node starts in its own community; passes move nodes into the neighbor
//! community with the largest strictly positive modularity delta (smallest
//! community id on ties) until a pass makes no move or the global modularity
//! stops increasing. All modularity arithmetic is exact, scaled by (2m)^2.

use vstd::prelude::*;

use crate::graph::Graph;

verus! {

/// Sum of the weights of the first `k` adjacency entries.
pub open(crate) spec fn wsum(a: Seq<(usize, usize)>, k: int) -> nat
    decreases k,
{
    if k <= 0 {
        0
    } else {
        (wsum(a, k - 1) + a[k - 1].1) as nat
    }
}

/// Weighted degree of the node at position `i`.
pub open(crate) spec fn k_at(g: Graph, i: int) -> nat {
    wsum(g.adj_seq_at(i), g.adj_seq_at(i).len() as int)
}

/// Total weighted degree of the first `k` node positions; over all nodes
/// this is twice the total edge-weight mass 2m.
pub open(crate) spec fn m2_of(g: Graph, k: int) -> nat
    decreases k,
{
    if k <= 0 {
        0
    } else {
        m2_of(g, k - 1) + k_at(g, k - 1)
    }
}

/// Adjacency weight between the nodes at positions `i` and `j` (0 when not
/// adjacent).
pub open(crate) spec fn a_between(g: Graph, i: int, j: int) -> nat {
    match g.weight(g.node_id(i), g.node_id(j)) {
        Some(w) => w as nat,
        None => 0,
    }
}

/// One modularity term, scaled by (2m)^2: 2m * A_ij - k_i * k_j.
pub open(crate) spec fn q_term(g: Graph, m2: int, i: int, j: int) -> int {
    m2 * a_between(g, i, j) - k_at(g, i) * k_at(g, j)
}

/// The term's contribution under an assignment: counted only within one
/// community.
pub open(crate) spec fn q_cont(g: Graph, comm: Seq<usize>, m2: int, i: int, j: int) -> int {
    if comm[i] == comm[j] {
        q_term(g, m2, i, j)
    } else {
        0
    }
}

pub open(crate) spec fn q_row(g: Graph, comm: Seq<usize>, m2: int, i: int, hi: int) -> int
    decreases hi,
{
    if hi <= 0 {
        0
    } else {
        q_row(g, comm, m2, i, hi - 1) + q_cont(g, comm, m2, i, hi - 1)
    }
}

pub open(crate) spec fn q_upto(g: Graph, comm: Seq<usize>, m2: int, hi: int) -> int
    decreases hi,
{
    if hi <= 0 {
        0
    } else {
        q_upto(g, comm, m2, hi - 1) + q_row(g, comm, m2, hi - 1, g.node_count() as int)
    }
}

/// Global modularity under assignment `comm`, scaled by (2m)^2.
pub open(crate) spec fn q_scaled(g: Graph, comm: Seq<usize>, m2: int) -> int {
    q_upto(g, comm, m2, g.node_count() as int)
}

/// Sum, over the first `hi` positions other than `v` that sit in community
/// `c`, of the scaled modularity terms against `v`.
pub open(crate) spec fn s_upto(
    g: Graph,
    comm: Seq<usize>,
    m2: int,
    v: int,
    c: usize,
    hi: int,
) -> int
    decreases hi,
{
    if hi <= 0 {
        0
    } else {
        s_upto(g, comm, m2, v, c, hi - 1) + (if hi - 1 != v && comm[hi - 1] == c {
            q_term(g, m2, v, hi - 1)
        } else {
            0
        })
    }
}

/// The incremental local-move delta, scaled by (2m)^2: what moving `v` from
/// its community into `c` adds to the scaled modularity.
pub open(crate) spec fn move_delta(g: Graph, comm: Seq<usize>, m2: int, v: int, c: usize) -> int {
    2 * (s_upto(g, comm, m2, v, c, g.node_count() as int) - s_upto(
        g,
        comm,
        m2,
        v,
        comm[v],
        g.node_count() as int,
    ))
}

/// No node has a neighbor community it could move into with a strictly
/// positive modularity delta: a local-move fixpoint.
pub open(crate) spec fn stable(g: Graph, comm: Seq<usize>, m2: int) -> bool {
    forall|v: int, j: int|
        0 <= v < g.node_count() && 0 <= j < g.deg_at(v) ==> forall|p: int|
            0 <= p < g.node_count() && g.node_id(p) == (#[trigger] g.nbr(v, j)).0 ==> move_delta(
                g,
                comm,
                m2,
                v,
                comm[p],
            ) <= 0
}

/// Weighted degree of the node at position `i`, exactly.
fn weighted_degree(g: &Graph, i: usize) -> (r: u128)
    requires
        g.wf(),
        i < g.node_count(),
    ensures
        r == k_at(*g, i as int),
{
    let d = g.degree_at(i);
    let mut acc: u128 = 0;
    let mut j: usize = 0;
    while j < d
        invariant
            j <= d,
            i < g.node_count(),
            g.wf(),
            d == g.deg_at(i as int),
            acc == wsum(g.adj_seq_at(i as int), j as int),
            acc <= (j as u128) * (usize::MAX as u128),
        decreases d - j,
    {
        let w = g.neighbor_at(i, j).1;
        proof {
            assert(acc + w <= (j as u128 + 1) * (usize::MAX as u128)) by (nonlinear_arith)
                requires
                    acc <= (j as u128) * (usize::MAX as u128),
                    w <= usize::MAX as u128,
            ;
            assert((j as u128 + 1) * (usize::MAX as u128) <= (u64::MAX as u128) * (u64::MAX
                as u128)) by (nonlinear_arith)
                requires
                    j as u128 + 1 <= u64::MAX as u128,
                    usize::MAX as u128 <= u64::MAX as u128,
            ;
        }
        acc = acc + (w as u128);
        j = j + 1;
    }
    acc
}

/// The weighted degrees of all nodes, and their total 2m.
fn degree_table(g: &Graph) -> (r: Option<(Vec<u128>, u128)>)
    requires
        g.wf(),
    ensures
        match r {
            Some(t) => {
                &&& t.0@.len() == g.node_count()
                &&& (forall|i: int| 0 <= i < g.node_count() ==> t.0@[i] == k_at(*g, i))
                &&& t.1 == m2_of(*g, g.node_count() as int)
            },
            None => m2_of(*g, g.node_count() as int) > u128::MAX,
        },
{
    let n = g.num_nodes();
    let mut ks: Vec<u128> = Vec::new();
    let mut total: u128 = 0;
    let mut i: usize = 0;
    while i < n
        invariant
            i <= n,
            n == g.node_count(),
            g.wf(),
            ks@.len() == i,
            forall|j: int| 0 <= j < i ==> ks@[j] == k_at(*g, j),
            total == m2_of(*g, i as int),
        decreases n - i,
    {
        let k = weighted_degree(g, i);
        match total.checked_add(k) {
            Some(t) => {
                total = t;
            },
            None => {
                proof {
                    lemma_m2_mono(*g, i + 1, n as int);
                }
                return None;
            },
        }
        ks.push(k);
        i = i + 1;
    }
    Some((ks, total))
}

proof fn lemma_m2_mono(g: Graph, j: int, k: int)
    requires
        j <= k,
    ensures
        m2_of(g, j) <= m2_of(g, k),
    decreases k - j,
{
    if j < k {
        lemma_m2_mono(g, j, k - 1);
    }
}

/// Every single weight in an adjacency list is at most the list's sum.
proof fn lemma_wsum_entry(a: Seq<(usize, usize)>, i: int, k: int)
    requires
        0 <= i < k <= a.len(),
    ensures
        a[i].1 <= wsum(a, k),
    decreases k,
{
    if i < k - 1 {
        lemma_wsum_entry(a, i, k - 1);
    }
}

/// A weighted degree never exceeds the total weighted degree 2m.
pub proof fn lemma_k_le_m2(g: Graph, i: int)
    requires
        g.wf(),
        0 <= i < g.node_count(),
    ensures
        k_at(g, i) <= m2_of(g, g.node_count() as int),
{
    lemma_m2_mono(g, i + 1, g.node_count() as int);
}

/// An adjacency weight never exceeds the total weighted degree 2m.
proof fn lemma_a_le_m2(g: Graph, i: int, j: int)
    requires
        g.wf(),
        0 <= i < g.node_count(),
        0 <= j < g.node_count(),
    ensures
        a_between(g, i, j) <= m2_of(g, g.node_count() as int),
{
    if g.weight(g.node_id(i), g.node_id(j)) is Some {
        let w = g.weight(g.node_id(i), g.node_id(j)).unwrap();
        g.lemma_at(i);
        crate::graph::lemma_find_w_some(g.adj_seq_at(i), g.node_id(j));
        let jj = choose|jj: int|
            0 <= jj < g.adj_seq_at(i).len() && g.adj_seq_at(i)[jj].0 == g.node_id(j)
                && g.adj_seq_at(i)[jj].1 == w;
        lemma_wsum_entry(g.adj_seq_at(i), jj, g.adj_seq_at(i).len() as int);
        lemma_k_le_m2(g, i);
    }
}

/// One scaled modularity term lies within +-(2m)^2.
proof fn lemma_q_term_bound(g: Graph, m2: int, i: int, j: int)
    requires
        g.wf(),
        0 <= i < g.node_count(),
        0 <= j < g.node_count(),
        m2 >= 0,
        m2 == m2_of(g, g.node_count() as int),
    ensures
        -(m2 * m2) <= q_term(g, m2, i, j) <= m2 * m2,
        0 <= m2 * a_between(g, i, j) <= m2 * m2,
        0 <= k_at(g, i) * k_at(g, j) <= m2 * m2,
{
    lemma_a_le_m2(g, i, j);
    lemma_k_le_m2(g, i);
    lemma_k_le_m2(g, j);
    assert(0 <= m2 * a_between(g, i, j) <= m2 * m2) by (nonlinear_arith)
        requires
            0 <= a_between(g, i, j) <= m2,
    ;
    assert(0 <= k_at(g, i) * k_at(g, j) <= m2 * m2) by (nonlinear_arith)
        requires
            0 <= k_at(g, i) <= m2,
            0 <= k_at(g, j) <= m2,
            m2 >= 0,
    ;
}

/// One scaled modularity term, exactly; None when it leaves the i128 range,
/// which cannot happen while (2m)^2 fits.
fn term_exec(g: &Graph, ks: &Vec<u128>, m2: i128, i: usize, j: usize) -> (r: Option<i128>)
    requires
        g.wf(),
        ks@.len() == g.node_count(),
        forall|p: int| 0 <= p < g.node_count() ==> ks@[p] == k_at(*g, p),
        i < g.node_count(),
        j < g.node_count(),
        m2 >= 0,
        m2 == m2_of(*g, g.node_count() as int),
    ensures
        r matches Some(v) ==> v == q_term(*g, m2 as int, i as int, j as int),
        (m2 as int) * (m2 as int) <= i128::MAX ==> r is Some,
{
    proof {
        lemma_q_term_bound(*g, m2 as int, i as int, j as int);
        lemma_k_le_m2(*g, i as int);
        lemma_k_le_m2(*g, j as int);
        lemma_a_le_m2(*g, i as int, j as int);
        if (m2 as int) * (m2 as int) <= i128::MAX {
            assert(m2 <= i128::MAX) by (nonlinear_arith)
                requires
                    (m2 as int) * (m2 as int) <= i128::MAX,
                    m2 >= 0,
            ;
        }
    }
    let a = match g.lookup_weight(g.node_id_at(i), g.node_id_at(j)) {
        Some(w) => w,
        None => 0,
    };
    proof {
        if a == 0 && g.weight(g.node_id(i as int), g.node_id(j as int)) is Some {
            assert(g.weight(g.node_id(i as int), g.node_id(j as int)).unwrap() >= 1);
        }
        assert(a == a_between(*g, i as int, j as int));
    }
    let ki = ks[i];
    let kj = ks[j];
    if ki > i128::MAX as u128 || kj > i128::MAX as u128 || a as u128 > i128::MAX as u128 {
        return None;
    }
    let lhs = match m2.checked_mul(a as i128) {
        Some(v) => v,
        None => {
            return None;
        },
    };
    let rhs = match (ki as i128).checked_mul(kj as i128) {
        Some(v) => v,
        None => {
            return None;
        },
    };
    match lhs.checked_sub(rhs) {
        Some(v) => Some(v),
        None => None,
    }
}

/// Exact scaled global modularity of an assignment; None when any exact
/// intermediate leaves the i128 range, which cannot happen while
/// n^2 * (2m)^2 fits.
pub fn scaled_modularity(g: &Graph, comm: &Vec<usize>, ks: &Vec<u128>, m2: i128) -> (r: Option<
    i128,
>)
    requires
        g.wf(),
        comm@.len() == g.node_count(),
        ks@.len() == g.node_count(),
        forall|p: int| 0 <= p < g.node_count() ==> ks@[p] == k_at(*g, p),
        m2 >= 0,
        m2 == m2_of(*g, g.node_count() as int),
    ensures
        r matches Some(v) ==> v == q_scaled(*g, comm@, m2 as int),
        (g.node_count() * g.node_count()) * ((m2 as int) * (m2 as int)) <= i128::MAX ==> r
            is Some,
{
    let ghost fits = (g.node_count() * g.node_count()) * ((m2 as int) * (m2 as int))
        <= i128::MAX;
    let n = g.num_nodes();
    let mut acc: i128 = 0;
    let mut i: usize = 0;
    while i < n
        invariant
            i <= n,
            n == g.node_count(),
            g.wf(),
            comm@.len() == n,
            ks@.len() == n,
            forall|p: int| 0 <= p < g.node_count() ==> ks@[p] == k_at(*g, p),
            m2 >= 0,
            m2 == m2_of(*g, g.node_count() as int),
            acc == q_upto(*g, comm@, m2 as int, i as int),
            fits == ((g.node_count() * g.node_count()) * ((m2 as int) * (m2 as int))
                <= i128::MAX),
            fits ==> -((i as int) * (n as int) * ((m2 as int) * (m2 as int))) <= acc <= (i as int)
                * (n as int) * ((m2 as int) * (m2 as int)),
        decreases n - i,
    {
        let mut row: i128 = 0;
        let mut j: usize = 0;
        while j < n
            invariant
                j <= n,
                i < n,
                n == g.node_count(),
                g.wf(),
                comm@.len() == n,
                ks@.len() == n,
                forall|p: int| 0 <= p < g.node_count() ==> ks@[p] == k_at(*g, p),
                m2 >= 0,
                m2 == m2_of(*g, g.node_count() as int),
                acc == q_upto(*g, comm@, m2 as int, i as int),
                row == q_row(*g, comm@, m2 as int, i as int, j as int),
                fits == ((g.node_count() * g.node_count()) * ((m2 as int) * (m2 as int))
                    <= i128::MAX),
                fits ==> -((i as int) * (n as int) * ((m2 as int) * (m2 as int))) <= acc <= (
                i as int) * (n as int) * ((m2 as int) * (m2 as int)),
                fits ==> -((j as int) * ((m2 as int) * (m2 as int))) <= row <= (j as int) * ((
                m2 as int) * (m2 as int)),
            decreases n - j,
        {
            proof {
                if fits {
                    assert((m2 as int) * (m2 as int) <= i128::MAX) by (nonlinear_arith)
                        requires
                            (g.node_count() * g.node_count()) * ((m2 as int) * (m2 as int))
                                <= i128::MAX,
                            g.node_count() >= 1,
                            (m2 as int) * (m2 as int) >= 0,
                    ;
                    lemma_q_term_bound(*g, m2 as int, i as int, j as int);
                    assert(-((j as int + 1) * ((m2 as int) * (m2 as int))) <= row + q_term(
                        *g,
                        m2 as int,
                        i as int,
                        j as int,
                    ) <= (j as int + 1) * ((m2 as int) * (m2 as int))) by (nonlinear_arith)
                        requires
                            -((j as int) * ((m2 as int) * (m2 as int))) <= row <= (j as int) * ((
                            m2 as int) * (m2 as int)),
                            -((m2 as int) * (m2 as int)) <= q_term(*g, m2 as int, i as int, j as int)
                                <= (m2 as int) * (m2 as int),
                    ;
                    assert((j as int + 1) * ((m2 as int) * (m2 as int)) <= (n as int) * ((
                    m2 as int) * (m2 as int)) <= (g.node_count() * g.node_count()) * ((m2 as int)
                        * (m2 as int))) by (nonlinear_arith)
                        requires
                            j as int + 1 <= n as int,
                            1 <= n as int,
                            n == g.node_count(),
                            (m2 as int) * (m2 as int) >= 0,
                    ;
                }
            }
            if comm[i] == comm[j] {
                let t = match term_exec(g, ks, m2, i, j) {
                    Some(t) => t,
                    None => {
                        return None;
                    },
                };
                row = match row.checked_add(t) {
                    Some(v) => v,
                    None => {
                        return None;
                    },
                };
            } else {
                proof {
                    if fits {
                        assert(-((j as int + 1) * ((m2 as int) * (m2 as int))) <= row <= (j as int
                            + 1) * ((m2 as int) * (m2 as int))) by (nonlinear_arith)
                            requires
                                -((j as int) * ((m2 as int) * (m2 as int))) <= row <= (j as int)
                                    * ((m2 as int) * (m2 as int)),
                                (m2 as int) * (m2 as int) >= 0,
                        ;
                    }
                }
            }
            j = j + 1;
        }
        proof {
            if fits {
                assert(-((i as int + 1) * (n as int) * ((m2 as int) * (m2 as int))) <= acc + row
                    <= (i as int + 1) * (n as int) * ((m2 as int) * (m2 as int))) by (nonlinear_arith)
                    requires
                        -((i as int) * (n as int) * ((m2 as int) * (m2 as int))) <= acc <= (
                        i as int) * (n as int) * ((m2 as int) * (m2 as int)),
                        -((n as int) * ((m2 as int) * (m2 as int))) <= row <= (n as int) * ((
                        m2 as int) * (m2 as int)),
                ;
                assert((i as int + 1) * (n as int) * ((m2 as int) * (m2 as int)) <= (g.node_count()
                    * g.node_count()) * ((m2 as int) * (m2 as int))) by (nonlinear_arith)
                    requires
                        i as int + 1 <= n as int,
                        n == g.node_count(),
                        (m2 as int) * (m2 as int) >= 0,
                ;
            }
        }
        acc = match acc.checked_add(row) {
            Some(v) => v,
            None => {
                return None;
            },
        };
        i = i + 1;
    }
    Some(acc)
}

/// Exact incremental move delta of placing `v` into community `c`; None when
/// an exact intermediate leaves the i128 range.
fn move_delta_exec(
    g: &Graph,
    comm: &Vec<usize>,
    ks: &Vec<u128>,
    m2: i128,
    v: usize,
    c: usize,
) -> (r: Option<i128>)
    requires
        g.wf(),
        comm@.len() == g.node_count(),
        ks@.len() == g.node_count(),
        forall|p: int| 0 <= p < g.node_count() ==> ks@[p] == k_at(*g, p),
        v < g.node_count(),
        m2 >= 0,
        m2 == m2_of(*g, g.node_count() as int),
    ensures
        r matches Some(d) ==> d == move_delta(*g, comm@, m2 as int, v as int, c),
        4 * g.node_count() * ((m2 as int) * (m2 as int)) <= i128::MAX ==> r is Some,
{
    let ghost fits = 4 * g.node_count() * ((m2 as int) * (m2 as int)) <= i128::MAX;
    proof {
        if fits {
            assert((m2 as int) * (m2 as int) <= i128::MAX) by (nonlinear_arith)
                requires
                    4 * g.node_count() * ((m2 as int) * (m2 as int)) <= i128::MAX,
                    g.node_count() >= 1,
                    (m2 as int) * (m2 as int) >= 0,
            ;
        }
    }
    let n = g.num_nodes();
    let a = comm[v];
    let mut s_new: i128 = 0;
    let mut s_old: i128 = 0;
    let mut j: usize = 0;
    while j < n
        invariant
            j <= n,
            v < n,
            n == g.node_count(),
            g.wf(),
            comm@.len() == n,
            ks@.len() == n,
            forall|p: int| 0 <= p < g.node_count() ==> ks@[p] == k_at(*g, p),
            m2 >= 0,
            m2 == m2_of(*g, g.node_count() as int),
            a == comm@[v as int],
            s_new == s_upto(*g, comm@, m2 as int, v as int, c, j as int),
            s_old == s_upto(*g, comm@, m2 as int, v as int, a, j as int),
            fits == (4 * g.node_count() * ((m2 as int) * (m2 as int)) <= i128::MAX),
            fits ==> -((j as int) * ((m2 as int) * (m2 as int))) <= s_new <= (j as int) * ((
            m2 as int) * (m2 as int)),
            fits ==> -((j as int) * ((m2 as int) * (m2 as int))) <= s_old <= (j as int) * ((
            m2 as int) * (m2 as int)),
        decreases n - j,
    {
        proof {
            if fits {
                assert((m2 as int) * (m2 as int) <= i128::MAX) by (nonlinear_arith)
                    requires
                        4 * g.node_count() * ((m2 as int) * (m2 as int)) <= i128::MAX,
                        g.node_count() >= 1,
                        (m2 as int) * (m2 as int) >= 0,
                ;
                lemma_q_term_bound(*g, m2 as int, v as int, j as int);
                assert(-((j as int + 1) * ((m2 as int) * (m2 as int))) <= s_new + q_term(
                    *g,
                    m2 as int,
                    v as int,
                    j as int,
                ) <= (j as int + 1) * ((m2 as int) * (m2 as int))) by (nonlinear_arith)
                    requires
                        -((j as int) * ((m2 as int) * (m2 as int))) <= s_new <= (j as int) * ((
                        m2 as int) * (m2 as int)),
                        -((m2 as int) * (m2 as int)) <= q_term(*g, m2 as int, v as int, j as int)
                            <= (m2 as int) * (m2 as int),
                ;
                assert(-((j as int + 1) * ((m2 as int) * (m2 as int))) <= s_old + q_term(
                    *g,
                    m2 as int,
                    v as int,
                    j as int,
                ) <= (j as int + 1) * ((m2 as int) * (m2 as int))) by (nonlinear_arith)
                    requires
                        -((j as int) * ((m2 as int) * (m2 as int))) <= s_old <= (j as int) * ((
                        m2 as int) * (m2 as int)),
                        -((m2 as int) * (m2 as int)) <= q_term(*g, m2 as int, v as int, j as int)
                            <= (m2 as int) * (m2 as int),
                ;
                assert((j as int + 1) * ((m2 as int) * (m2 as int)) <= 4 * g.node_count() * ((
                m2 as int) * (m2 as int))) by (nonlinear_arith)
                    requires
                        j as int + 1 <= g.node_count(),
                        (m2 as int) * (m2 as int) >= 0,
                ;
                assert(-((j as int + 1) * ((m2 as int) * (m2 as int))) <= s_new <= (j as int + 1)
                    * ((m2 as int) * (m2 as int))) by (nonlinear_arith)
                    requires
                        -((j as int) * ((m2 as int) * (m2 as int))) <= s_new <= (j as int) * ((
                        m2 as int) * (m2 as int)),
                        (m2 as int) * (m2 as int) >= 0,
                ;
                assert(-((j as int + 1) * ((m2 as int) * (m2 as int))) <= s_old <= (j as int + 1)
                    * ((m2 as int) * (m2 as int))) by (nonlinear_arith)
                    requires
                        -((j as int) * ((m2 as int) * (m2 as int))) <= s_old <= (j as int) * ((
                        m2 as int) * (m2 as int)),
                        (m2 as int) * (m2 as int) >= 0,
                ;
            }
        }
        if j != v && (comm[j] == c || comm[j] == a) {
            let t = match term_exec(g, ks, m2, v, j) {
                Some(t) => t,
                None => {
                    return None;
                },
            };
            if comm[j] == c {
                s_new = match s_new.checked_add(t) {
                    Some(x) => x,
                    None => {
                        return None;
                    },
                };
            }
            if comm[j] == a {
                s_old = match s_old.checked_add(t) {
                    Some(x) => x,
                    None => {
                        return None;
                    },
                };
            }
        }
        j = j + 1;
    }
    proof {
        if fits {
            assert(-(2 * (n as int) * ((m2 as int) * (m2 as int))) <= s_new - s_old <= 2 * (
            n as int) * ((m2 as int) * (m2 as int))) by (nonlinear_arith)
                requires
                    -((n as int) * ((m2 as int) * (m2 as int))) <= s_new <= (n as int) * ((
                    m2 as int) * (m2 as int)),
                    -((n as int) * ((m2 as int) * (m2 as int))) <= s_old <= (n as int) * ((
                    m2 as int) * (m2 as int)),
            ;
            assert(4 * (n as int) * ((m2 as int) * (m2 as int)) <= i128::MAX) by (nonlinear_arith)
                requires
                    4 * g.node_count() * ((m2 as int) * (m2 as int)) <= i128::MAX,
                    n == g.node_count(),
            ;
            assert(2 * (n as int) * ((m2 as int) * (m2 as int)) <= 4 * (n as int) * ((m2 as int)
                * (m2 as int))) by (nonlinear_arith)
                requires
                    (m2 as int) * (m2 as int) >= 0,
                    n as int >= 0,
            ;
            assert(-(4 * (n as int) * ((m2 as int) * (m2 as int))) <= 2 * (s_new - s_old) <= 4 * (
            n as int) * ((m2 as int) * (m2 as int))) by (nonlinear_arith)
                requires
                    -(2 * (n as int) * ((m2 as int) * (m2 as int))) <= s_new - s_old <= 2 * (
                    n as int) * ((m2 as int) * (m2 as int)),
            ;
        }
    }
    let diff = match s_new.checked_sub(s_old) {
        Some(x) => x,
        None => {
            return None;
        },
    };
    match diff.checked_mul(2) {
        Some(x) => Some(x),
        None => None,
    }
}

/// One modularity term is symmetric in its endpoints.
proof fn lemma_q_term_sym(g: Graph, m2: int, i: int, j: int)
    requires
        g.wf(),
        0 <= i < g.node_count(),
        0 <= j < g.node_count(),
    ensures
        q_term(g, m2, i, j) == q_term(g, m2, j, i),
{
    assert(a_between(g, i, j) == a_between(g, j, i)) by {
        if g.weight(g.node_id(i), g.node_id(j)) is Some {
            assert(g.weight(g.node_id(j), g.node_id(i)) == g.weight(g.node_id(i), g.node_id(j)));
        } else {
            if g.weight(g.node_id(j), g.node_id(i)) is Some {
                assert(g.weight(g.node_id(i), g.node_id(j)) is Some);
            }
        }
    }
}

/// Sum over the first `hi` positions other than `v` of how the term against
/// `v` changes between two assignments.
spec fn col_delta(g: Graph, comm: Seq<usize>, comm2: Seq<usize>, m2: int, v: int, hi: int) -> int
    decreases hi,
{
    if hi <= 0 {
        0
    } else {
        col_delta(g, comm, comm2, m2, v, hi - 1) + (if hi - 1 != v {
            q_cont(g, comm2, m2, hi - 1, v) - q_cont(g, comm, m2, hi - 1, v)
        } else {
            0
        })
    }
}

/// Reassigning `v` changes any other row only at its `v` entry.
proof fn lemma_q_row_update(
    g: Graph,
    comm: Seq<usize>,
    comm2: Seq<usize>,
    m2: int,
    i: int,
    v: int,
    hi: int,
)
    requires
        comm2 == comm.update(v, comm2[v]),
        0 <= v < comm.len(),
        0 <= i < comm.len(),
        i != v,
        hi <= comm.len(),
    ensures
        q_row(g, comm2, m2, i, hi) == q_row(g, comm, m2, i, hi) + (if v < hi {
            q_cont(g, comm2, m2, i, v) - q_cont(g, comm, m2, i, v)
        } else {
            0
        }),
    decreases hi,
{
    if hi > 0 {
        lemma_q_row_update(g, comm, comm2, m2, i, v, hi - 1);
        if hi - 1 != v {
            assert(comm2[hi - 1] == comm[hi - 1] && comm2[i] == comm[i]);
            assert(q_cont(g, comm2, m2, i, hi - 1) == q_cont(g, comm, m2, i, hi - 1));
        }
    }
}

/// A row through `v` itself is the one-sided sum plus the diagonal term.
proof fn lemma_q_row_v(g: Graph, comm: Seq<usize>, m2: int, v: int, hi: int)
    requires
        0 <= v < comm.len(),
        hi <= comm.len(),
    ensures
        q_row(g, comm, m2, v, hi) == s_upto(g, comm, m2, v, comm[v], hi) + (if v < hi {
            q_term(g, m2, v, v)
        } else {
            0
        }),
    decreases hi,
{
    if hi > 0 {
        lemma_q_row_v(g, comm, m2, v, hi - 1);
    }
}

/// The one-sided sums ignore the entry at `v`, so reassigning `v` leaves
/// them unchanged.
proof fn lemma_s_upto_update(
    g: Graph,
    comm: Seq<usize>,
    comm2: Seq<usize>,
    m2: int,
    v: int,
    c: usize,
    hi: int,
)
    requires
        comm2 == comm.update(v, comm2[v]),
        0 <= v < comm.len(),
        hi <= comm.len(),
    ensures
        s_upto(g, comm2, m2, v, c, hi) == s_upto(g, comm, m2, v, c, hi),
    decreases hi,
{
    if hi > 0 {
        lemma_s_upto_update(g, comm, comm2, m2, v, c, hi - 1);
    }
}

/// The column deltas against `v` are the one-sided sums of the two
/// assignments, by term symmetry.
proof fn lemma_col_delta_value(
    g: Graph,
    comm: Seq<usize>,
    comm2: Seq<usize>,
    m2: int,
    v: int,
    hi: int,
)
    requires
        g.wf(),
        comm.len() == g.node_count(),
        comm2 == comm.update(v, comm2[v]),
        0 <= v < comm.len(),
        hi <= comm.len(),
    ensures
        col_delta(g, comm, comm2, m2, v, hi) == s_upto(g, comm2, m2, v, comm2[v], hi) - s_upto(
            g,
            comm,
            m2,
            v,
            comm[v],
            hi,
        ),
    decreases hi,
{
    if hi > 0 {
        lemma_col_delta_value(g, comm, comm2, m2, v, hi - 1);
        if hi - 1 != v {
            lemma_q_term_sym(g, m2, hi - 1, v);
            assert(comm2[hi - 1] == comm[hi - 1]);
        }
    }
}

/// The rows before `hi` change by row `v`'s own change plus the column
/// changes against `v`.
proof fn lemma_q_upto_move(
    g: Graph,
    comm: Seq<usize>,
    comm2: Seq<usize>,
    m2: int,
    v: int,
    hi: int,
)
    requires
        g.wf(),
        comm.len() == g.node_count(),
        comm2 == comm.update(v, comm2[v]),
        0 <= v < comm.len(),
        hi <= comm.len(),
    ensures
        q_upto(g, comm2, m2, hi) == q_upto(g, comm, m2, hi) + (if v < hi {
            q_row(g, comm2, m2, v, g.node_count() as int) - q_row(
                g,
                comm,
                m2,
                v,
                g.node_count() as int,
            )
        } else {
            0
        }) + col_delta(g, comm, comm2, m2, v, hi),
    decreases hi,
{
    if hi > 0 {
        lemma_q_upto_move(g, comm, comm2, m2, v, hi - 1);
        if hi - 1 != v {
            lemma_q_row_update(g, comm, comm2, m2, hi - 1, v, g.node_count() as int);
        }
    }
}

/// The incremental local-move delta is exact: reassigning one node changes
/// the scaled global modularity by precisely `move_delta`.
pub proof fn lemma_move_delta_exact(g: Graph, comm: Seq<usize>, m2: int, v: int, c: usize)
    requires
        g.wf(),
        comm.len() == g.node_count(),
        0 <= v < comm.len(),
    ensures
        q_scaled(g, comm.update(v, c), m2) == q_scaled(g, comm, m2) + move_delta(
            g,
            comm,
            m2,
            v,
            c,
        ),
{
    let comm2 = comm.update(v, c);
    let n = g.node_count() as int;
    assert(comm2 == comm.update(v, comm2[v]));
    lemma_q_upto_move(g, comm, comm2, m2, v, n);
    lemma_col_delta_value(g, comm, comm2, m2, v, n);
    lemma_q_row_v(g, comm, m2, v, n);
    lemma_q_row_v(g, comm2, m2, v, n);
    lemma_s_upto_update(g, comm, comm2, m2, v, c, n);
    lemma_s_upto_update(g, comm, comm2, m2, v, comm[v], n);
    assert(comm2[v] == c);
    assert(q_row(g, comm2, m2, v, n) - q_row(g, comm, m2, v, n) == s_upto(g, comm, m2, v, c, n)
        - s_upto(g, comm, m2, v, comm[v], n));
    assert(col_delta(g, comm, comm2, m2, v, n) == s_upto(g, comm, m2, v, c, n) - s_upto(
        g,
        comm,
        m2,
        v,
        comm[v],
        n,
    ));
}

/// Is `x` the id of some node of the graph?
pub open(crate) spec fn is_node_id(g: Graph, x: usize) -> bool {
    exists|p: int| 0 <= p < g.node_count() && x == g.node_id(p)
}

/// One full local-move pass, mutating the assignment in place: each node in
/// ascending position order moves into the neighbor community with the
/// largest strictly positive exact delta (smallest community id on ties).
/// A pass over a converged assignment is the identity: when the input is
/// already a local-move fixpoint the pass reports no move and returns the
/// assignment unchanged, so re-running the detector's refinement on its own
/// converged output reproduces it.
pub fn one_pass(g: &Graph, comm: &mut Vec<usize>, ks: &Vec<u128>, m2: i128) -> (r: Option<bool>)
    requires
        g.wf(),
        old(comm)@.len() == g.node_count(),
        ks@.len() == g.node_count(),
        forall|p: int| 0 <= p < g.node_count() ==> ks@[p] == k_at(*g, p),
        m2 >= 0,
        m2 == m2_of(*g, g.node_count() as int),
        forall|i: int| 0 <= i < g.node_count() ==> is_node_id(*g, #[trigger] old(comm)@[i]),
    ensures
        final(comm)@.len() == g.node_count(),
        forall|i: int| 0 <= i < g.node_count() ==> is_node_id(*g, #[trigger] final(comm)@[i]),
        r matches Some(moved) ==> {
            &&& (!moved ==> final(comm)@ == old(comm)@ && stable(*g, final(comm)@, m2 as int))
            &&& (stable(*g, old(comm)@, m2 as int) ==> !moved)
            &&& (moved ==> q_scaled(*g, final(comm)@, m2 as int) > q_scaled(
                *g,
                old(comm)@,
                m2 as int,
            ))
        },
        4 * g.node_count() * ((m2 as int) * (m2 as int)) <= i128::MAX ==> r is Some,
{
    let n = g.num_nodes();
    let mut moved: bool = false;
    let mut v: usize = 0;
    while v < n
        invariant
            v <= n,
            n == g.node_count(),
            g.wf(),
            comm@.len() == n,
            ks@.len() == n,
            forall|p: int| 0 <= p < g.node_count() ==> ks@[p] == k_at(*g, p),
            m2 >= 0,
            m2 == m2_of(*g, g.node_count() as int),
            forall|i: int| 0 <= i < n ==> is_node_id(*g, #[trigger] comm@[i]),
            !moved ==> comm@ == old(comm)@,
            moved ==> q_scaled(*g, comm@, m2 as int) > q_scaled(*g, old(comm)@, m2 as int),
            !moved ==> (forall|vv: int, jj: int|
                0 <= vv < v && 0 <= jj < g.deg_at(vv) ==> (forall|p: int|
                    0 <= p < n && g.node_id(p) == (#[trigger] g.nbr(vv, jj)).0 ==> move_delta(
                        *g,
                        comm@,
                        m2 as int,
                        vv,
                        comm@[p],
                    ) <= 0)),
            stable(*g, old(comm)@, m2 as int) ==> !moved,
        decreases n - v,
    {
        let a = comm[v];
        let best_c = match find_best_community(g, comm, ks, m2, v) {
            Some(c) => c,
            None => {
                return None;
            },
        };
        if best_c != a {
            proof {
                if stable(*g, old(comm)@, m2 as int) && !moved {
                    assert(forall|jj: int|
                        0 <= jj < g.deg_at(v as int) ==> (forall|p: int|
                            0 <= p < n && g.node_id(p) == (#[trigger] g.nbr(v as int, jj)).0
                                ==> move_delta(*g, comm@, m2 as int, v as int, comm@[p]) <= 0));
                    assert(false);
                }
            }
            let ghost comm0 = comm@;
            let slot = vstd::std_specs::vec::vec_index_mut(comm, v);
            *slot = best_c;
            moved = true;
            proof {
                assert(comm@ =~= comm0.update(v as int, best_c));
                lemma_move_delta_exact(*g, comm0, m2 as int, v as int, best_c);
                assert(q_scaled(*g, comm@, m2 as int) == q_scaled(*g, comm0, m2 as int)
                    + move_delta(*g, comm0, m2 as int, v as int, best_c));
                assert forall|i: int| 0 <= i < n implies is_node_id(*g, #[trigger] comm@[i]) by {
                    if i == v as int {
                        let pp = choose|pp: int| 0 <= pp < n && #[trigger] comm0[pp] == best_c;
                        assert(is_node_id(*g, comm0[pp]));
                        assert(comm@[i] == best_c);
                    } else {
                        assert(comm@[i] == comm0[i]);
                        assert(is_node_id(*g, comm0[i]));
                    }
                }
            }
        } else {
            proof {
                if !moved {
                    assert forall|vv: int, jj: int|
                        0 <= vv < v + 1 && 0 <= jj < g.deg_at(vv) implies (forall|p: int|
                        0 <= p < n && g.node_id(p) == (#[trigger] g.nbr(vv, jj)).0 ==> move_delta(
                            *g,
                            comm@,
                            m2 as int,
                            vv,
                            comm@[p],
                        ) <= 0) by {}
                }
            }
        }
        v = v + 1;
    }
    proof {
        if !moved {
            assert(stable(*g, comm@, m2 as int));
        }
    }
    Some(moved)
}

/// The local-move rule of the detector, for one node: among the communities
/// of v's current neighbors, the one whose exact move delta is the largest
/// and strictly positive, ties broken by the smallest community id; v's own
/// community when no neighbor community strictly improves.
pub fn find_best_community(
    g: &Graph,
    comm: &Vec<usize>,
    ks: &Vec<u128>,
    m2: i128,
    v: usize,
) -> (r: Option<usize>)
    requires
        g.wf(),
        comm@.len() == g.node_count(),
        ks@.len() == g.node_count(),
        forall|p: int| 0 <= p < g.node_count() ==> ks@[p] == k_at(*g, p),
        v < g.node_count(),
        m2 >= 0,
        m2 == m2_of(*g, g.node_count() as int),
    ensures
        r matches Some(c) ==> {
            &&& ((c == comm@[v as int]) <==> (forall|jj: int|
                0 <= jj < g.deg_at(v as int) ==> (forall|p: int|
                    0 <= p < g.node_count() && g.node_id(p) == (#[trigger] g.nbr(v as int, jj)).0
                        ==> move_delta(*g, comm@, m2 as int, v as int, comm@[p]) <= 0)))
            &&& (c != comm@[v as int] ==> {
                &&& move_delta(*g, comm@, m2 as int, v as int, c) > 0
                &&& (exists|jj: int, p: int|
                    0 <= jj < g.deg_at(v as int) && 0 <= p < g.node_count() && g.node_id(p) == (
                    #[trigger] g.nbr(v as int, jj)).0 && #[trigger] comm@[p] == c)
                &&& (forall|jj: int|
                    0 <= jj < g.deg_at(v as int) ==> (forall|p: int|
                        0 <= p < g.node_count() && g.node_id(p) == (#[trigger] g.nbr(
                            v as int,
                            jj,
                        )).0 ==> move_delta(*g, comm@, m2 as int, v as int, comm@[p])
                            <= move_delta(*g, comm@, m2 as int, v as int, c)))
                &&& (forall|jj: int|
                    0 <= jj < g.deg_at(v as int) ==> (forall|p: int|
                        0 <= p < g.node_count() && g.node_id(p) == (#[trigger] g.nbr(
                            v as int,
                            jj,
                        )).0 && move_delta(*g, comm@, m2 as int, v as int, comm@[p]) == move_delta(
                            *g,
                            comm@,
                            m2 as int,
                            v as int,
                            c,
                        ) ==> c <= comm@[p]))
            })
        },
        4 * g.node_count() * ((m2 as int) * (m2 as int)) <= i128::MAX ==> r is Some,
{
    let n = g.num_nodes();
    let a = comm[v];
    let mut best_c: usize = a;
    let mut best_d: i128 = 0;
    let d = g.degree_at(v);
    let mut j: usize = 0;
    while j < d
        invariant
            j <= d,
            v < n,
            n == g.node_count(),
            g.wf(),
            comm@.len() == n,
            ks@.len() == n,
            forall|p: int| 0 <= p < g.node_count() ==> ks@[p] == k_at(*g, p),
            m2 >= 0,
            m2 == m2_of(*g, g.node_count() as int),
            d == g.deg_at(v as int),
            a == comm@[v as int],
            best_d >= 0,
            best_d == 0 ==> best_c == a,
            best_d > 0 ==> best_d == move_delta(*g, comm@, m2 as int, v as int, best_c) && (exists|
                jj: int,
                p: int,
            |
                0 <= jj < g.deg_at(v as int) && 0 <= p < n && g.node_id(p) == (#[trigger] g.nbr(
                    v as int,
                    jj,
                )).0 && #[trigger] comm@[p] == best_c),
            forall|jj: int|
                0 <= jj < j ==> (forall|p: int|
                    0 <= p < n && g.node_id(p) == (#[trigger] g.nbr(v as int, jj)).0 ==> move_delta(
                        *g,
                        comm@,
                        m2 as int,
                        v as int,
                        comm@[p],
                    ) <= best_d),
            best_d > 0 ==> (forall|jj: int|
                0 <= jj < j ==> (forall|p: int|
                    0 <= p < n && g.node_id(p) == (#[trigger] g.nbr(v as int, jj)).0 && move_delta(
                        *g,
                        comm@,
                        m2 as int,
                        v as int,
                        comm@[p],
                    ) == best_d ==> best_c <= comm@[p])),
        decreases d - j,
    {
        let y = g.neighbor_at(v, j).0;
        proof {
            g.lemma_at(v as int);
            assert(g.weight(g.node_id(v as int), y) is Some);
        }
        let p = match g.find_node(y) {
            Some(p) => p,
            None => {
                proof {
                    assert(g.has_node(y));
                }
                unreached()
            },
        };
        let c = comm[p];
        let dd = match move_delta_exec(g, comm, ks, m2, v, c) {
            Some(x) => x,
            None => {
                return None;
            },
        };
        proof {
            assert(g.nbr(v as int, j as int).0 == y);
            assert(g.node_id(p as int) == y);
            assert(0 <= (p as int) && (p as int) < n && comm@[p as int] == c);
            assert forall|p2: int|
                0 <= p2 < n && g.node_id(p2) == (g.nbr(v as int, j as int)).0 implies comm@[p2]
                == c by {
                crate::path::lemma_id_unique(*g, p2, p as int);
            }
        }
        if dd > best_d || (dd == best_d && dd > 0 && c < best_c) {
            best_c = c;
            best_d = dd;
        }
        j = j + 1;
    }
    proof {
        if best_d == 0 {
            assert(best_c == a);
            assert(move_delta(*g, comm@, m2 as int, v as int, a) == 0);
        } else {
            assert(best_c != a) by {
                if best_c == a {
                    assert(move_delta(*g, comm@, m2 as int, v as int, a) == 0);
                }
            }
        }
    }
    Some(best_c)
}

/// The whole exact scaled-modularity computation stays inside the 128-bit
/// range: a size bound on the node count and the total edge mass under
/// which the detector is guaranteed to succeed.
pub open(crate) spec fn q_in_range(g: Graph) -> bool {
    (g.node_count() * g.node_count() + 4 * g.node_count() + 1) * (m2_of(
        g,
        g.node_count() as int,
    ) * m2_of(g, g.node_count() as int) + 1) <= i128::MAX
}

proof fn lemma_q_in_range_facts(g: Graph)
    requires
        q_in_range(g),
    ensures
        m2_of(g, g.node_count() as int) <= i128::MAX,
        (g.node_count() * g.node_count()) * (m2_of(g, g.node_count() as int) * m2_of(
            g,
            g.node_count() as int,
        )) <= i128::MAX,
        4 * g.node_count() * (m2_of(g, g.node_count() as int) * m2_of(
            g,
            g.node_count() as int,
        )) <= i128::MAX,
{
    let n = g.node_count() as int;
    let m2 = m2_of(g, g.node_count() as int) as int;
    assert(m2 <= m2 * m2 + 1) by (nonlinear_arith)
        requires
            m2 >= 0,
    ;
    assert((m2 * m2 + 1) <= (n * n + 4 * n + 1) * (m2 * m2 + 1)) by (nonlinear_arith)
        requires
            n >= 0,
            m2 >= 0,
    ;
    assert((n * n) * (m2 * m2) <= (n * n + 4 * n + 1) * (m2 * m2 + 1)) by (nonlinear_arith)
        requires
            n >= 0,
            m2 >= 0,
    ;
    assert(4 * n * (m2 * m2) <= (n * n + 4 * n + 1) * (m2 * m2 + 1)) by (nonlinear_arith)
        requires
            n >= 0,
            m2 >= 0,
    ;
}

/// Greedy modularity community detection. Every node starts in its own
/// community; local-move passes run until one makes no move or the exact
/// global modularity stops increasing. Returns (node id, community id)
/// pairs in ascending node-id order; every community id is itself the id of
/// some node, and the returned partition is a local-move fixpoint, so
/// re-running the refinement on it reproduces it unchanged. Fails only when
/// the exact scaled-modularity arithmetic leaves the 128-bit range, and
/// never while the graph is small enough for it to fit.
pub fn louvain_community_detection(g: &Graph) -> (r: Result<
    Vec<(usize, usize)>,
    crate::graph::AnalyticsError,
>)
    requires
        g.wf(),
    ensures
        match r {
            Ok(pairs) => {
                &&& pairs@.len() == g.node_count()
                &&& (forall|i: int|
                    0 <= i < pairs@.len() ==> (#[trigger] pairs@[i]).0 == g.node_id(i))
                &&& (forall|i: int|
                    0 <= i < pairs@.len() ==> is_node_id(*g, (#[trigger] pairs@[i]).1))
                &&& stable(
                    *g,
                    pairs@.map_values(|pr: (usize, usize)| pr.1),
                    m2_of(*g, g.node_count() as int) as int,
                )
            },
            Err(e) => e == crate::graph::AnalyticsError::Overflow,
        },
        q_in_range(*g) ==> r is Ok,
{
    proof {
        if q_in_range(*g) {
            lemma_q_in_range_facts(*g);
        }
    }
    let n = g.num_nodes();
    let (ks, m2u) = match degree_table(g) {
        Some(t) => t,
        None => {
            return Err(crate::graph::AnalyticsError::Overflow);
        },
    };
    if m2u > i128::MAX as u128 {
        return Err(crate::graph::AnalyticsError::Overflow);
    }
    let m2 = m2u as i128;
    let mut comm: Vec<usize> = Vec::new();
    let mut i: usize = 0;
    while i < n
        invariant
            i <= n,
            n == g.node_count(),
            g.wf(),
            comm@.len() == i,
            forall|j: int| 0 <= j < i ==> #[trigger] comm@[j] == g.node_id(j),
        decreases n - i,
    {
        comm.push(g.node_id_at(i));
        i = i + 1;
    }
    proof {
        assert forall|j: int| 0 <= j < n implies is_node_id(*g, #[trigger] comm@[j]) by {
            assert(comm@[j] == g.node_id(j));
        }
    }
    let mut q = match scaled_modularity(g, &comm, &ks, m2) {
        Some(v) => v,
        None => {
            return Err(crate::graph::AnalyticsError::Overflow);
        },
    };
    let mut converged: bool = false;
    while !converged
        invariant
            n == g.node_count(),
            g.wf(),
            comm@.len() == n,
            ks@.len() == n,
            forall|p: int| 0 <= p < g.node_count() ==> ks@[p] == k_at(*g, p),
            m2 >= 0,
            m2 == m2_of(*g, g.node_count() as int),
            forall|j: int| 0 <= j < n ==> is_node_id(*g, #[trigger] comm@[j]),
            q == q_scaled(*g, comm@, m2 as int),
            converged ==> stable(*g, comm@, m2 as int),
        decreases i128::MAX - q + (if converged {
            0int
        } else {
            1int
        }),
    {
        let ghost comm_before = comm@;
        let moved = match one_pass(g, &mut comm, &ks, m2) {
            Some(m) => m,
            None => {
                return Err(crate::graph::AnalyticsError::Overflow);
            },
        };
        if !moved {
            converged = true;
        } else {
            let new_q = match scaled_modularity(g, &comm, &ks, m2) {
                Some(v) => v,
                None => {
                    return Err(crate::graph::AnalyticsError::Overflow);
                },
            };
            if new_q <= q {
                // unreachable: with exact arithmetic every pass that moved
                // has strictly raised the global modularity, so the spec's
                // non-increase stop rule never fires; the no-move rule
                // alone ends the loop, on a local-move fixpoint
                proof {
                    assert(q_scaled(*g, comm@, m2 as int) > q_scaled(*g, comm_before, m2 as int));
                    assert(false);
                }
                converged = true;
            } else {
                q = new_q;
            }
        }
    }
    let mut pairs: Vec<(usize, usize)> = Vec::new();
    let mut i: usize = 0;
    while i < n
        invariant
            i <= n,
            n == g.node_count(),
            g.wf(),
            comm@.len() == n,
            forall|j: int| 0 <= j < n ==> is_node_id(*g, #[trigger] comm@[j]),
            stable(*g, comm@, m2 as int),
            m2 >= 0,
            m2 == m2_of(*g, g.node_count() as int),
            pairs@.len() == i,
            forall|j: int| 0 <= j < i ==> (#[trigger] pairs@[j]).0 == g.node_id(j),
            forall|j: int| 0 <= j < i ==> is_node_id(*g, (#[trigger] pairs@[j]).1),
            forall|j: int| 0 <= j < i ==> (#[trigger] pairs@[j]).1 == comm@[j],
        decreases n - i,
    {
        pairs.push((g.node_id_at(i), comm[i]));
        i = i + 1;
    }
    proof {
        assert(pairs@.map_values(|pr: (usize, usize)| pr.1) =~= comm@);
    }
    Ok(pairs)
}

/// Merging two communities that share no edge cannot increase the exact
/// scaled modularity: the only newly within-community pairs contribute
/// `-k_i * k_j`, which is never positive.
pub proof fn lemma_merge_communities_no_gain(
    g: Graph,
    comm: Seq<usize>,
    comm2: Seq<usize>,
    m2: int,
    c1: usize,
    c2: usize,
)
    requires
        g.wf(),
        m2 >= 0,
        comm.len() == g.node_count(),
        comm2.len() == g.node_count(),
        c1 != c2,
        forall|i: int|
            0 <= i < comm.len() ==> #[trigger] comm2[i] == (if comm[i] == c2 {
                c1
            } else {
                comm[i]
            }),
        // no edge joins the two communities
        forall|i: int, j: int|
            0 <= i < comm.len() && 0 <= j < comm.len() && comm[i] == c1 && comm[j] == c2
                ==> !(#[trigger] g.has_edge(g.node_id(i), g.node_id(j))),
    ensures
        q_scaled(g, comm2, m2) <= q_scaled(g, comm, m2),
{
    let n = g.node_count() as int;
    assert forall|i: int, j: int|
        0 <= i < n && 0 <= j < n implies #[trigger] q_cont(g, comm2, m2, i, j) <= q_cont(
        g,
        comm,
        m2,
        i,
        j,
    ) by {
        if comm[i] == comm[j] {
            assert(comm2[i] == comm2[j]);
        } else if comm2[i] == comm2[j] {
            // a pair joined by the merge spans c1 and c2, so it has no edge
            assert((comm[i] == c1 && comm[j] == c2) || (comm[i] == c2 && comm[j] == c1));
            if comm[i] == c1 && comm[j] == c2 {
                assert(!g.has_edge(g.node_id(i), g.node_id(j)));
            } else {
                assert(!g.has_edge(g.node_id(j), g.node_id(i)));
                if g.has_edge(g.node_id(i), g.node_id(j)) {
                    assert(g.weight(g.node_id(i), g.node_id(j)) is Some);
                    assert(g.weight(g.node_id(j), g.node_id(i)) is Some);
                }
            }
            assert(a_between(g, i, j) == 0);
            assert(k_at(g, i) * k_at(g, j) >= 0) by (nonlinear_arith)
                requires
                    k_at(g, i) >= 0,
                    k_at(g, j) >= 0,
            ;
            assert(m2 * a_between(g, i, j) == 0) by (nonlinear_arith)
                requires
                    a_between(g, i, j) == 0,
            ;
            assert(q_term(g, m2, i, j) <= 0);
        }
    }
    lemma_q_upto_le(g, comm, comm2, m2, n);
}

proof fn lemma_q_upto_le(g: Graph, comm: Seq<usize>, comm2: Seq<usize>, m2: int, hi: int)
    requires
        forall|i: int, j: int|
            0 <= i < g.node_count() && 0 <= j < g.node_count() ==> #[trigger] q_cont(
                g,
                comm2,
                m2,
                i,
                j,
            ) <= q_cont(g, comm, m2, i, j),
        hi <= g.node_count(),
    ensures
        q_upto(g, comm2, m2, hi) <= q_upto(g, comm, m2, hi),
    decreases hi,
{
    if hi > 0 {
        lemma_q_upto_le(g, comm, comm2, m2, hi - 1);
        lemma_q_row_le_direct(g, comm, comm2, m2, hi - 1, g.node_count() as int);
    }
}

proof fn lemma_q_row_le_direct(
    g: Graph,
    comm: Seq<usize>,
    comm2: Seq<usize>,
    m2: int,
    i: int,
    hi: int,
)
    requires
        forall|a: int, j: int|
            0 <= a < g.node_count() && 0 <= j < g.node_count() ==> #[trigger] q_cont(
                g,
                comm2,
                m2,
                a,
                j,
            ) <= q_cont(g, comm, m2, a, j),
        0 <= i < g.node_count(),
        hi <= g.node_count(),
    ensures
        q_row(g, comm2, m2, i, hi) <= q_row(g, comm, m2, i, hi),
    decreases hi,
{
    if hi > 0 {
        lemma_q_row_le_direct(g, comm, comm2, m2, i, hi - 1);
    }
}

} // verus!
