//! Read-only statistical queries over a graph snapshot: degree statistics,
//! degree distribution, clustering measures and common-neighbor overlap.

use vstd::prelude::*;

use crate::graph::{
    find_w, keys, sorted_strict, sum_lens, AnalyticsError, Graph,
};
use crate::ratio::Ratio;

verus! {

/// Number of occurrences of `x` in a sequence.
pub open spec fn cnt(s: Seq<usize>, x: usize) -> nat
    decreases s.len(),
{
    if s.len() == 0 {
        0
    } else {
        (if s[0] == x {
            1nat
        } else {
            0nat
        }) + cnt(s.skip(1), x)
    }
}

pub proof fn lemma_cnt_push(s: Seq<usize>, v: usize, x: usize)
    ensures
        cnt(s.push(v), x) == cnt(s, x) + (if v == x {
            1nat
        } else {
            0nat
        }),
    decreases s.len(),
{
    if s.len() == 0 {
        assert(s.push(v).len() == 1);
        assert(s.push(v)[0] == v);
        assert(s.push(v).skip(1) =~= Seq::<usize>::empty());
        assert(cnt(s.push(v).skip(1), x) == 0);
        assert(cnt(s, x) == 0);
        assert(cnt(s.push(v), x) == (if v == x {
            1nat
        } else {
            0nat
        }) + cnt(s.push(v).skip(1), x));
    } else {
        assert(s.push(v)[0] == s[0]);
        assert(s.push(v).skip(1) =~= s.skip(1).push(v));
        lemma_cnt_push(s.skip(1), v, x);
        assert(cnt(s.push(v), x) == (if s[0] == x {
            1nat
        } else {
            0nat
        }) + cnt(s.skip(1).push(v), x));
        assert(cnt(s, x) == (if s[0] == x {
            1nat
        } else {
            0nat
        }) + cnt(s.skip(1), x));
    }
}

pub proof fn lemma_cnt_le_len(s: Seq<usize>, x: usize)
    ensures
        cnt(s, x) <= s.len(),
    decreases s.len(),
{
    if s.len() > 0 {
        lemma_cnt_le_len(s.skip(1), x);
    }
}

/// The degrees of all nodes, in ascending node-id order.
pub open(crate) spec fn degree_seq(g: Graph) -> Seq<usize> {
    Seq::new(g.node_count(), |i: int| g.deg_at(i) as usize)
}

/// Add one to the count of `k` in a sorted histogram association list.
fn assoc_bump(r: &mut Vec<(usize, usize)>, k: usize)
    requires
        sorted_strict(keys(old(r)@)),
        match find_w(old(r)@, k) {
            Some(c) => c < usize::MAX,
            None => true,
        },
    ensures
        sorted_strict(keys(final(r)@)),
        forall|x: usize| x != k ==> #[trigger] find_w(final(r)@, x) == find_w(old(r)@, x),
        find_w(final(r)@, k) == Some(
            (match find_w(old(r)@, k) {
                Some(c) => c + 1,
                None => 1,
            }) as usize,
        ),
{
    let ghost s0 = r@;
    let (found, i) = crate::graph::assoc_search(r, k);
    if found {
        proof {
            crate::graph::lemma_find_w_at(s0, i as int);
        }
        let c = r[i].1;
        let entry = vstd::std_specs::vec::vec_index_mut(r, i);
        entry.1 = c + 1;
        proof {
            let s1 = r@;
            assert(s1 =~= s0.update(i as int, (k, (c + 1) as usize)));
            assert(keys(s1) =~= keys(s0));
            crate::graph::lemma_find_w_at(s1, i as int);
            assert forall|x: usize| x != k implies #[trigger] find_w(s1, x) == find_w(s0, x) by {
                if find_w(s0, x) is Some {
                    crate::graph::lemma_find_w_some(s0, x);
                    let j = choose|j: int|
                        0 <= j < s0.len() && s0[j].0 == x && s0[j].1 == find_w(s0, x).unwrap();
                    assert(j != i);
                    assert(s1[j] == s0[j]);
                    crate::graph::lemma_find_w_at(s1, j);
                    crate::graph::lemma_find_w_at(s0, j);
                } else {
                    assert forall|j: int| 0 <= j < s0.len() implies s0[j].0 != x by {
                        if s0[j].0 == x {
                            crate::graph::lemma_find_w_at(s0, j);
                        }
                    }
                    assert(forall|j: int| 0 <= j < s1.len() ==> s1[j].0 != x);
                    crate::graph::lemma_find_w_none(s1, x);
                }
            }
        }
    } else {
        proof {
            assert forall|j: int| 0 <= j < s0.len() implies s0[j].0 != k by {}
            crate::graph::lemma_find_w_none(s0, k);
        }
        r.insert(i, (k, 1));
        proof {
            let s1 = r@;
            assert(s1 =~= s0.insert(i as int, (k, 1usize)));
            assert(keys(s1) =~= keys(s0).insert(i as int, k));
            assert(sorted_strict(keys(s1))) by {
                assert(forall|j: int|
                    0 <= j < keys(s1).len() ==> keys(s1)[j] == (if j < i {
                        keys(s0)[j]
                    } else if j == i {
                        k
                    } else {
                        keys(s0)[j - 1]
                    }));
            }
            assert(s1[i as int] == (k, 1usize));
            crate::graph::lemma_find_w_at(s1, i as int);
            assert forall|x: usize| x != k implies #[trigger] find_w(s1, x) == find_w(s0, x) by {
                if find_w(s0, x) is Some {
                    crate::graph::lemma_find_w_some(s0, x);
                    let j = choose|j: int|
                        0 <= j < s0.len() && s0[j].0 == x && s0[j].1 == find_w(s0, x).unwrap();
                    if j < i {
                        assert(s1[j] == s0[j]);
                        crate::graph::lemma_find_w_at(s1, j);
                    } else {
                        assert(s1[j + 1] == s0[j]);
                        crate::graph::lemma_find_w_at(s1, j + 1);
                    }
                    crate::graph::lemma_find_w_at(s0, j);
                } else {
                    assert forall|j: int| 0 <= j < s0.len() implies s0[j].0 != x by {
                        if s0[j].0 == x {
                            crate::graph::lemma_find_w_at(s0, j);
                        }
                    }
                    assert forall|j: int| 0 <= j < s1.len() implies s1[j].0 != x by {
                        if j < i {
                            assert(s1[j] == s0[j]);
                        } else if j > i {
                            assert(s1[j] == s0[j - 1]);
                        }
                    }
                    crate::graph::lemma_find_w_none(s1, x);
                }
            }
        }
    }
}

/// Histogram of a value sequence as a sorted (value, occurrence count) list.
fn histogram(vals: &Vec<usize>) -> (r: Vec<(usize, usize)>)
    ensures
        sorted_strict(keys(r@)),
        forall|d: usize|
            match #[trigger] find_w(r@, d) {
                Some(c) => c == cnt(vals@, d) && c >= 1,
                None => cnt(vals@, d) == 0,
            },
{
    let n = vals.len();
    let mut r: Vec<(usize, usize)> = Vec::new();
    let mut i: usize = 0;
    proof {
        assert(forall|d: usize| cnt(vals@.take(0), d) == 0) by {
            assert(vals@.take(0) =~= Seq::<usize>::empty());
        }
    }
    while i < n
        invariant
            i <= n,
            sorted_strict(keys(r@)),
            forall|d: usize|
                match #[trigger] find_w(r@, d) {
                    Some(c) => c == cnt(vals@.take(i as int), d) && c >= 1,
                    None => cnt(vals@.take(i as int), d) == 0,
                },
        decreases n - i,
    {
        let v = vals[i];
        proof {
            lemma_cnt_le_len(vals@.take(i as int), v);
        }
        assoc_bump(&mut r, v);
        proof {
            assert(vals@.take(i + 1) =~= vals@.take(i as int).push(v));
            assert forall|d: usize|
                match #[trigger] find_w(r@, d) {
                    Some(c) => c == cnt(vals@.take(i + 1), d) && c >= 1,
                    None => cnt(vals@.take(i + 1), d) == 0,
                } by {
                lemma_cnt_push(vals@.take(i as int), v, d);
            }
        }
        i = i + 1;
    }
    proof {
        assert(vals@.take(n as int) =~= vals@);
    }
    r
}

/// Average degree as an exact fraction: degree sum over node count.
/// An empty graph yields the defined value 0/1.
pub fn get_avg_dg(g: &Graph) -> (r: Ratio)
    requires
        g.wf(),
    ensures
        r.wf(),
        g.node_count() > 0 ==> r.num == g.sum_degrees() && r.den == g.node_count(),
        g.node_count() == 0 ==> r.num == 0 && r.den == 1,
{
    let n = g.num_nodes();
    if n == 0 {
        Ratio::zero()
    } else {
        Ratio::new(g.sum_degrees_exec() as u128, n as u128)
    }
}

/// Maximum node degree; 0 on the empty graph (a defined degenerate value
/// rather than a fault).
pub fn get_max_dg(g: &Graph) -> (r: usize)
    requires
        g.wf(),
    ensures
        forall|u: usize| g.has_node(u) ==> g.degree(u) <= r,
        g.node_count() > 0 ==> exists|u: usize| g.has_node(u) && g.degree(u) == r,
        g.node_count() == 0 ==> r == 0,
{
    let n = g.num_nodes();
    let mut best: usize = 0;
    let mut i: usize = 0;
    while i < n
        invariant
            i <= n,
            n == g.node_count(),
            forall|j: int| 0 <= j < i ==> g.deg_at(j) <= best,
            best != 0 ==> exists|j: int| 0 <= j < i && g.deg_at(j) == best,
            i == 0 ==> best == 0,
            best == 0 ==> (forall|j: int| 0 <= j < i ==> g.deg_at(j) == 0),
        decreases n - i,
    {
        let d = g.degree_at(i);
        if d > best {
            best = d;
        }
        i = i + 1;
    }
    proof {
        assert forall|u: usize| g.has_node(u) implies g.degree(u) <= best by {
            g.lemma_node_position(u);
            let j = choose|j: int|
                0 <= j < g.node_count() && g.node_id(j) == u && g.adj_of(u) == Some(
                    #[trigger] g.adj_seq_at(j),
                );
            assert(g.degree(u) == g.deg_at(j));
        }
        if n > 0 {
            if best != 0 {
                let j = choose|j: int| 0 <= j < n && g.deg_at(j) == best;
                g.lemma_at(j);
                assert(g.has_node(g.node_id(j)) && g.degree(g.node_id(j)) == best);
            } else {
                g.lemma_at(0);
                assert(g.has_node(g.node_id(0)) && g.degree(g.node_id(0)) == best);
            }
        }
    }
    best
}

/// Degree distribution: (degree, node count) pairs sorted by degree
/// ascending; a degree appears exactly when some node has it.
pub fn get_dg_dis(g: &Graph) -> (r: Vec<(usize, usize)>)
    requires
        g.wf(),
    ensures
        sorted_strict(keys(r@)),
        forall|d: usize|
            match #[trigger] find_w(r@, d) {
                Some(c) => c == cnt(degree_seq(*g), d) && c >= 1,
                None => cnt(degree_seq(*g), d) == 0,
            },
{
    let n = g.num_nodes();
    let mut vals: Vec<usize> = Vec::new();
    let mut i: usize = 0;
    while i < n
        invariant
            i <= n,
            n == g.node_count(),
            vals@.len() == i,
            forall|j: int| 0 <= j < i ==> vals@[j] == g.deg_at(j),
        decreases n - i,
    {
        vals.push(g.degree_at(i));
        i = i + 1;
    }
    proof {
        assert(vals@ =~= degree_seq(*g));
    }
    histogram(&vals)
}

/// Among the first `hi` entries of adjacency list `a`, how many after
/// position `i` are adjacent to the neighbor at position `i`.
pub open(crate) spec fn tri_row(g: Graph, a: Seq<(usize, usize)>, i: int, hi: int) -> nat
    decreases hi - i,
{
    if hi <= i + 1 {
        0
    } else {
        tri_row(g, a, i, hi - 1) + (if g.has_edge(a[i].0, a[hi - 1].0) {
            1nat
        } else {
            0nat
        })
    }
}

/// Adjacent neighbor pairs (i, j), i < j, with i below `k`.
pub open(crate) spec fn tri_upto(g: Graph, a: Seq<(usize, usize)>, k: int) -> nat
    decreases k,
{
    if k <= 0 {
        0
    } else {
        tri_upto(g, a, k - 1) + tri_row(g, a, k - 1, a.len() as int)
    }
}

/// Triangles through `u`: unordered pairs of u's neighbors that are adjacent.
pub open(crate) spec fn triangles(g: Graph, u: usize) -> nat {
    match g.adj_of(u) {
        Some(a) => tri_upto(g, a, a.len() as int),
        None => 0,
    }
}

/// The local clustering coefficient of `u` as an exact fraction:
/// triangles over possible neighbor pairs; 0/1 for degree below 2 or an
/// absent node.
pub open(crate) spec fn coef_of(g: Graph, u: usize) -> Ratio {
    if g.degree(u) < 2 {
        Ratio { num: 0, den: 1 }
    } else {
        Ratio {
            num: (2 * triangles(g, u)) as u128,
            den: (g.degree(u) * (g.degree(u) - 1)) as u128,
        }
    }
}

proof fn lemma_tri_row_bound(g: Graph, a: Seq<(usize, usize)>, i: int, hi: int)
    requires
        i >= 0,
    ensures
        tri_row(g, a, i, hi) <= (if hi <= i + 1 {
            0int
        } else {
            hi - i - 1
        }),
    decreases hi - i,
{
    if hi > i + 1 {
        lemma_tri_row_bound(g, a, i, hi - 1);
    }
}

proof fn lemma_tri_upto_bound(g: Graph, a: Seq<(usize, usize)>, k: int)
    requires
        0 <= k <= a.len(),
    ensures
        2 * tri_upto(g, a, k) <= k * (2 * a.len() - k - 1),
    decreases k,
{
    if k > 0 {
        lemma_tri_upto_bound(g, a, k - 1);
        lemma_tri_row_bound(g, a, k - 1, a.len() as int);
        assert((k - 1) * (2 * a.len() - k) + 2 * (a.len() - k) == k * (2 * a.len() - k - 1)) by (nonlinear_arith);
    }
}

/// Local clustering coefficient of `node`: an exact fraction in [0, 1],
/// equal to 0 when the node is absent or has fewer than two neighbors.
pub fn get_cl_coef(g: &Graph, node: usize) -> (r: Ratio)
    requires
        g.wf(),
    ensures
        r == coef_of(*g, node),
        r.wf(),
        r.num <= r.den,
        g.degree(node) < 2 ==> r.num == 0,
{
    let pos = match g.find_node(node) {
        Some(p) => p,
        None => {
            return Ratio::zero();
        },
    };
    proof {
        g.lemma_at(pos as int);
    }
    let d = g.degree_at(pos);
    if d < 2 {
        return Ratio::zero();
    }
    let ghost a = g.adj_seq_at(pos as int);
    let mut count: u128 = 0;
    let mut i: usize = 0;
    while i < d
        invariant
            i <= d,
            d == a.len(),
            a == g.adj_seq_at(pos as int),
            pos < g.node_count(),
            g.node_id(pos as int) == node,
            g.wf(),
            count == tri_upto(*g, a, i as int),
            2 * count <= (i as int) * (2 * a.len() - i - 1),
        decreases d - i,
    {
        let mut j: usize = i + 1;
        proof {
            assert(tri_row(*g, a, i as int, j as int) == 0);
        }
        while j < d
            invariant
                i < j <= d,
                d == a.len(),
                a == g.adj_seq_at(pos as int),
                pos < g.node_count(),
                g.node_id(pos as int) == node,
                g.wf(),
                count == tri_upto(*g, a, i as int) + tri_row(*g, a, i as int, j as int),
                2 * count <= (i as int) * (2 * a.len() - i - 1) + 2 * (j - i - 1),
            decreases d - j,
        {
            let x = g.neighbor_at(pos, i).0;
            let y = g.neighbor_at(pos, j).0;
            if g.lookup_weight(x, y).is_some() {
                proof {
                    assert(usize::MAX <= u64::MAX);
                    assert(2 * (count + 1) <= (i as int) * (2 * a.len() - i - 1) + 2 * (j + 1 - i
                        - 1)) by (nonlinear_arith)
                        requires
                            2 * count <= (i as int) * (2 * a.len() - i - 1) + 2 * (j - i - 1),
                            i < j < a.len(),
                    ;
                    assert((i as int) * (2 * a.len() - i - 1) + 2 * (a.len() - i - 1) < u128::MAX)
                        by (nonlinear_arith)
                        requires
                            0 <= i as int <= a.len(),
                            a.len() <= u64::MAX,
                    ;
                }
                count = count + 1;
            }
            j = j + 1;
        }
        proof {
            assert(tri_upto(*g, a, i + 1) == tri_upto(*g, a, i as int) + tri_row(
                *g,
                a,
                i as int,
                a.len() as int,
            ));
            assert((i as int) * (2 * a.len() - i - 1) + 2 * (a.len() - i - 1) == (i + 1) * (2
                * a.len() - (i + 1) - 1)) by (nonlinear_arith);
        }
        i = i + 1;
    }
    proof {
        assert(usize::MAX <= u64::MAX);
        assert(triangles(*g, node) == tri_upto(*g, a, a.len() as int));
        lemma_tri_upto_bound(*g, a, a.len() as int);
        assert(2 * count <= a.len() * (a.len() - 1)) by (nonlinear_arith)
            requires
                2 * count <= (a.len() as int) * (2 * a.len() - a.len() - 1),
        ;
        assert(g.degree(node) == d);
        assert((d as int) * ((d - 1) as int) < u128::MAX) by (nonlinear_arith)
            requires
                0 < d <= u64::MAX,
        ;
    }
    let den = (d as u128) * ((d - 1) as u128);
    proof {
        assert(den >= 2) by (nonlinear_arith)
            requires
                den == (d as u128) * ((d - 1) as u128),
                d >= 2,
        ;
    }
    let num = 2 * count;
    Ratio::new(num, den)
}

/// Among the first `k` entries of adjacency list `a`, how many neighbors are
/// also adjacent to `v`.
pub open(crate) spec fn cm(g: Graph, a: Seq<(usize, usize)>, v: usize, k: int) -> nat
    decreases k,
{
    if k <= 0 {
        0
    } else {
        cm(g, a, v, k - 1) + (if g.has_edge(v, a[k - 1].0) {
            1nat
        } else {
            0nat
        })
    }
}

/// Size of the common-neighbor set of `u` and `v`.
pub open(crate) spec fn common(g: Graph, u: usize, v: usize) -> nat {
    match g.adj_of(u) {
        Some(a) => cm(g, a, v, a.len() as int),
        None => 0,
    }
}

pub proof fn lemma_cm_le(g: Graph, a: Seq<(usize, usize)>, v: usize, k: int)
    ensures
        cm(g, a, v, k) <= (if k >= 0 {
            k
        } else {
            0int
        }),
    decreases k,
{
    if k > 0 {
        lemma_cm_le(g, a, v, k - 1);
    }
}

/// Count the common neighbors of `u` and `v`: u's neighbors that are also
/// adjacent to `v`.
pub fn count_common(g: &Graph, u: usize, v: usize) -> (r: usize)
    requires
        g.wf(),
    ensures
        r == common(*g, u, v),
        r <= g.degree(u),
{
    let pos = match g.find_node(u) {
        Some(p) => p,
        None => {
            return 0;
        },
    };
    proof {
        g.lemma_at(pos as int);
        lemma_cm_le(*g, g.adj_seq_at(pos as int), v, g.adj_seq_at(pos as int).len() as int);
    }
    let ghost a = g.adj_seq_at(pos as int);
    let d = g.degree_at(pos);
    let mut c: usize = 0;
    let mut j: usize = 0;
    while j < d
        invariant
            j <= d,
            d == a.len(),
            a == g.adj_seq_at(pos as int),
            pos < g.node_count(),
            g.node_id(pos as int) == u,
            g.wf(),
            c == cm(*g, a, v, j as int),
            c <= j,
        decreases d - j,
    {
        let x = g.neighbor_at(pos, j).0;
        if g.lookup_weight(v, x).is_some() {
            c = c + 1;
        }
        j = j + 1;
    }
    c
}

/// The unnormalized triangle-adjacency count of `u`: over all neighbors `w`
/// of `u`, the number of entries of w's neighbor list that also lie in u's
/// neighbor set.
pub open(crate) spec fn ce_from(g: Graph, a: Seq<(usize, usize)>, u: usize, k: int) -> nat
    decreases k,
{
    if k <= 0 {
        0
    } else {
        ce_from(g, a, u, k - 1) + common(g, a[k - 1].0, u)
    }
}

pub open(crate) spec fn clustering_count(g: Graph, u: usize) -> nat {
    match g.adj_of(u) {
        Some(a) => ce_from(g, a, u, a.len() as int),
        None => 0,
    }
}

/// Clustering-effect count of the node at position `pos`.
fn ce_node(g: &Graph, pos: usize) -> (r: u128)
    requires
        g.wf(),
        pos < g.node_count(),
    ensures
        r == clustering_count(*g, g.node_id(pos as int)),
{
    let ghost u = g.node_id(pos as int);
    let ghost a = g.adj_seq_at(pos as int);
    proof {
        g.lemma_at(pos as int);
    }
    let d = g.degree_at(pos);
    let mut acc: u128 = 0;
    let mut j: usize = 0;
    while j < d
        invariant
            j <= d,
            d == a.len(),
            a == g.adj_seq_at(pos as int),
            pos < g.node_count(),
            u == g.node_id(pos as int),
            g.wf(),
            acc == ce_from(*g, a, u, j as int),
            acc <= (j as u128) * (usize::MAX as u128),
        decreases d - j,
    {
        let w = g.neighbor_at(pos, j).0;
        let c = count_common(g, w, g.node_id_at(pos));
        proof {
            assert(acc + c <= (j as u128 + 1) * (usize::MAX as u128)) by (nonlinear_arith)
                requires
                    acc <= (j as u128) * (usize::MAX as u128),
                    c <= usize::MAX as u128,
            ;
            assert((j as u128 + 1) * (usize::MAX as u128) <= (u64::MAX as u128) * (u64::MAX
                as u128)) by (nonlinear_arith)
                requires
                    j as u128 + 1 <= u64::MAX as u128,
                    usize::MAX as u128 <= u64::MAX as u128,
            ;
        }
        acc = acc + (c as u128);
        j = j + 1;
    }
    acc
}

/// Total clustering-effect count over the first `k` nodes.
pub open(crate) spec fn ce_total(g: Graph, k: int) -> nat
    decreases k,
{
    if k <= 0 {
        0
    } else {
        ce_total(g, k - 1) + clustering_count(g, g.node_id(k - 1))
    }
}

pub proof fn lemma_ce_total_mono(g: Graph, j: int, k: int)
    requires
        j <= k,
    ensures
        ce_total(g, j) <= ce_total(g, k),
    decreases k - j,
{
    if j < k {
        lemma_ce_total_mono(g, j, k - 1);
    }
}

/// Average clustering effect: the mean over all nodes of the per-node
/// triangle-adjacency count, as an exact fraction. Overflow of the exact
/// total beyond the 128-bit range is reported, never silently wrapped.
pub fn get_cl_ef(g: &Graph) -> (r: Result<Ratio, AnalyticsError>)
    requires
        g.wf(),
    ensures
        match r {
            Ok(q) => {
                &&& q.wf()
                &&& ce_total(*g, g.node_count() as int) <= u128::MAX
                &&& g.node_count() > 0 ==> q.num == ce_total(*g, g.node_count() as int) && q.den
                    == g.node_count()
                &&& g.node_count() == 0 ==> q.num == 0 && q.den == 1
            },
            Err(e) => e == AnalyticsError::Overflow && ce_total(*g, g.node_count() as int)
                > u128::MAX,
        },
{
    let n = g.num_nodes();
    if n == 0 {
        return Ok(Ratio::zero());
    }
    let mut acc: u128 = 0;
    let mut i: usize = 0;
    while i < n
        invariant
            i <= n,
            n == g.node_count(),
            g.wf(),
            acc == ce_total(*g, i as int),
        decreases n - i,
    {
        let c = ce_node(g, i);
        if acc > u128::MAX - c {
            proof {
                lemma_ce_total_mono(*g, i + 1, n as int);
            }
            return Err(AnalyticsError::Overflow);
        }
        acc = acc + c;
        i = i + 1;
    }
    Ok(Ratio::new(acc, n as u128))
}

/// All local clustering coefficients, one exact fraction per node, in
/// ascending node-id order.
pub fn get_all_cl_coef(g: &Graph) -> (r: Vec<Ratio>)
    requires
        g.wf(),
    ensures
        r@.len() == g.node_count(),
        forall|i: int| 0 <= i < r@.len() ==> r@[i] == coef_of(*g, g.node_id(i)),
        forall|i: int| 0 <= i < r@.len() ==> (#[trigger] r@[i]).wf() && r@[i].num <= r@[i].den,
{
    let n = g.num_nodes();
    let mut r: Vec<Ratio> = Vec::new();
    let mut i: usize = 0;
    while i < n
        invariant
            i <= n,
            n == g.node_count(),
            g.wf(),
            r@.len() == i,
            forall|j: int| 0 <= j < i ==> r@[j] == coef_of(*g, g.node_id(j)),
            forall|j: int| 0 <= j < i ==> (#[trigger] r@[j]).wf() && r@[j].num <= r@[j].den,
        decreases n - i,
    {
        let u = g.node_id_at(i);
        let c = get_cl_coef(g, u);
        r.push(c);
        i = i + 1;
    }
    r
}

/// The per-node clustering-effect counts in ascending node-id order.
pub open(crate) spec fn ce_seq(g: Graph) -> Seq<usize> {
    Seq::new(g.node_count(), |i: int| clustering_count(g, g.node_id(i)) as usize)
}

/// Distribution of the per-node clustering-effect counts: a sorted
/// (count value, number of nodes) histogram.
pub fn get_cl_ds(g: &Graph) -> (r: Result<Vec<(usize, usize)>, AnalyticsError>)
    requires
        g.wf(),
    ensures
        match r {
            Ok(h) => {
                &&& sorted_strict(keys(h@))
                &&& (forall|i: int|
                    0 <= i < g.node_count() ==> clustering_count(*g, #[trigger] g.node_id(i))
                        <= usize::MAX)
                &&& (forall|d: usize|
                    match #[trigger] find_w(h@, d) {
                        Some(c) => c == cnt(ce_seq(*g), d) && c >= 1,
                        None => cnt(ce_seq(*g), d) == 0,
                    })
            },
            Err(e) => e == AnalyticsError::Overflow && exists|i: int|
                0 <= i < g.node_count() && clustering_count(*g, #[trigger] g.node_id(i))
                    > usize::MAX,
        },
{
    let n = g.num_nodes();
    let mut vals: Vec<usize> = Vec::new();
    let mut i: usize = 0;
    while i < n
        invariant
            i <= n,
            n == g.node_count(),
            g.wf(),
            vals@.len() == i,
            forall|j: int|
                0 <= j < i ==> vals@[j] == clustering_count(*g, #[trigger] g.node_id(j))
                    && clustering_count(*g, g.node_id(j)) <= usize::MAX,
        decreases n - i,
    {
        let c = ce_node(g, i);
        if c > usize::MAX as u128 {
            return Err(AnalyticsError::Overflow);
        }
        vals.push(c as usize);
        i = i + 1;
    }
    proof {
        assert(vals@ =~= ce_seq(*g));
    }
    Ok(histogram(&vals))
}

/// Common-neighbor count summed over the first `k` partners of `u`.
pub open(crate) spec fn cm_row(g: Graph, u: usize, k: int) -> nat
    decreases k,
{
    if k <= 0 {
        0
    } else {
        cm_row(g, u, k - 1) + common(g, u, g.node_id(k - 1))
    }
}

/// Common-neighbor count summed over all ordered pairs with both positions
/// below `k` for the first component.
pub open(crate) spec fn cm_total(g: Graph, k: int) -> nat
    decreases k,
{
    if k <= 0 {
        0
    } else {
        cm_total(g, k - 1) + cm_row(g, g.node_id(k - 1), g.node_count() as int)
    }
}

/// Degree sum over the first `k` node positions.
pub open(crate) spec fn deg_psum(g: Graph, k: int) -> nat
    decreases k,
{
    if k <= 0 {
        0
    } else {
        deg_psum(g, k - 1) + g.deg_at(k - 1)
    }
}

proof fn lemma_deg_psum_skip(g: Graph, k: int)
    requires
        0 <= k <= g.nodes@.len(),
    ensures
        deg_psum(g, k) + sum_lens(g.nodes@.skip(k)) == sum_lens(g.nodes@),
    decreases k,
{
    if k == 0 {
        assert(g.nodes@.skip(0) =~= g.nodes@);
    } else {
        lemma_deg_psum_skip(g, k - 1);
        assert(g.nodes@.skip(k - 1)[0] == g.nodes@[k - 1]);
        assert(g.nodes@.skip(k - 1).skip(1) =~= g.nodes@.skip(k));
        assert(sum_lens(g.nodes@.skip(k - 1)) == g.deg_at(k - 1) + sum_lens(g.nodes@.skip(k)));
    }
}

/// The degree partial sums never exceed the full degree sum.
pub proof fn lemma_deg_psum_le(g: Graph, k: int)
    requires
        0 <= k <= g.node_count(),
    ensures
        deg_psum(g, k) <= g.sum_degrees(),
    decreases g.node_count() as int - k,
{
    if k == g.node_count() as int {
        lemma_deg_psum_skip(g, k);
        assert(g.nodes@.skip(k) =~= Seq::<(usize, Vec<(usize, usize)>)>::empty());
    } else {
        lemma_deg_psum_le(g, k + 1);
    }
}

pub proof fn lemma_cm_row_bound(g: Graph, u: usize, k: int)
    requires
        g.wf(),
        k >= 0,
    ensures
        cm_row(g, u, k) <= k * g.degree(u),
    decreases k,
{
    if k > 0 {
        lemma_cm_row_bound(g, u, k - 1);
        lemma_cm_le(g, match g.adj_of(u) {
            Some(a) => a,
            None => Seq::empty(),
        }, g.node_id(k - 1), g.degree(u) as int);
        assert(common(g, u, g.node_id(k - 1)) <= g.degree(u));
        assert((k - 1) * g.degree(u) + g.degree(u) == k * g.degree(u)) by (nonlinear_arith);
    }
}

pub proof fn lemma_cm_total_bound(g: Graph, k: int)
    requires
        g.wf(),
        0 <= k <= g.node_count(),
    ensures
        cm_total(g, k) <= g.node_count() * deg_psum(g, k),
    decreases k,
{
    if k > 0 {
        lemma_cm_total_bound(g, k - 1);
        lemma_cm_row_bound(g, g.node_id(k - 1), g.node_count() as int);
        g.lemma_at(k - 1);
        assert(g.degree(g.node_id(k - 1)) == g.deg_at(k - 1));
        assert(g.node_count() * deg_psum(g, k - 1) + g.node_count() * g.deg_at(k - 1)
            == g.node_count() * deg_psum(g, k)) by (nonlinear_arith)
            requires
                deg_psum(g, k) == deg_psum(g, k - 1) + g.deg_at(k - 1),
        ;
    }
}

/// Average common-neighbor count over all n * n ordered node pairs (self
/// pairs included), as an exact fraction; 0/1 on the empty graph.
pub fn get_avg_cm_nb(g: &Graph) -> (r: Ratio)
    requires
        g.wf(),
    ensures
        r.wf(),
        g.node_count() > 0 ==> r.num == cm_total(*g, g.node_count() as int) && r.den
            == g.node_count() * g.node_count(),
        g.node_count() == 0 ==> r.num == 0 && r.den == 1,
{
    let n = g.num_nodes();
    if n == 0 {
        return Ratio::zero();
    }
    proof {
        assert((n as u128) * (n as u128) > 0) by (nonlinear_arith)
            requires
                n > 0,
        ;
    }
    let mut acc: u128 = 0;
    let mut i: usize = 0;
    while i < n
        invariant
            i <= n,
            n == g.node_count(),
            g.wf(),
            acc == cm_total(*g, i as int),
        decreases n - i,
    {
        let u = g.node_id_at(i);
        let mut row: u128 = 0;
        let mut j: usize = 0;
        while j < n
            invariant
                j <= n,
                i < n,
                n == g.node_count(),
                g.wf(),
                u == g.node_id(i as int),
                acc == cm_total(*g, i as int),
                row == cm_row(*g, u, j as int),
                row <= (j as u128) * (usize::MAX as u128),
            decreases n - j,
        {
            let v = g.node_id_at(j);
            let c = count_common(g, u, v);
            proof {
                assert(row + c <= (j as u128 + 1) * (usize::MAX as u128)) by (nonlinear_arith)
                    requires
                        row <= (j as u128) * (usize::MAX as u128),
                        c <= usize::MAX as u128,
                ;
                assert((j as u128 + 1) * (usize::MAX as u128) <= (u64::MAX as u128) * (u64::MAX
                    as u128)) by (nonlinear_arith)
                    requires
                        j as u128 + 1 <= u64::MAX as u128,
                        usize::MAX as u128 <= u64::MAX as u128,
                ;
            }
            row = row + (c as u128);
            j = j + 1;
        }
        proof {
            lemma_cm_total_bound(*g, i + 1);
            lemma_deg_psum_le(*g, i + 1);
            assert(g.node_count() * deg_psum(*g, i + 1) <= (u64::MAX as u128) * (u64::MAX as u128))
                by (nonlinear_arith)
                requires
                    g.node_count() <= u64::MAX as u128,
                    deg_psum(*g, i + 1) <= g.sum_degrees(),
                    g.sum_degrees() <= u64::MAX as u128,
            ;
        }
        acc = acc + row;
        i = i + 1;
    }
    proof {
        assert(0 < (n as u128) * (n as u128) <= u128::MAX) by (nonlinear_arith)
            requires
                0 < n as u128 <= u64::MAX as u128,
        ;
    }
    let den = (n as u128) * (n as u128);
    Ratio::new(acc, den)
}

/// Maximum common-neighbor count over unordered node pairs (self pairs
/// included); 0 on the empty graph.
pub fn get_max_cm_ng(g: &Graph) -> (r: usize)
    requires
        g.wf(),
    ensures
        forall|i: int, j: int|
            0 <= i <= j < g.node_count() ==> #[trigger] common(*g, g.node_id(i), g.node_id(j))
                <= r,
        g.node_count() > 0 ==> exists|i: int, j: int|
            0 <= i <= j < g.node_count() && #[trigger] common(*g, g.node_id(i), g.node_id(j))
                == r,
        g.node_count() == 0 ==> r == 0,
{
    let n = g.num_nodes();
    let mut best: usize = 0;
    let mut have: bool = false;
    let ghost mut bi: int = 0;
    let ghost mut bj: int = 0;
    let mut i: usize = 0;
    while i < n
        invariant
            i <= n,
            n == g.node_count(),
            g.wf(),
            forall|a: int, b: int|
                0 <= a < i && a <= b < n ==> #[trigger] common(*g, g.node_id(a), g.node_id(b))
                    <= best,
            have ==> 0 <= bi <= bj < n && common(*g, g.node_id(bi), g.node_id(bj)) == best,
            !have ==> best == 0 && i == 0,
            n > 0 && i > 0 ==> have,
        decreases n - i,
    {
        let u = g.node_id_at(i);
        let mut j: usize = i;
        while j < n
            invariant
                i <= j <= n,
                i < n,
                n == g.node_count(),
                g.wf(),
                u == g.node_id(i as int),
                forall|a: int, b: int|
                    0 <= a < i && a <= b < n ==> #[trigger] common(*g, g.node_id(a), g.node_id(b))
                        <= best,
                forall|b: int|
                    i <= b < j ==> #[trigger] common(*g, g.node_id(i as int), g.node_id(b))
                        <= best,
                have ==> 0 <= bi <= bj < n && common(*g, g.node_id(bi), g.node_id(bj)) == best,
                !have ==> best == 0 && i == 0 && j == i,
            decreases n - j,
        {
            let v = g.node_id_at(j);
            let c = count_common(g, u, v);
            if !have || c > best {
                best = c;
                have = true;
                proof {
                    bi = i as int;
                    bj = j as int;
                }
            }
            j = j + 1;
        }
        i = i + 1;
    }
    best
}

/// Denominator of the exact (unreduced) sum of the first `k` clustering
/// coefficients: the product of their denominators.
pub open(crate) spec fn csum_den(g: Graph, k: int) -> int
    decreases k,
{
    if k <= 0 {
        1
    } else {
        csum_den(g, k - 1) * coef_of(g, g.node_id(k - 1)).den
    }
}

/// Numerator of the exact (unreduced) sum of the first `k` clustering
/// coefficients over the denominator `csum_den`.
pub open(crate) spec fn csum_num(g: Graph, k: int) -> int
    decreases k,
{
    if k <= 0 {
        0
    } else {
        csum_num(g, k - 1) * coef_of(g, g.node_id(k - 1)).den + coef_of(g, g.node_id(k - 1)).num
            * csum_den(g, k - 1)
    }
}

/// The clustering-coefficient fraction always has a positive denominator.
pub proof fn lemma_coef_den_pos(g: Graph, u: usize)
    requires
        g.wf(),
    ensures
        coef_of(g, u).den >= 1,
{
    if g.degree(u) >= 2 {
        g.lemma_node_position(u);
        let i = choose|i: int|
            0 <= i < g.node_count() && g.node_id(i) == u && g.adj_of(u) == Some(
                #[trigger] g.adj_seq_at(i),
            );
        g.lemma_deg_at_bound(i);
        assert(g.degree(u) <= usize::MAX);
        assert(2 <= g.degree(u) * (g.degree(u) - 1) < 0x1_0000_0000_0000_0000_0000_0000_0000_0000)
            by (nonlinear_arith)
            requires
                2 <= g.degree(u) <= u64::MAX,
        ;
    }
}

pub proof fn lemma_csum_den_pos(g: Graph, k: int)
    requires
        g.wf(),
        k <= g.node_count(),
    ensures
        csum_den(g, k) >= 1,
    decreases k,
{
    if k > 0 {
        lemma_csum_den_pos(g, k - 1);
        lemma_coef_den_pos(g, g.node_id(k - 1));
        assert(csum_den(g, k - 1) * coef_of(g, g.node_id(k - 1)).den >= 1) by (nonlinear_arith)
            requires
                csum_den(g, k - 1) >= 1,
                coef_of(g, g.node_id(k - 1)).den >= 1,
        ;
    }
}

pub proof fn lemma_csum_den_mono(g: Graph, j: int, k: int)
    requires
        g.wf(),
        0 <= j <= k <= g.node_count(),
    ensures
        csum_den(g, j) <= csum_den(g, k),
    decreases k - j,
{
    if j < k {
        lemma_csum_den_mono(g, j, k - 1);
        lemma_csum_den_pos(g, k - 1);
        lemma_coef_den_pos(g, g.node_id(k - 1));
        assert(csum_den(g, k - 1) <= csum_den(g, k - 1) * coef_of(g, g.node_id(k - 1)).den)
            by (nonlinear_arith)
            requires
                csum_den(g, k - 1) >= 1,
                coef_of(g, g.node_id(k - 1)).den >= 1,
        ;
    }
}

/// Average local clustering coefficient over all nodes, as an exact
/// fraction. Fails only when the exact running sum leaves the 128-bit
/// range; whenever even the unreduced products fit, it succeeds.
#[verifier::rlimit(60)]
pub fn get_avg_cl_coef(g: &Graph) -> (r: Result<Ratio, AnalyticsError>)
    requires
        g.wf(),
    ensures
        match r {
            Ok(q) => {
                &&& q.wf()
                &&& (g.node_count() == 0 ==> q.num == 0 && q.den == 1)
                &&& (g.node_count() > 0 ==> q.num * (csum_den(*g, g.node_count() as int)
                    * g.node_count()) == csum_num(*g, g.node_count() as int) * q.den)
            },
            Err(e) => e == AnalyticsError::Overflow,
        },
        (g.node_count() + 1) * csum_den(*g, g.node_count() as int) <= u128::MAX ==> r is Ok,
{
    let n = g.num_nodes();
    if n == 0 {
        return Ok(Ratio::zero());
    }
    proof {
        lemma_csum_den_pos(*g, n as int);
    }
    let mut acc = Ratio::zero();
    let mut i: usize = 0;
    while i < n
        invariant
            i <= n,
            n == g.node_count(),
            g.wf(),
            acc.wf(),
            acc.num * csum_den(*g, i as int) == csum_num(*g, i as int) * acc.den,
            acc.den <= csum_den(*g, i as int),
            acc.num <= (i as int) * acc.den,
        decreases n - i,
    {
        let u = g.node_id_at(i);
        let c = get_cl_coef(g, u);
        let ghost di = csum_den(*g, i as int);
        let ghost ni = csum_num(*g, i as int);
        proof {
            lemma_csum_den_pos(*g, i as int);
            if (g.node_count() + 1) * csum_den(*g, n as int) <= u128::MAX {
                // the unreduced products all fit, so the addition succeeds
                lemma_csum_den_mono(*g, i + 1, n as int);
                lemma_csum_den_pos(*g, i + 1);
                assert(csum_den(*g, n as int) <= (g.node_count() + 1) * csum_den(*g, n as int))
                    by (nonlinear_arith)
                    requires
                        csum_den(*g, n as int) >= 1,
                        g.node_count() >= 0,
                ;
                assert(acc.den * c.den <= di * c.den) by (nonlinear_arith)
                    requires
                        acc.den <= di,
                        c.den >= 1,
                        acc.den >= 1,
                        di >= 1,
                ;
                assert(acc.num * c.den + c.num * acc.den <= ((i as int) + 1) * (di * c.den))
                    by (nonlinear_arith)
                    requires
                        acc.num <= (i as int) * acc.den,
                        c.num <= c.den,
                        acc.den <= di,
                        acc.den >= 1,
                        c.den >= 1,
                        di >= 1,
                        acc.num >= 0,
                        c.num >= 0,
                ;
                assert(((i as int) + 1) * (di * c.den) <= (g.node_count() + 1) * csum_den(
                    *g,
                    n as int,
                )) by (nonlinear_arith)
                    requires
                        di * c.den == csum_den(*g, i + 1),
                        csum_den(*g, i + 1) <= csum_den(*g, n as int),
                        csum_den(*g, i + 1) >= 1,
                        (i as int) + 1 <= g.node_count() + 1,
                        csum_den(*g, n as int) >= 1,
                ;
            }
        }
        let z = match crate::ratio::ratio_add(acc, c) {
            Some(z) => z,
            None => {
                return Err(AnalyticsError::Overflow);
            },
        };
        proof {
            let d1 = csum_den(*g, i + 1);
            let n1 = csum_num(*g, i + 1);
            assert(d1 == di * c.den && n1 == ni * c.den + c.num * di);
            let sboth = acc.num * c.den + c.num * acc.den;
            assert(z.num * (acc.den * c.den) * di == sboth * z.den * di) by (nonlinear_arith)
                requires
                    z.num * (acc.den * c.den) == sboth * z.den,
            ;
            assert(sboth * di == acc.den * n1) by (nonlinear_arith)
                requires
                    sboth == acc.num * c.den + c.num * acc.den,
                    acc.num * di == ni * acc.den,
                    n1 == ni * c.den + c.num * di,
            ;
            assert((z.num * d1) * acc.den == (n1 * z.den) * acc.den) by (nonlinear_arith)
                requires
                    z.num * (acc.den * c.den) * di == sboth * z.den * di,
                    sboth * di == acc.den * n1,
                    d1 == di * c.den,
            ;
            assert(z.num * d1 == n1 * z.den) by (nonlinear_arith)
                requires
                    (z.num * d1) * acc.den == (n1 * z.den) * acc.den,
                    acc.den >= 1,
            ;
            assert(z.den <= d1) by (nonlinear_arith)
                requires
                    z.den <= acc.den * c.den,
                    acc.den <= di,
                    c.den >= 1,
                    d1 == di * c.den,
            ;
            assert(z.num <= ((i as int) + 1) * z.den) by (nonlinear_arith)
                requires
                    z.num * (acc.den * c.den) == (acc.num * c.den + c.num * acc.den) * z.den,
                    acc.num <= (i as int) * acc.den,
                    c.num <= c.den,
                    acc.den >= 1,
                    c.den >= 1,
                    z.den >= 1,
                    z.num >= 0,
            ;
        }
        acc = z;
        i = i + 1;
    }
    proof {
        lemma_csum_den_pos(*g, n as int);
        if (g.node_count() + 1) * csum_den(*g, n as int) <= u128::MAX {
            assert(acc.den * (n as int) <= (g.node_count() + 1) * csum_den(*g, n as int))
                by (nonlinear_arith)
                requires
                    acc.den <= csum_den(*g, n as int),
                    n as int <= g.node_count() + 1,
                    acc.den >= 1,
                    csum_den(*g, n as int) >= 1,
                    n >= 1,
            ;
        }
    }
    let den = match acc.den.checked_mul(n as u128) {
        Some(v) => v,
        None => {
            return Err(AnalyticsError::Overflow);
        },
    };
    proof {
        assert(den >= 1) by (nonlinear_arith)
            requires
                den == acc.den * (n as int),
                acc.den >= 1,
                n >= 1,
        ;
        assert(acc.num * (csum_den(*g, n as int) * (n as int)) == csum_num(*g, n as int) * den)
            by (nonlinear_arith)
            requires
                acc.num * csum_den(*g, n as int) == csum_num(*g, n as int) * acc.den,
                den == acc.den * (n as int),
        ;
    }
    Ok(Ratio::new(acc.num, den))
}

/// Sum of coefficient numerators (twice the triangle counts) over the first
/// `k` nodes whose degree is exactly `d`.
pub open(crate) spec fn tri2_sum(g: Graph, d: usize, k: int) -> int
    decreases k,
{
    if k <= 0 {
        0
    } else {
        tri2_sum(g, d, k - 1) + (if g.deg_at(k - 1) == d {
            coef_of(g, g.node_id(k - 1)).num as int
        } else {
            0
        })
    }
}

pub proof fn lemma_tri2_sum_mono(g: Graph, d: usize, j: int, k: int)
    requires
        j <= k,
    ensures
        tri2_sum(g, d, j) <= tri2_sum(g, d, k),
    decreases k - j,
{
    if j < k {
        lemma_tri2_sum_mono(g, d, j, k - 1);
    }
}

/// The exact per-degree computation overflows for this degree group.
pub open(crate) spec fn deg_group_overflows(g: Graph, d: usize) -> bool {
    ||| tri2_sum(g, d, g.node_count() as int) > u128::MAX
    ||| cnt(degree_seq(g), d) * (d as int) * ((d - 1) as int) > u128::MAX
}

/// Average clustering coefficient per degree group, sorted by degree
/// ascending: for each degree present in the graph, the exact mean of the
/// coefficients of its nodes. Fails exactly when some degree group's exact
/// sum or denominator leaves the 128-bit range.
pub fn get_cl_ef_dis(g: &Graph) -> (r: Result<Vec<(usize, Ratio)>, AnalyticsError>)
    requires
        g.wf(),
    ensures
        r is Err <==> exists|d: usize|
            cnt(degree_seq(*g), d) >= 1 && d >= 2 && #[trigger] deg_group_overflows(*g, d),
        match r {
            Ok(v) => {
                &&& sorted_strict(keys(v@))
                &&& (forall|j: int|
                    0 <= j < v@.len() ==> cnt(degree_seq(*g), (#[trigger] v@[j]).0) >= 1)
                &&& (forall|d: usize|
                    cnt(degree_seq(*g), d) >= 1 ==> keys(v@).contains(d))
                &&& (forall|j: int|
                    0 <= j < v@.len() && (#[trigger] v@[j]).0 < 2 ==> v@[j].1.num == 0
                        && v@[j].1.den == 1)
                &&& (forall|j: int|
                    0 <= j < v@.len() && (#[trigger] v@[j]).0 >= 2 ==> v@[j].1.num == tri2_sum(
                        *g,
                        v@[j].0,
                        g.node_count() as int,
                    ) && v@[j].1.den == cnt(degree_seq(*g), v@[j].0) * (v@[j].0 as int) * ((
                    v@[j].0 - 1) as int) && v@[j].1.wf())
            },
            Err(e) => e == AnalyticsError::Overflow,
        },
{
    let hist = get_dg_dis(g);
    let n = g.num_nodes();
    let nh = hist.len();
    let mut out: Vec<(usize, Ratio)> = Vec::new();
    let mut j: usize = 0;
    while j < nh
        invariant
            j <= nh,
            n == g.node_count(),
            g.wf(),
            nh == hist@.len(),
            sorted_strict(keys(hist@)),
            forall|d: usize|
                match #[trigger] find_w(hist@, d) {
                    Some(c) => c == cnt(degree_seq(*g), d) && c >= 1,
                    None => cnt(degree_seq(*g), d) == 0,
                },
            out@.len() == j,
            forall|m: int| 0 <= m < j ==> (#[trigger] out@[m]).0 == hist@[m].0,
            forall|m: int|
                0 <= m < j ==> cnt(degree_seq(*g), (#[trigger] out@[m]).0) >= 1,
            forall|m: int|
                0 <= m < j && (#[trigger] out@[m]).0 < 2 ==> out@[m].1.num == 0 && out@[m].1.den
                    == 1,
            forall|m: int|
                0 <= m < j && (#[trigger] out@[m]).0 >= 2 ==> out@[m].1.num == tri2_sum(
                    *g,
                    out@[m].0,
                    n as int,
                ) && out@[m].1.den == cnt(degree_seq(*g), out@[m].0) * (out@[m].0 as int) * ((
                out@[m].0 - 1) as int) && out@[m].1.wf(),
            forall|m: int|
                0 <= m < j && (#[trigger] hist@[m]).0 >= 2 ==> !deg_group_overflows(
                    *g,
                    hist@[m].0,
                ),
        decreases nh - j,
    {
        let (d, c) = hist[j];
        proof {
            crate::graph::lemma_find_w_at(hist@, j as int);
            assert(find_w(hist@, d) == Some(c));
            assert(c == cnt(degree_seq(*g), d) && c >= 1);
        }
        if d < 2 {
            out.push((d, Ratio::zero()));
        } else {
            let mut acc: u128 = 0;
            let mut i: usize = 0;
            while i < n
                invariant
                    i <= n,
                    n == g.node_count(),
                    g.wf(),
                    d >= 2,
                    c == cnt(degree_seq(*g), d) && c >= 1,
                    acc == tri2_sum(*g, d, i as int),
                decreases n - i,
            {
                if g.degree_at(i) == d {
                    let q = get_cl_coef(g, g.node_id_at(i));
                    acc = match acc.checked_add(q.num) {
                        Some(v) => v,
                        None => {
                            proof {
                                assert(tri2_sum(*g, d, i + 1) == acc + q.num);
                                lemma_tri2_sum_mono(*g, d, i + 1, n as int);
                                assert(deg_group_overflows(*g, d));
                            }
                            return Err(AnalyticsError::Overflow);
                        },
                    };
                }
                i = i + 1;
            }
            let den0 = match (c as u128).checked_mul(d as u128) {
                Some(v) => v,
                None => {
                    proof {
                        assert((c as int) * (d as int) * ((d - 1) as int) > u128::MAX)
                            by (nonlinear_arith)
                            requires
                                (c as int) * (d as int) > u128::MAX,
                                d >= 2,
                        ;
                        assert(deg_group_overflows(*g, d));
                    }
                    return Err(AnalyticsError::Overflow);
                },
            };
            let den = match den0.checked_mul((d - 1) as u128) {
                Some(v) => v,
                None => {
                    proof {
                        assert(deg_group_overflows(*g, d));
                    }
                    return Err(AnalyticsError::Overflow);
                },
            };
            proof {
                assert(!deg_group_overflows(*g, d));
            }
            proof {
                assert(den >= 1) by (nonlinear_arith)
                    requires
                        den == (c as int) * (d as int) * ((d - 1) as int),
                        c >= 1,
                        d >= 2,
                ;
            }
            out.push((d, Ratio::new(acc, den)));
        }
        proof {
            assert(keys(out@) =~= keys(hist@).take(j + 1));
            assert(sorted_strict(keys(out@)));
        }
        j = j + 1;
    }
    proof {
        assert(keys(out@) =~= keys(hist@));
        assert forall|d: usize| cnt(degree_seq(*g), d) >= 1 implies keys(out@).contains(d) by {
            assert(find_w(hist@, d) is Some);
            crate::graph::lemma_find_w_some(hist@, d);
            let m = choose|m: int|
                0 <= m < hist@.len() && hist@[m].0 == d && hist@[m].1 == find_w(hist@, d).unwrap();
            assert(keys(hist@)[m] == d);
        }
        assert forall|d: usize|
            cnt(degree_seq(*g), d) >= 1 && d >= 2 implies !(#[trigger] deg_group_overflows(
            *g,
            d,
        )) by {
            assert(find_w(hist@, d) is Some);
            crate::graph::lemma_find_w_some(hist@, d);
            let m = choose|m: int|
                0 <= m < hist@.len() && hist@[m].0 == d && hist@[m].1 == find_w(hist@, d).unwrap();
        }
    }
    Ok(out)
}

/// Exact order on fractions by cross-multiplication.
pub open spec fn ratio_le(a: Ratio, b: Ratio) -> bool {
    a.num * b.den <= b.num * a.den
}

/// The per-node coefficients in ascending node-id order.
pub open(crate) spec fn coef_seq(g: Graph) -> Seq<Ratio> {
    Seq::new(g.node_count(), |i: int| coef_of(g, g.node_id(i)))
}

/// Which equal-width bucket of `[mn, mx]` split into `bins` parts holds `c`:
/// the floor of `bins * (c - mn) / (mx - mn)`, with the top edge folded into
/// the last bucket; bucket 0 when the range is degenerate.
pub open spec fn bin_of(c: Ratio, mn: Ratio, mx: Ratio, bins: u32) -> int {
    if mx.num * mn.den == mn.num * mx.den {
        0
    } else {
        let x = (c.num * mn.den - mn.num * c.den) * mx.den * bins;
        let y = c.den * (mx.num * mn.den - mn.num * mx.den);
        if x / y >= bins {
            bins - 1
        } else {
            x / y
        }
    }
}

/// The bucket of every node's coefficient.
pub open(crate) spec fn bin_seq(g: Graph, mn: Ratio, mx: Ratio, bins: u32) -> Seq<usize> {
    Seq::new(g.node_count(), |i: int| bin_of(coef_of(g, g.node_id(i)), mn, mx, bins) as usize)
}

/// Every single coefficient denominator divides into, hence is bounded by,
/// the product of them all.
pub proof fn lemma_den_le_csum(g: Graph, i: int)
    requires
        g.wf(),
        0 <= i < g.node_count(),
    ensures
        coef_of(g, g.node_id(i)).den <= csum_den(g, g.node_count() as int),
{
    lemma_csum_den_pos(g, i);
    lemma_coef_den_pos(g, g.node_id(i));
    assert(coef_of(g, g.node_id(i)).den <= csum_den(g, i) * coef_of(g, g.node_id(i)).den)
        by (nonlinear_arith)
        requires
            csum_den(g, i) >= 1,
            coef_of(g, g.node_id(i)).den >= 1,
    ;
    lemma_csum_den_mono(g, i + 1, g.node_count() as int);
}

/// A product of two values below `d` fits whenever d^3 * bins does.
proof fn lemma_prod2_fits(d: int, bins: int, x: int, y: int)
    requires
        d >= 1,
        bins >= 1,
        d * d * d * bins <= u128::MAX,
        0 <= x <= d,
        0 <= y <= d,
    ensures
        x * y <= u128::MAX,
        x * y <= d * d,
    decreases 0int,
{
    assert(x * y <= d * d) by (nonlinear_arith)
        requires
            0 <= x <= d,
            0 <= y <= d,
    ;
    assert(d * d <= d * d * d * bins) by (nonlinear_arith)
        requires
            d >= 1,
            bins >= 1,
    ;
}

/// Exact comparison of two fractions; fails only when a cross product
/// leaves the 128-bit range, which cannot happen while both fit.
fn ratio_le_exec(a: Ratio, b: Ratio) -> (r: Result<bool, AnalyticsError>)
    ensures
        r matches Ok(v) ==> v == ratio_le(a, b),
        r matches Err(e) ==> e == AnalyticsError::Overflow,
        (a.num * b.den <= u128::MAX && b.num * a.den <= u128::MAX) ==> r is Ok,
{
    let lhs = match a.num.checked_mul(b.den) {
        Some(v) => v,
        None => {
            return Err(AnalyticsError::Overflow);
        },
    };
    let rhs = match b.num.checked_mul(a.den) {
        Some(v) => v,
        None => {
            return Err(AnalyticsError::Overflow);
        },
    };
    Ok(lhs <= rhs)
}

/// Histogram of the local clustering coefficients over `bins` equal-width
/// buckets spanning the observed range [min, max]: a sorted (bucket index,
/// node count) list. Zero bins is rejected before any computation; a
/// degenerate range puts every value in bucket 0.
pub fn get_cl_coef_dis(g: &Graph, bins: u32) -> (r: Result<Vec<(usize, usize)>, AnalyticsError>)
    requires
        g.wf(),
    ensures
        bins == 0 <==> r == Err::<Vec<(usize, usize)>, AnalyticsError>(
            AnalyticsError::InvalidArgument,
        ),
        match r {
            Ok(h) => {
                &&& sorted_strict(keys(h@))
                &&& (g.node_count() == 0 ==> h@.len() == 0)
                &&& (g.node_count() > 0 ==> exists|mn: Ratio, mx: Ratio|
                    {
                        &&& #[trigger] coef_seq(*g).contains(mn)
                        &&& #[trigger] coef_seq(*g).contains(mx)
                        &&& (forall|i: int|
                            0 <= i < g.node_count() ==> ratio_le(mn, #[trigger] coef_seq(*g)[i])
                                && ratio_le(coef_seq(*g)[i], mx))
                        &&& (forall|b: usize|
                            match #[trigger] find_w(h@, b) {
                                Some(c) => c == cnt(bin_seq(*g, mn, mx, bins), b) && c >= 1,
                                None => cnt(bin_seq(*g, mn, mx, bins), b) == 0,
                            })
                    })
            },
            Err(e) => e == AnalyticsError::InvalidArgument || e == AnalyticsError::Overflow,
        },
        (bins >= 1 && csum_den(*g, g.node_count() as int) * csum_den(*g, g.node_count() as int)
            * csum_den(*g, g.node_count() as int) * (bins as int) <= u128::MAX) ==> r is Ok,
{
    if bins == 0 {
        return Err(AnalyticsError::InvalidArgument);
    }
    let n = g.num_nodes();
    if n == 0 {
        let empty: Vec<(usize, usize)> = Vec::new();
        return Ok(empty);
    }
    let ghost dd = csum_den(*g, g.node_count() as int);
    let ghost fits = dd * dd * dd * (bins as int) <= u128::MAX;
    let coefs = get_all_cl_coef(g);
    proof {
        assert(coefs@ =~= coef_seq(*g));
        assert(forall|i: int|
            0 <= i < coef_seq(*g).len() ==> (#[trigger] coef_seq(*g)[i]).wf());
        lemma_csum_den_pos(*g, n as int);
        assert forall|j: int|
            0 <= j < n implies (#[trigger] coef_seq(*g)[j]).den <= dd && coef_seq(*g)[j].num
            <= dd by {
            lemma_den_le_csum(*g, j);
            assert(coefs@[j].num <= coefs@[j].den);
        }
    }
    // the least and greatest coefficient by exact value
    let mut mn = coefs[0];
    let mut mx = coefs[0];
    let mut i: usize = 1;
    proof {
        assert(coef_seq(*g)[0] == mn);
    }
    while i < n
        invariant
            1 <= i <= n,
            n == g.node_count(),
            g.wf(),
            coefs@ == coef_seq(*g),
            coefs@.len() == n,
            coef_seq(*g).contains(mn),
            coef_seq(*g).contains(mx),
            mn.wf() && mx.wf(),
            forall|j: int| 0 <= j < n ==> (#[trigger] coef_seq(*g)[j]).wf(),
            dd == csum_den(*g, g.node_count() as int),
            dd >= 1,
            bins >= 1,
            fits == (dd * dd * dd * (bins as int) <= u128::MAX),
            forall|j: int|
                0 <= j < n ==> (#[trigger] coef_seq(*g)[j]).den <= dd && coef_seq(*g)[j].num
                    <= dd,
            mn.den <= dd && mn.num <= dd && mx.den <= dd && mx.num <= dd,
            forall|j: int|
                0 <= j < i ==> ratio_le(mn, #[trigger] coef_seq(*g)[j]) && ratio_le(
                    coef_seq(*g)[j],
                    mx,
                ),
        decreases n - i,
    {
        let c = coefs[i];
        proof {
            assert(coef_seq(*g)[i as int] == c);
            if fits {
                lemma_prod2_fits(dd, bins as int, c.num as int, mn.den as int);
                lemma_prod2_fits(dd, bins as int, mn.num as int, c.den as int);
                lemma_prod2_fits(dd, bins as int, mx.num as int, c.den as int);
                lemma_prod2_fits(dd, bins as int, c.num as int, mx.den as int);
            }
        }
        let below = match ratio_le_exec(c, mn) {
            Ok(v) => v,
            Err(e) => {
                return Err(e);
            },
        };
        if below {
            proof {
                assert forall|j: int|
                    0 <= j < i implies ratio_le(c, #[trigger] coef_seq(*g)[j]) by {
                    assert(ratio_le(mn, coef_seq(*g)[j]));
                    assert(c.num * coef_seq(*g)[j].den <= coef_seq(*g)[j].num * c.den)
                        by (nonlinear_arith)
                        requires
                            c.num * mn.den <= mn.num * c.den,
                            mn.num * coef_seq(*g)[j].den <= coef_seq(*g)[j].num * mn.den,
                            c.den >= 1,
                            mn.den >= 1,
                            coef_seq(*g)[j].den >= 1,
                            c.num >= 0,
                            mn.num >= 0,
                            coef_seq(*g)[j].num >= 0,
                    ;
                }
            }
            mn = c;
        }
        let above = match ratio_le_exec(mx, c) {
            Ok(v) => v,
            Err(e) => {
                return Err(e);
            },
        };
        if above {
            proof {
                assert forall|j: int|
                    0 <= j < i implies ratio_le(#[trigger] coef_seq(*g)[j], c) by {
                    assert(ratio_le(coef_seq(*g)[j], mx));
                    assert(coef_seq(*g)[j].num * c.den <= c.num * coef_seq(*g)[j].den)
                        by (nonlinear_arith)
                        requires
                            mx.num * c.den <= c.num * mx.den,
                            coef_seq(*g)[j].num * mx.den <= mx.num * coef_seq(*g)[j].den,
                            c.den >= 1,
                            mx.den >= 1,
                            coef_seq(*g)[j].den >= 1,
                            c.num >= 0,
                            mx.num >= 0,
                            coef_seq(*g)[j].num >= 0,
                    ;
                }
            }
            mx = c;
        }
        proof {
            assert(coef_seq(*g)[i as int] == c);
            assert(ratio_le(mn, c) && ratio_le(c, mx)) by (nonlinear_arith)
                requires
                    mn == c || c.num * mn.den > mn.num * c.den,
                    mx == c || mx.num * c.den > c.num * mx.den,
            ;
        }
        i = i + 1;
    }
    // degenerate range: everything in bucket 0
    proof {
        if fits {
            lemma_prod2_fits(dd, bins as int, mx.num as int, mn.den as int);
            lemma_prod2_fits(dd, bins as int, mn.num as int, mx.den as int);
        }
    }
    let m1 = match mx.num.checked_mul(mn.den) {
        Some(v) => v,
        None => {
            return Err(AnalyticsError::Overflow);
        },
    };
    let m2 = match mn.num.checked_mul(mx.den) {
        Some(v) => v,
        None => {
            return Err(AnalyticsError::Overflow);
        },
    };
    let mut vals: Vec<usize> = Vec::new();
    let mut i: usize = 0;
    while i < n
        invariant
            i <= n,
            n == g.node_count(),
            g.wf(),
            coefs@ == coef_seq(*g),
            coefs@.len() == n,
            mn.wf() && mx.wf(),
            forall|j: int| 0 <= j < n ==> (#[trigger] coef_seq(*g)[j]).wf(),
            forall|j: int|
                0 <= j < n ==> ratio_le(mn, #[trigger] coef_seq(*g)[j]) && ratio_le(
                    coef_seq(*g)[j],
                    mx,
                ),
            coef_seq(*g).contains(mn),
            coef_seq(*g).contains(mx),
            bins >= 1,
            m1 == mx.num * mn.den,
            m2 == mn.num * mx.den,
            dd == csum_den(*g, g.node_count() as int),
            dd >= 1,
            fits == (dd * dd * dd * (bins as int) <= u128::MAX),
            forall|j: int|
                0 <= j < n ==> (#[trigger] coef_seq(*g)[j]).den <= dd && coef_seq(*g)[j].num
                    <= dd,
            mn.den <= dd && mn.num <= dd && mx.den <= dd && mx.num <= dd,
            fits ==> m1 <= dd * dd && m2 <= dd * dd,
            vals@.len() == i,
            forall|j: int| 0 <= j < i ==> vals@[j] == bin_seq(*g, mn, mx, bins)[j],
        decreases n - i,
    {
        let c = coefs[i];
        proof {
            assert(coef_seq(*g)[i as int] == c);
            assert(ratio_le(mn, c) && ratio_le(c, mx));
        }
        if m1 == m2 {
            vals.push(0);
        } else {
            proof {
                assert(m1 > m2) by (nonlinear_arith)
                    requires
                        m1 == mx.num * mn.den,
                        m2 == mn.num * mx.den,
                        m1 != m2,
                        ratio_le(mn, mx) || (ratio_le(mn, c) && ratio_le(c, mx)),
                        mn.num * mx.den <= mx.num * mn.den || (mn.num * c.den <= c.num * mn.den
                            && c.num * mx.den <= mx.num * c.den && c.den >= 1 && mn.den >= 1
                            && mx.den >= 1),
                ;
            }
            proof {
                if fits {
                    lemma_prod2_fits(dd, bins as int, c.num as int, mn.den as int);
                    lemma_prod2_fits(dd, bins as int, mn.num as int, c.den as int);
                }
            }
            let t1 = match c.num.checked_mul(mn.den) {
                Some(v) => v,
                None => {
                    return Err(AnalyticsError::Overflow);
                },
            };
            let t2 = match mn.num.checked_mul(c.den) {
                Some(v) => v,
                None => {
                    return Err(AnalyticsError::Overflow);
                },
            };
            proof {
                assert(t1 >= t2);
                if fits {
                    assert(t1 * mx.den <= dd * dd * dd && dd * dd * dd <= dd * dd * dd * (
                    bins as int)) by (nonlinear_arith)
                        requires
                            t1 <= dd * dd,
                            mx.den <= dd,
                            dd >= 1,
                            bins >= 1,
                            t1 >= 0,
                            mx.den >= 1,
                    ;
                    assert((t1 - t2) * mx.den <= t1 * mx.den) by (nonlinear_arith)
                        requires
                            0 <= t1 - t2 <= t1,
                            mx.den >= 1,
                    ;
                }
            }
            let x0 = t1 - t2;
            let x1 = match x0.checked_mul(mx.den) {
                Some(v) => v,
                None => {
                    return Err(AnalyticsError::Overflow);
                },
            };
            proof {
                if fits {
                    assert(x1 * (bins as int) <= dd * dd * dd * (bins as int)) by (nonlinear_arith)
                        requires
                            0 <= x1 <= dd * dd * dd,
                            bins >= 1,
                    ;
                }
            }
            let x = match x1.checked_mul(bins as u128) {
                Some(v) => v,
                None => {
                    return Err(AnalyticsError::Overflow);
                },
            };
            let yd = m1 - m2;
            proof {
                if fits {
                    assert(c.den * (m1 - m2) <= dd * dd * dd && dd * dd * dd <= dd * dd * dd * (
                    bins as int)) by (nonlinear_arith)
                        requires
                            c.den <= dd,
                            0 <= m1 - m2 <= dd * dd,
                            dd >= 1,
                            bins >= 1,
                            c.den >= 1,
                    ;
                }
            }
            let y = match c.den.checked_mul(yd) {
                Some(v) => v,
                None => {
                    return Err(AnalyticsError::Overflow);
                },
            };
            proof {
                assert(y >= 1) by (nonlinear_arith)
                    requires
                        y == c.den * (m1 - m2),
                        c.den >= 1,
                        m1 > m2,
                ;
            }
            let q = x / y;
            let idx: usize = if q >= bins as u128 {
                (bins - 1) as usize
            } else {
                q as usize
            };
            proof {
                assert(idx as int == bin_of(c, mn, mx, bins));
            }
            vals.push(idx);
        }
        proof {
            assert(vals@[i as int] == bin_seq(*g, mn, mx, bins)[i as int]);
        }
        i = i + 1;
    }
    proof {
        assert(vals@ =~= bin_seq(*g, mn, mx, bins));
    }
    Ok(histogram(&vals))
}

/// Each inner list no longer than `m` bounds the degree sum by `m` per node.
proof fn lemma_sum_lens_bounded(s: Seq<(usize, Vec<(usize, usize)>)>, m: nat)
    requires
        forall|i: int| 0 <= i < s.len() ==> (#[trigger] s[i].1@).len() <= m,
    ensures
        sum_lens(s) <= m * s.len(),
    decreases s.len(),
{
    if s.len() == 0 {
    } else {
        assert(forall|i: int|
            0 <= i < s.skip(1).len() ==> (#[trigger] s.skip(1)[i].1@).len() <= m);
        lemma_sum_lens_bounded(s.skip(1), m);
        assert(m * s.len() == m * s.skip(1).len() + m) by (nonlinear_arith)
            requires
                s.len() == s.skip(1).len() + 1,
        ;
    }
}

/// The maximum degree dominates the average degree: any bound on all node
/// degrees bounds the degree sum by `node count` times it, hence
/// `max_degree >= sum_degrees / node_count` on a non-empty graph.
pub proof fn lemma_max_degree_dominates_average(g: Graph, mx: nat)
    requires
        g.wf(),
        forall|u: usize| g.has_node(u) ==> g.degree(u) <= mx,
    ensures
        g.sum_degrees() <= mx * g.node_count(),
{
    assert forall|i: int|
        0 <= i < g.nodes@.len() implies (#[trigger] g.nodes@[i].1@).len() <= mx by {
        g.lemma_at(i);
        assert(g.degree(g.node_id(i)) <= mx);
    }
    lemma_sum_lens_bounded(g.nodes@, mx);
}

} // verus!
