//! Single-pair weighted shortest paths: Dijkstra's algorithm with
//! deterministic tie-breaking (lower cumulative cost first, then smaller
//! node id, which is the scan order of the sorted node table).

use vstd::prelude::*;

use crate::graph::{find_w, Graph};

verus! {

/// A non-empty node sequence whose consecutive entries are all edges.
pub open(crate) spec fn is_path(g: Graph, p: Seq<usize>) -> bool {
    p.len() >= 1 && (forall|i: int| 0 <= i < p.len() - 1 ==> g.has_edge(#[trigger] p[i], p[i + 1]))
}

/// Sum of the edge weights along a node sequence (0 for a missing edge).
pub open(crate) spec fn path_cost(g: Graph, p: Seq<usize>) -> nat
    decreases p.len(),
{
    if p.len() <= 1 {
        0
    } else {
        (match g.weight(p[0], p[1]) {
            Some(w) => w as nat,
            None => 0,
        }) + path_cost(g, p.skip(1))
    }
}

/// A path that starts at `s` and ends at `t`.
pub open(crate) spec fn connects(g: Graph, p: Seq<usize>, s: usize, t: usize) -> bool {
    is_path(g, p) && p[0] == s && p[p.len() - 1] == t
}

pub open(crate) spec fn reachable(g: Graph, s: usize, t: usize) -> bool {
    exists|p: Seq<usize>| connects(g, p, s, t)
}

/// Appending one node adds the closing edge's weight to the cost.
pub proof fn lemma_cost_push(g: Graph, p: Seq<usize>, x: usize)
    requires
        p.len() >= 1,
    ensures
        path_cost(g, p.push(x)) == path_cost(g, p) + (match g.weight(p[p.len() - 1], x) {
            Some(w) => w as nat,
            None => 0nat,
        }),
    decreases p.len(),
{
    if p.len() == 1 {
        assert(p.push(x)[0] == p[0] && p.push(x)[1] == x);
        assert(p.push(x).skip(1) =~= seq![x]);
        assert(path_cost(g, seq![x]) == 0);
    } else {
        assert(p.push(x)[0] == p[0] && p.push(x)[1] == p[1]);
        assert(p.push(x).skip(1) =~= p.skip(1).push(x));
        lemma_cost_push(g, p.skip(1), x);
        assert(p.skip(1)[p.skip(1).len() - 1] == p[p.len() - 1]);
    }
}

/// Prepending one node adds the opening edge's weight to the cost.
pub proof fn lemma_cost_cons(g: Graph, p: Seq<usize>, x: usize)
    requires
        p.len() >= 1,
    ensures
        path_cost(g, p.insert(0, x)) == (match g.weight(x, p[0]) {
            Some(w) => w as nat,
            None => 0nat,
        }) + path_cost(g, p),
{
    assert(p.insert(0, x)[0] == x && p.insert(0, x)[1] == p[0]);
    assert(p.insert(0, x).skip(1) =~= p);
}

/// A prefix of a path never costs more than the whole.
pub proof fn lemma_cost_prefix(g: Graph, p: Seq<usize>, k: int)
    requires
        1 <= k <= p.len(),
    ensures
        path_cost(g, p.take(k)) <= path_cost(g, p),
    decreases p.len() - k,
{
    if k == p.len() {
        assert(p.take(k) =~= p);
    } else {
        lemma_cost_prefix(g, p, k + 1);
        assert(p.take(k + 1) =~= p.take(k).push(p[k]));
        lemma_cost_push(g, p.take(k), p[k]);
    }
}

/// A prefix of a path is itself a path to its last node.
pub proof fn lemma_take_connects(g: Graph, p: Seq<usize>, s: usize, t: usize, k: int)
    requires
        connects(g, p, s, t),
        1 <= k <= p.len(),
    ensures
        connects(g, p.take(k), s, p[k - 1]),
{
    assert(forall|i: int| 0 <= i < k - 1 ==> g.has_edge(#[trigger] p.take(k)[i], p.take(k)[i + 1]));
}

/// Node positions carry distinct ids.
pub(crate) proof fn lemma_id_unique(g: Graph, i: int, j: int)
    requires
        g.wf(),
        0 <= i < g.node_count(),
        0 <= j < g.node_count(),
        g.node_id(i) == g.node_id(j),
    ensures
        i == j,
{
    if i != j {
        assert(crate::graph::keys(g.nodes@)[i] == g.node_id(i));
        assert(crate::graph::keys(g.nodes@)[j] == g.node_id(j));
    }
}

/// Is the node with id `u` marked in the position-indexed visited flags?
pub open(crate) spec fn visited_id(g: Graph, vis: Seq<bool>, u: usize) -> bool {
    exists|i: int| 0 <= i < vis.len() && g.node_id(i) == u && vis[i]
}

/// Every edge out of a visited node is relaxed: the target's tentative
/// distance is at most the source's distance plus the edge weight.
pub open(crate) spec fn relaxed(g: Graph, vis: Seq<bool>, dist: Seq<Option<u128>>) -> bool {
    forall|i: int, j: int|
        0 <= i < vis.len() && vis[i] && 0 <= j < g.deg_at(i) ==> exists|k: int|
            0 <= k < dist.len() && g.node_id(k) == (#[trigger] g.nbr(i, j)).0 && dist[k] is Some
                && dist[k].unwrap() <= dist[i].unwrap() + g.nbr(i, j).1
}

pub open(crate) spec fn cnt_true(s: Seq<bool>) -> nat
    decreases s.len(),
{
    if s.len() == 0 {
        0
    } else {
        (if s[0] {
            1nat
        } else {
            0nat
        }) + cnt_true(s.skip(1))
    }
}

pub(crate) proof fn lemma_cnt_true_update(s: Seq<bool>, i: int)
    requires
        0 <= i < s.len(),
        !s[i],
    ensures
        cnt_true(s.update(i, true)) == cnt_true(s) + 1,
    decreases s.len(),
{
    if i == 0 {
        assert(s.update(0, true)[0]);
        assert(s.update(0, true).skip(1) =~= s.skip(1));
    } else {
        assert(s.update(i, true)[0] == s[0]);
        assert(s.update(i, true).skip(1) =~= s.skip(1).update(i - 1, true));
        lemma_cnt_true_update(s.skip(1), i - 1);
    }
}

pub(crate) proof fn lemma_cnt_true_full(s: Seq<bool>)
    requires
        cnt_true(s) >= s.len(),
    ensures
        forall|i: int| 0 <= i < s.len() ==> s[i],
    decreases s.len(),
{
    if s.len() > 0 {
        lemma_cnt_true_le(s.skip(1));
        lemma_cnt_true_full(s.skip(1));
        assert(forall|i: int| 1 <= i < s.len() ==> s[i] == s.skip(1)[i - 1]);
    }
}

pub(crate) proof fn lemma_cnt_true_zero(s: Seq<bool>)
    requires
        forall|i: int| 0 <= i < s.len() ==> !s[i],
    ensures
        cnt_true(s) == 0,
    decreases s.len(),
{
    if s.len() > 0 {
        lemma_cnt_true_zero(s.skip(1));
    }
}

pub(crate) proof fn lemma_cnt_true_le(s: Seq<bool>)
    ensures
        cnt_true(s) <= s.len(),
    decreases s.len(),
{
    if s.len() > 0 {
        lemma_cnt_true_le(s.skip(1));
    }
}

/// The least path position at or after `i` whose node is unvisited.
proof fn first_unvisited(g: Graph, vis: Seq<bool>, q: Seq<usize>, i: int) -> (j: int)
    requires
        0 <= i <= q.len() - 1,
        !visited_id(g, vis, q[q.len() - 1]),
    ensures
        i <= j <= q.len() - 1,
        !visited_id(g, vis, q[j]),
        forall|m: int| i <= m < j ==> visited_id(g, vis, #[trigger] q[m]),
    decreases q.len() - i,
{
    if !visited_id(g, vis, q[i]) {
        i
    } else {
        first_unvisited(g, vis, q, i + 1)
    }
}

/// Any path from `s` whose nodes before the last are all visited ends at a
/// node whose tentative distance is set and at most the path's cost.
proof fn lemma_frontier(
    g: Graph,
    s: usize,
    vis: Seq<bool>,
    dist: Seq<Option<u128>>,
    q: Seq<usize>,
    spos: int,
)
    requires
        g.wf(),
        vis.len() == g.node_count(),
        dist.len() == g.node_count(),
        0 <= spos < g.node_count(),
        g.node_id(spos) == s,
        dist[spos] == Some(0u128),
        forall|i: int| 0 <= i < vis.len() && vis[i] ==> (#[trigger] dist[i]) is Some,
        relaxed(g, vis, dist),
        is_path(g, q),
        q[0] == s,
        forall|i: int| 0 <= i < q.len() - 1 ==> visited_id(g, vis, #[trigger] q[i]),
    ensures
        exists|k: int|
            0 <= k < dist.len() && g.node_id(k) == q[q.len() - 1] && (#[trigger] dist[k]) is Some
                && dist[k].unwrap() <= path_cost(g, q),
    decreases q.len(),
{
    if q.len() == 1 {
        assert(0 <= spos < dist.len() && g.node_id(spos) == q[0] && dist[spos] is Some
            && dist[spos].unwrap() <= path_cost(g, q));
    } else {
        let q2 = q.drop_last();
        let y = q[q.len() - 2];
        let x = q[q.len() - 1];
        assert(q2.len() == q.len() - 1);
        assert(forall|i: int| 0 <= i < q2.len() ==> q2[i] == q[i]);
        assert(is_path(g, q2)) by {
            assert(forall|i: int|
                0 <= i < q2.len() - 1 ==> g.has_edge(#[trigger] q2[i], q2[i + 1]));
        }
        lemma_frontier(g, s, vis, dist, q2, spos);
        let ky = choose|k: int|
            0 <= k < dist.len() && g.node_id(k) == q2[q2.len() - 1] && (#[trigger] dist[k]) is Some
                && dist[k].unwrap() <= path_cost(g, q2);
        assert(g.node_id(ky) == y);
        // y is visited, and positions are unique, so the flag at ky is set
        assert(visited_id(g, vis, y));
        let iy = choose|i: int| 0 <= i < vis.len() && g.node_id(i) == y && vis[i];
        lemma_id_unique(g, iy, ky);
        // the closing edge exists; find it in y's adjacency list
        assert(g.has_edge(y, x));
        let w = g.weight(y, x).unwrap();
        g.lemma_at(ky);
        assert(g.adj_of(y) == Some(g.adj_seq_at(ky)));
        assert(find_w(g.adj_seq_at(ky), x) == Some(w));
        crate::graph::lemma_find_w_some(g.adj_seq_at(ky), x);
        let jj = choose|j: int|
            0 <= j < g.adj_seq_at(ky).len() && g.adj_seq_at(ky)[j].0 == x && g.adj_seq_at(ky)[j].1
                == w;
        assert(g.nbr(ky, jj) == (x, w));
        assert(g.deg_at(ky) == g.adj_seq_at(ky).len());
        let kx = choose|k: int|
            0 <= k < dist.len() && g.node_id(k) == (g.nbr(ky, jj)).0 && (#[trigger] dist[k])
                is Some && dist[k].unwrap() <= dist[ky].unwrap() + g.nbr(ky, jj).1;
        assert(q =~= q2.push(x));
        lemma_cost_push(g, q2, x);
        assert(path_cost(g, q) == path_cost(g, q2) + w);
        assert(dist[kx].unwrap() <= path_cost(g, q));
    }
}

/// Dijkstra search returning the shortest path and its exact cost.
/// Ties in the frontier fall to the smaller node id: the node table is
/// scanned in ascending id order with a strict comparison.
#[verifier::rlimit(100)]
pub fn shortest_path_with_cost(g: &Graph, start: usize, end: usize) -> (r: Option<
    (Vec<usize>, u128),
>)
    requires
        g.wf(),
    ensures
        match r {
            Some(pc) => {
                &&& g.has_node(start) && g.has_node(end)
                &&& connects(*g, pc.0@, start, end)
                &&& path_cost(*g, pc.0@) == pc.1
                &&& forall|q: Seq<usize>|
                    connects(*g, q, start, end) ==> path_cost(*g, q) >= pc.1
                &&& forall|k: int|
                    0 <= k < pc.0@.len() ==> (forall|q: Seq<usize>|
                        connects(*g, q, start, #[trigger] pc.0@[k]) ==> path_cost(*g, q)
                            >= path_cost(*g, pc.0@.take(k + 1)))
            },
            None => !(g.has_node(start) && g.has_node(end) && reachable(*g, start, end)),
        },
{
    let n = g.num_nodes();
    let spos = match g.find_node(start) {
        Some(p) => p,
        None => {
            return None;
        },
    };
    let tpos = match g.find_node(end) {
        Some(p) => p,
        None => {
            return None;
        },
    };
    let mut dist: Vec<Option<u128>> = Vec::new();
    let mut pred: Vec<Option<usize>> = Vec::new();
    let mut visited: Vec<bool> = Vec::new();
    let mut i: usize = 0;
    while i < n
        invariant
            i <= n,
            dist@.len() == i,
            pred@.len() == i,
            visited@.len() == i,
            forall|k: int| 0 <= k < i && k != spos ==> (#[trigger] dist@[k]) is None,
            spos < i ==> dist@[spos as int] == Some(0u128),
            forall|k: int| 0 <= k < i ==> (#[trigger] pred@[k]) is None,
            forall|k: int| 0 <= k < i ==> !(#[trigger] visited@[k]),
        decreases n - i,
    {
        if i == spos {
            dist.push(Some(0u128));
        } else {
            dist.push(None);
        }
        pred.push(None);
        visited.push(false);
        i = i + 1;
    }
    proof {
        assert(cnt_true(visited@) == 0) by {
            lemma_cnt_true_zero(visited@);
        }
    }
    let mut rounds: usize = 0;
    let mut found: bool = false;
    let ghost mut dmax: u128 = 0;
    while rounds < n && !found
        invariant
            rounds <= n,
            n == g.node_count(),
            g.wf(),
            spos < n && g.node_id(spos as int) == start,
            tpos < n && g.node_id(tpos as int) == end,
            dist@.len() == n && pred@.len() == n && visited@.len() == n,
            dist@[spos as int] == Some(0u128),
            forall|k: int| 0 <= k < n && visited@[k] ==> (#[trigger] dist@[k]) is Some,
            relaxed(*g, visited@, dist@),
            rounds == cnt_true(visited@),
            // every set distance is bounded, so adding one more weight fits
            forall|k: int|
                0 <= k < n && (#[trigger] dist@[k]) is Some ==> dist@[k].unwrap() <= (rounds
                    as u128) * (usize::MAX as u128),
            // visited distances are final: below dmax; tentative ones above
            forall|k: int|
                0 <= k < n && visited@[k] ==> (#[trigger] dist@[k]).unwrap() <= dmax,
            forall|k: int|
                0 <= k < n && !visited@[k] && (#[trigger] dist@[k]) is Some ==> dist@[k].unwrap()
                    >= dmax,
            // settled nodes carry their final, provably minimal distance
            forall|k: int|
                0 <= k < n && visited@[k] ==> (forall|q: Seq<usize>|
                    connects(*g, q, start, g.node_id(k)) ==> path_cost(*g, q) >= (
                    #[trigger] dist@[k]).unwrap()),
            // predecessor chain facts
            forall|k: int|
                0 <= k < n ==> match #[trigger] pred@[k] {
                    Some(p) => {
                        &&& p < n
                        &&& visited@[p as int]
                        &&& dist@[p as int] is Some
                        &&& dist@[k] is Some
                        &&& g.weight(g.node_id(p as int), g.node_id(k)) is Some
                        &&& dist@[k].unwrap() == dist@[p as int].unwrap() + g.weight(
                            g.node_id(p as int),
                            g.node_id(k),
                        ).unwrap()
                        &&& dist@[p as int].unwrap() < dist@[k].unwrap()
                    },
                    None => true,
                },
            forall|k: int|
                0 <= k < n && (#[trigger] dist@[k]) is Some && k != spos ==> pred@[k] is Some,
            visited@[tpos as int] ==> found,
            found ==> visited@[tpos as int] && (forall|q: Seq<usize>|
                connects(*g, q, start, end) ==> path_cost(*g, q) >= dist@[tpos as int].unwrap()),
        decreases n - rounds + (if found {
            0int
        } else {
            1int
        }),
    {
        // select the unvisited node with the least tentative distance;
        // the ascending scan breaks ties toward the smaller node id
        let mut sel: usize = n;
        let mut seld: u128 = 0;
        let mut i: usize = 0;
        while i < n
            invariant
                i <= n,
                n == dist@.len() && n == visited@.len(),
                sel == n || (sel < i && !visited@[sel as int] && dist@[sel as int] == Some(seld)),
                sel == n ==> forall|m: int|
                    0 <= m < i && !visited@[m] ==> (#[trigger] dist@[m]) is None,
                forall|m: int|
                    0 <= m < i && !visited@[m] && (#[trigger] dist@[m]) is Some ==> seld
                        <= dist@[m].unwrap() && sel < n,
            decreases n - i,
        {
            if !visited[i] {
                match dist[i] {
                    Some(d) => {
                        if sel == n || d < seld {
                            sel = i;
                            seld = d;
                        }
                    },
                    None => {},
                }
            }
            i = i + 1;
        }
        if sel == n {
            // nothing reachable is left; in particular `end` was never reached
            proof {
                assert(!visited@[tpos as int]);
                assert forall|q: Seq<usize>| !connects(*g, q, start, end) by {
                    if connects(*g, q, start, end) {
                        assert(!visited_id(*g, visited@, q[q.len() - 1])) by {
                            if visited_id(*g, visited@, q[q.len() - 1]) {
                                let iv = choose|iv: int|
                                    0 <= iv < visited@.len() && g.node_id(iv) == q[q.len() - 1]
                                        && visited@[iv];
                                lemma_id_unique(*g, iv, tpos as int);
                            }
                        }
                        let j = first_unvisited(*g, visited@, q, 0);
                        lemma_take_connects(*g, q, start, end, j + 1);
                        lemma_frontier(*g, start, visited@, dist@, q.take(j + 1), spos as int);
                        let k = choose|k: int|
                            0 <= k < dist@.len() && g.node_id(k) == q.take(j + 1)[j] && (
                            #[trigger] dist@[k]) is Some && dist@[k].unwrap() <= path_cost(
                                *g,
                                q.take(j + 1),
                            );
                        assert(!visited@[k]) by {
                            if visited@[k] {
                                assert(visited_id(*g, visited@, q[j]));
                            }
                        }
                        assert(dist@[k] is None);
                    }
                }
                assert(!reachable(*g, start, end));
            }
            return None;
        }
        // settle the selected node
        let ghost vis0 = visited@;
        visited[sel] = true;
        proof {
            lemma_cnt_true_update(vis0, sel as int);
            assert(visited@ =~= vis0.update(sel as int, true));
            dmax = seld;
            // settled nodes are optimal: any path to the selected node must
            // first leave the settled region, where tentative distances
            // already dominate
            assert forall|q: Seq<usize>|
                connects(*g, q, start, g.node_id(sel as int)) implies path_cost(*g, q)
                >= seld by {
                assert(!visited_id(*g, vis0, q[q.len() - 1])) by {
                    if visited_id(*g, vis0, q[q.len() - 1]) {
                        let iv = choose|iv: int|
                            0 <= iv < vis0.len() && g.node_id(iv) == q[q.len() - 1] && vis0[iv];
                        lemma_id_unique(*g, iv, sel as int);
                    }
                }
                let j = first_unvisited(*g, vis0, q, 0);
                lemma_take_connects(*g, q, start, g.node_id(sel as int), j + 1);
                lemma_frontier(*g, start, vis0, dist@, q.take(j + 1), spos as int);
                let k = choose|k: int|
                    0 <= k < dist@.len() && g.node_id(k) == q.take(j + 1)[j] && (
                    #[trigger] dist@[k]) is Some && dist@[k].unwrap() <= path_cost(
                        *g,
                        q.take(j + 1),
                    );
                assert(!vis0[k]) by {
                    if vis0[k] {
                        assert(visited_id(*g, vis0, q[j]));
                    }
                }
                assert(seld <= dist@[k].unwrap());
                lemma_cost_prefix(*g, q, j + 1);
            }
            assert forall|k: int|
                0 <= k < n && visited@[k] implies (forall|q: Seq<usize>|
                connects(*g, q, start, g.node_id(k)) ==> path_cost(*g, q) >= (
                #[trigger] dist@[k]).unwrap()) by {
                if k != sel as int {
                    assert(vis0[k]);
                }
            }
        }
        if sel == tpos {
            found = true;
        }
        proof {
            assert((rounds as u128) * (usize::MAX as u128) <= (rounds as u128 + 1) * (usize::MAX
                as u128)) by (nonlinear_arith);
        }
        // relax every edge out of the selected node
        let d = g.degree_at(sel);
        let ghost usel = g.node_id(sel as int);
        proof {
            g.lemma_at(sel as int);
        }
        let mut j: usize = 0;
        while j < d
            invariant
                j <= d,
                d == g.deg_at(sel as int),
                sel < n,
                n == g.node_count(),
                g.wf(),
                usel == g.node_id(sel as int),
                rounds < n,
                spos < n && g.node_id(spos as int) == start,
                tpos < n && g.node_id(tpos as int) == end,
                dist@.len() == n && pred@.len() == n && visited@.len() == n,
                visited@[sel as int],
                dist@[sel as int] == Some(seld),
                dist@[spos as int] == Some(0u128),
                seld <= dmax,
                forall|k: int| 0 <= k < n && visited@[k] ==> (#[trigger] dist@[k]) is Some,
                rounds + 1 == cnt_true(visited@),
                forall|k: int|
                    0 <= k < n && (#[trigger] dist@[k]) is Some ==> dist@[k].unwrap() <= (rounds
                        as u128 + 1) * (usize::MAX as u128),
                forall|k: int|
                    0 <= k < n && visited@[k] ==> (#[trigger] dist@[k]).unwrap() <= dmax,
                forall|k: int|
                    0 <= k < n && !visited@[k] && (#[trigger] dist@[k]) is Some
                        ==> dist@[k].unwrap() >= dmax,
                forall|k: int|
                    0 <= k < n && visited@[k] ==> (forall|q: Seq<usize>|
                        connects(*g, q, start, g.node_id(k)) ==> path_cost(*g, q) >= (
                        #[trigger] dist@[k]).unwrap()),
                // all previously settled sources stay relaxed; the new
                // source is relaxed up to neighbor j
                forall|a: int, b: int|
                    0 <= a < n && visited@[a] && 0 <= b < g.deg_at(a) && (a != sel as int || b
                        < j) ==> exists|k: int|
                        0 <= k < n && g.node_id(k) == (#[trigger] g.nbr(a, b)).0 && dist@[k]
                            is Some && dist@[k].unwrap() <= dist@[a].unwrap() + g.nbr(a, b).1,
                forall|k: int|
                    0 <= k < n ==> match #[trigger] pred@[k] {
                        Some(p) => {
                            &&& p < n
                            &&& visited@[p as int]
                            &&& dist@[p as int] is Some
                            &&& dist@[k] is Some
                            &&& g.weight(g.node_id(p as int), g.node_id(k)) is Some
                            &&& dist@[k].unwrap() == dist@[p as int].unwrap() + g.weight(
                                g.node_id(p as int),
                                g.node_id(k),
                            ).unwrap()
                            &&& dist@[p as int].unwrap() < dist@[k].unwrap()
                        },
                        None => true,
                    },
                forall|k: int|
                    0 <= k < n && (#[trigger] dist@[k]) is Some && k != spos ==> pred@[k] is Some,
                visited@[tpos as int] ==> found,
                found ==> visited@[tpos as int] && (forall|q: Seq<usize>|
                    connects(*g, q, start, end) ==> path_cost(*g, q) >= dist@[tpos
                        as int].unwrap()),
            decreases d - j,
        {
            let (y, w) = g.neighbor_at(sel, j);
            proof {
                assert(g.weight(usel, y) == Some(w));
                assert(w >= 1);
            }
            let ky = match g.find_node(y) {
                Some(p) => p,
                None => {
                    proof {
                        assert(g.has_node(y));
                    }
                    unreached()
                },
            };
            proof {
                assert((rounds as u128) * (usize::MAX as u128) + (usize::MAX as u128) == (rounds
                    as u128 + 1) * (usize::MAX as u128)) by (nonlinear_arith);
                assert((rounds as u128 + 1) * (usize::MAX as u128) <= (u64::MAX as u128) * (
                u64::MAX as u128)) by (nonlinear_arith)
                    requires
                        rounds as u128 + 1 <= u64::MAX as u128,
                        usize::MAX as u128 <= u64::MAX as u128,
                ;
                assert(seld <= (rounds as u128) * (usize::MAX as u128));
            }
            let newd = seld + (w as u128);
            let do_update = match dist[ky] {
                Some(dy) => newd < dy,
                None => true,
            };
            if do_update {
                proof {
                    assert(!visited@[ky as int]) by {
                        if visited@[ky as int] {
                            assert(dist@[ky as int].unwrap() <= dmax);
                            assert(newd >= seld >= dmax);
                        }
                    }
                    assert(ky != spos) by {
                        if ky == spos {
                            assert(dist@[ky as int] == Some(0u128));
                        }
                    }
                }
                let ghost dist0 = dist@;
                let ghost pred0 = pred@;
                dist[ky] = Some(newd);
                pred[ky] = Some(sel);
                proof {
                    assert(dist@ =~= dist0.update(ky as int, Some(newd)));
                    assert(pred@ =~= pred0.update(ky as int, Some(sel)));
                    assert(g.node_id(ky as int) == y);
                    assert forall|a: int, b: int|
                        0 <= a < n && visited@[a] && 0 <= b < g.deg_at(a) && (a != sel as int || b
                            < j + 1) implies exists|k: int|
                        0 <= k < n && g.node_id(k) == (#[trigger] g.nbr(a, b)).0 && dist@[k]
                            is Some && dist@[k].unwrap() <= dist@[a].unwrap() + g.nbr(a, b).1 by {
                        if a == sel as int && b == j {
                            assert(0 <= (ky as int) && (ky as int) < n && g.node_id(ky as int) == g.nbr(a, b).0
                                && dist@[ky as int] is Some && dist@[ky as int].unwrap()
                                <= dist@[a].unwrap() + g.nbr(a, b).1);
                        } else {
                            let k0 = choose|k: int|
                                0 <= k < n && g.node_id(k) == (g.nbr(a, b)).0 && dist0[k] is Some
                                    && dist0[k].unwrap() <= dist0[a].unwrap() + g.nbr(a, b).1;
                            assert(dist@[a] == dist0[a]) by {
                                if a == ky as int {
                                    assert(!visited@[ky as int]);
                                }
                            }
                            if k0 == ky as int {
                                assert(dist@[k0].unwrap() <= dist0[k0].unwrap());
                            }
                            assert(0 <= k0 < n && g.node_id(k0) == (g.nbr(a, b)).0 && dist@[k0]
                                is Some && dist@[k0].unwrap() <= dist@[a].unwrap() + g.nbr(
                                a,
                                b,
                            ).1);
                        }
                    }
                }
            } else {
                proof {
                    assert forall|a: int, b: int|
                        0 <= a < n && visited@[a] && 0 <= b < g.deg_at(a) && (a != sel as int || b
                            < j + 1) implies exists|k: int|
                        0 <= k < n && g.node_id(k) == (#[trigger] g.nbr(a, b)).0 && dist@[k]
                            is Some && dist@[k].unwrap() <= dist@[a].unwrap() + g.nbr(a, b).1 by {
                        if a == sel as int && b == j {
                            assert(0 <= (ky as int) && (ky as int) < n && g.node_id(ky as int) == g.nbr(a, b).0
                                && dist@[ky as int] is Some && dist@[ky as int].unwrap()
                                <= dist@[a].unwrap() + g.nbr(a, b).1);
                        }
                    }
                }
            }
            j = j + 1;
        }
        rounds = rounds + 1;
    }
    if !found {
        // every position was settled without meeting `end`: impossible,
        // since settling `end` sets the flag
        proof {
            lemma_cnt_true_full(visited@);
            assert(visited@[tpos as int]);
        }
        return None;
    }
    // reconstruct the path along the predecessor chain
    let total = match dist[tpos] {
        Some(dv) => dv,
        None => {
            proof {
                assert(dist@[tpos as int] is Some);
            }
            unreached()
        },
    };
    let mut path: Vec<usize> = Vec::new();
    path.push(g.node_id_at(tpos));
    let mut cur: usize = tpos;
    proof {
        assert(path@.take(1) =~= path@);
        assert(path_cost(*g, path@) == 0);
        assert(0 <= (tpos as int) && (tpos as int) < n && g.node_id(tpos as int) == path@[0]
            && visited@[tpos as int] && dist@[tpos as int] is Some && dist@[tpos
            as int].unwrap() == dist@[tpos as int].unwrap() + path_cost(*g, path@.take(1)));
    }
    while cur != spos
        invariant
            cur < n,
            n == g.node_count(),
            g.wf(),
            spos < n && g.node_id(spos as int) == start,
            tpos < n && g.node_id(tpos as int) == end,
            dist@.len() == n && pred@.len() == n,
            dist@[cur as int] is Some,
            dist@[spos as int] == Some(0u128),
            dist@[tpos as int] == Some(total),
            path@.len() >= 1,
            path@[0] == g.node_id(cur as int),
            path@[path@.len() - 1] == end,
            is_path(*g, path@),
            path_cost(*g, path@) + dist@[cur as int].unwrap() == total,
            forall|k: int|
                0 <= k < path@.len() ==> exists|pos: int|
                    0 <= pos < n && g.node_id(pos) == #[trigger] path@[k] && visited@[pos]
                        && dist@[pos] is Some && dist@[pos].unwrap() == dist@[cur
                        as int].unwrap() + path_cost(*g, path@.take(k + 1)),
            forall|k: int|
                0 <= k < n ==> match #[trigger] pred@[k] {
                    Some(p) => {
                        &&& p < n
                        &&& dist@[p as int] is Some
                        &&& dist@[k] is Some
                        &&& g.weight(g.node_id(p as int), g.node_id(k)) is Some
                        &&& dist@[k].unwrap() == dist@[p as int].unwrap() + g.weight(
                            g.node_id(p as int),
                            g.node_id(k),
                        ).unwrap()
                        &&& dist@[p as int].unwrap() < dist@[k].unwrap()
                    },
                    None => true,
                },
            forall|k: int|
                0 <= k < n && (#[trigger] dist@[k]) is Some && k != spos ==> pred@[k] is Some,
        decreases dist@[cur as int].unwrap(),
    {
        let p = match pred[cur] {
            Some(p) => p,
            None => {
                proof {
                    assert(pred@[cur as int] is Some);
                }
                unreached()
            },
        };
        let ghost path0 = path@;
        let ghost cur0 = cur as int;
        let pid = g.node_id_at(p);
        path.insert(0, pid);
        proof {
            assert(path@ =~= path0.insert(0, pid));
            lemma_cost_cons(*g, path0, pid);
            assert(g.weight(pid, g.node_id(cur as int)) is Some);
            assert(forall|i: int| 1 <= i < path@.len() ==> path@[i] == path0[i - 1]);
            assert(is_path(*g, path@)) by {
                assert forall|i: int|
                    0 <= i < path@.len() - 1 implies g.has_edge(#[trigger] path@[i], path@[i + 1]) by {
                    if i == 0 {
                        assert(path@[0] == pid && path@[1] == path0[0]);
                    } else {
                        assert(path@[i] == path0[i - 1] && path@[i + 1] == path0[i]);
                    }
                }
            }
            let w = g.weight(g.node_id(p as int), g.node_id(cur0)).unwrap();
            assert(dist@[cur0].unwrap() == dist@[p as int].unwrap() + w);
            assert forall|k: int| 0 <= k < path@.len() implies exists|pos: int|
                0 <= pos < n && g.node_id(pos) == #[trigger] path@[k] && visited@[pos]
                    && dist@[pos] is Some && dist@[pos].unwrap() == dist@[p as int].unwrap()
                    + path_cost(*g, path@.take(k + 1)) by {
                if k == 0 {
                    assert(path@.take(1) =~= seq![pid]);
                    assert(path_cost(*g, path@.take(1)) == 0);
                    assert(0 <= (p as int) && (p as int) < n && g.node_id(p as int) == path@[0]
                        && visited@[p as int] && dist@[p as int] is Some && dist@[p
                        as int].unwrap() == dist@[p as int].unwrap() + path_cost(
                        *g,
                        path@.take(1),
                    ));
                } else {
                    let pos0 = choose|pos: int|
                        0 <= pos < n && g.node_id(pos) == path0[k - 1] && visited@[pos]
                            && dist@[pos] is Some && dist@[pos].unwrap() == dist@[cur0].unwrap()
                            + path_cost(*g, path0.take(k));
                    assert(path@.take(k + 1) =~= path0.take(k).insert(0, pid));
                    assert(path0.take(k)[0] == path0[0]);
                    lemma_cost_cons(*g, path0.take(k), pid);
                    assert(path_cost(*g, path@.take(k + 1)) == w + path_cost(
                        *g,
                        path0.take(k),
                    ));
                    assert(path@[k] == path0[k - 1]);
                    assert(0 <= pos0 < n && g.node_id(pos0) == path@[k] && visited@[pos0]
                        && dist@[pos0] is Some && dist@[pos0].unwrap() == dist@[p
                        as int].unwrap() + path_cost(*g, path@.take(k + 1)));
                }
            }
        }
        cur = p;
    }
    proof {
        assert(connects(*g, path@, start, end));
        assert(path_cost(*g, path@) == total);
        assert forall|k: int|
            0 <= k < path@.len() implies (forall|q: Seq<usize>|
            connects(*g, q, start, #[trigger] path@[k]) ==> path_cost(*g, q) >= path_cost(
                *g,
                path@.take(k + 1),
            )) by {
            let pos = choose|pos: int|
                0 <= pos < n && g.node_id(pos) == path@[k] && visited@[pos] && dist@[pos] is Some
                    && dist@[pos].unwrap() == dist@[cur as int].unwrap() + path_cost(
                    *g,
                    path@.take(k + 1),
                );
            assert(dist@[cur as int] == Some(0u128));
            assert(dist@[pos].unwrap() == path_cost(*g, path@.take(k + 1)));
            assert forall|q: Seq<usize>|
                connects(*g, q, start, path@[k]) implies path_cost(*g, q) >= path_cost(
                *g,
                path@.take(k + 1),
            ) by {
                assert(path_cost(*g, q) >= dist@[pos].unwrap());
            }
        }
    }
    Some((path, total))
}

/// Shortest-path cost from `start` to `end`; None when either endpoint is
/// absent or no path exists.
pub fn shortest_path(g: &Graph, start: usize, end: usize) -> (r: Option<u128>)
    requires
        g.wf(),
    ensures
        match r {
            Some(c) => {
                &&& g.has_node(start) && g.has_node(end)
                &&& exists|p: Seq<usize>| connects(*g, p, start, end) && path_cost(*g, p) == c
                &&& forall|q: Seq<usize>| connects(*g, q, start, end) ==> path_cost(*g, q) >= c
            },
            None => !(g.has_node(start) && g.has_node(end) && reachable(*g, start, end)),
        },
{
    match shortest_path_with_cost(g, start, end) {
        Some((p, c)) => {
            proof {
                assert(connects(*g, p@, start, end) && path_cost(*g, p@) == c);
            }
            Some(c)
        },
        None => None,
    }
}

/// The ordered shortest path from `start` to `end`, both endpoints included.
pub fn dijkstra(g: &Graph, start: usize, end: usize) -> (r: Option<Vec<usize>>)
    requires
        g.wf(),
    ensures
        match r {
            Some(p) => {
                &&& g.has_node(start) && g.has_node(end)
                &&& connects(*g, p@, start, end)
                &&& forall|q: Seq<usize>|
                    connects(*g, q, start, end) ==> path_cost(*g, q) >= path_cost(*g, p@)
                &&& forall|k: int|
                    0 <= k < p@.len() ==> (forall|q: Seq<usize>|
                        connects(*g, q, start, #[trigger] p@[k]) ==> path_cost(*g, q)
                            >= path_cost(*g, p@.take(k + 1)))
            },
            None => !(g.has_node(start) && g.has_node(end) && reachable(*g, start, end)),
        },
{
    match shortest_path_with_cost(g, start, end) {
        Some((p, _c)) => Some(p),
        None => None,
    }
}

/// On any existing node, the shortest path from a node to itself costs 0
/// and is the single-node path.
pub proof fn lemma_self_shortest(g: Graph, x: usize, p: Seq<usize>, c: nat)
    requires
        g.wf(),
        g.has_node(x),
        connects(g, p, x, x),
        path_cost(g, p) == c,
        forall|q: Seq<usize>| connects(g, q, x, x) ==> path_cost(g, q) >= c,
    ensures
        c == 0,
        p == seq![x],
{
    let single = seq![x];
    assert(connects(g, single, x, x));
    assert(path_cost(g, single) == 0);
    assert(c == 0);
    if p.len() >= 2 {
        assert(g.has_edge(p[0], p[1]));
        assert(g.weight(p[0], p[1]).unwrap() >= 1);
        assert(path_cost(g, p) >= 1) by {
            assert(path_cost(g, p) == g.weight(p[0], p[1]).unwrap() + path_cost(g, p.skip(1)));
        }
    }
    assert(p.len() == 1);
    assert(p =~= seq![x]);
}

} // verus!
