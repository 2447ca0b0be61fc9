//! Discrete-time independent-cascade influence diffusion, plus the greedy
//! high-degree independent-set seed heuristic. The probability is an exact
//! fraction `p_num / p_den`; every activation attempt draws one independent
//! uniform value. All node sets are kept as strictly sorted vectors so that
//! output is deterministic for a fixed draw sequence.

use vstd::prelude::*;

use crate::graph::Graph;

verus! {

/// Relies on rand::Rng::gen_range over the range 0..den: the draw is
/// uniform and strictly below `den`. Nothing else is assumed of it.
#[verifier::external_body]
fn draw_below(den: u64) -> (r: u64)
    requires
        den >= 1,
    ensures
        r < den,
{
    rand::Rng::gen_range(&mut rand::thread_rng(), 0..den)
}

/// Sorted-vector set membership.
fn sset_contains(v: &Vec<usize>, x: usize) -> (r: bool)
    ensures
        r == v@.contains(x),
{
    let n = v.len();
    let mut i: usize = 0;
    while i < n
        invariant
            i <= n,
            n == v@.len(),
            forall|j: int| 0 <= j < i ==> v@[j] != x,
        decreases n - i,
    {
        if v[i] == x {
            proof {
                assert(v@[i as int] == x);
            }
            return true;
        }
        i = i + 1;
    }
    proof {
        assert(!v@.contains(x)) by {
            if v@.contains(x) {
                let j = choose|j: int| 0 <= j < v@.len() && v@[j] == x;
            }
        }
    }
    false
}

/// Insert into a strictly sorted vector, keeping it sorted; no effect when
/// the element is already present.
fn sset_insert(v: &mut Vec<usize>, x: usize)
    requires
        crate::graph::sorted_strict(old(v)@),
    ensures
        crate::graph::sorted_strict(final(v)@),
        forall|y: usize| #[trigger] final(v)@.contains(y) <==> (old(v)@.contains(y) || y == x),
{
    let ghost s0 = v@;
    let n = v.len();
    let mut i: usize = 0;
    while i < n && v[i] < x
        invariant
            i <= n,
            n == v@.len(),
            v@ == s0,
            forall|j: int| 0 <= j < i ==> v@[j] < x,
        decreases n - i,
    {
        i = i + 1;
    }
    if i < n && v[i] == x {
        proof {
            assert(v@[i as int] == x);
            assert(v@.contains(x));
        }
        return ;
    }
    proof {
        assert forall|j: int| i <= j < s0.len() implies s0[j] > x by {
            if i < j {
                assert(s0[i as int] < s0[j]);
            }
        }
    }
    v.insert(i, x);
    proof {
        let s1 = v@;
        assert(s1 =~= s0.insert(i as int, x));
        assert(forall|j: int|
            0 <= j < s1.len() ==> s1[j] == (if j < i {
                s0[j]
            } else if j == i {
                x
            } else {
                s0[j - 1]
            }));
        assert(crate::graph::sorted_strict(s1));
        assert forall|y: usize| s1.contains(y) <==> (s0.contains(y) || y == x) by {
            if s0.contains(y) {
                let j = choose|j: int| 0 <= j < s0.len() && s0[j] == y;
                if j < i {
                    assert(s1[j] == y);
                } else {
                    assert(s1[j + 1] == y);
                }
            }
            if y == x {
                assert(s1[i as int] == y);
            }
            if s1.contains(y) && y != x {
                let j = choose|j: int| 0 <= j < s1.len() && s1[j] == y;
                if j < i {
                    assert(s0[j] == y);
                } else {
                    assert(j != i);
                    assert(s0[j - 1] == y);
                }
            }
        }
    }
}

/// An element-for-element copy of a sorted set vector.
fn sset_copy(v: &Vec<usize>) -> (r: Vec<usize>)
    ensures
        r@ == v@,
{
    let n = v.len();
    let mut r: Vec<usize> = Vec::new();
    let mut i: usize = 0;
    while i < n
        invariant
            i <= n,
            n == v@.len(),
            r@.len() == i,
            forall|j: int| 0 <= j < i ==> r@[j] == v@[j],
        decreases n - i,
    {
        r.push(v[i]);
        i = i + 1;
    }
    proof {
        assert(r@ =~= v@);
    }
    r
}

/// Pour every element of `src` into the sorted set `dst`.
fn sset_union_into(dst: &mut Vec<usize>, src: &Vec<usize>)
    requires
        crate::graph::sorted_strict(old(dst)@),
    ensures
        crate::graph::sorted_strict(final(dst)@),
        forall|y: usize|
            #[trigger] final(dst)@.contains(y) <==> (old(dst)@.contains(y) || src@.contains(y)),
{
    let ghost d0 = old(dst)@;
    let n = src.len();
    let mut i: usize = 0;
    while i < n
        invariant
            i <= n,
            n == src@.len(),
            crate::graph::sorted_strict(dst@),
            forall|y: usize|
                #[trigger] dst@.contains(y) <==> (d0.contains(y) || src@.take(
                    i as int,
                ).contains(y)),
        decreases n - i,
    {
        let ghost dprev = dst@;
        sset_insert(dst, src[i]);
        proof {
            assert forall|y: usize|
                dst@.contains(y) <==> (d0.contains(y) || src@.take(i + 1).contains(y)) by {
                assert(dst@.contains(y) <==> (dprev.contains(y) || y == src@[i as int]));
                assert(dprev.contains(y) <==> (d0.contains(y) || src@.take(i as int).contains(y)));
                assert(src@.take(i + 1) =~= src@.take(i as int).push(src@[i as int]));
                if src@.take(i + 1).contains(y) {
                    let j = choose|j: int| 0 <= j < i + 1 && #[trigger] src@.take(i + 1)[j] == y;
                    if j < i {
                        assert(src@.take(i as int)[j] == y);
                    } else {
                        assert(y == src@[i as int]);
                    }
                }
                if src@.take(i as int).contains(y) {
                    let j = choose|j: int| 0 <= j < i && #[trigger] src@.take(i as int)[j] == y;
                    assert(src@.take(i + 1)[j] == y);
                }
                if y == src@[i as int] {
                    assert(src@.take(i + 1)[i as int] == y);
                }
            }
        }
        i = i + 1;
    }
    proof {
        assert(src@.take(n as int) =~= src@);
        assert forall|y: usize|
            dst@.contains(y) <==> (d0.contains(y) || src@.contains(y)) by {
            assert(dst@.contains(y) <==> (d0.contains(y) || src@.take(n as int).contains(y)));
        }
    }
}

/// Membership in the k-hop ball around the seed set: reachable from some
/// seed by a path of at most k edges.
pub open(crate) spec fn in_ball(g: Graph, seeds: Seq<usize>, k: nat, v: usize) -> bool
    decreases k,
{
    if k == 0 {
        seeds.contains(v)
    } else {
        in_ball(g, seeds, (k - 1) as nat, v) || exists|u: usize|
            in_ball(g, seeds, (k - 1) as nat, u) && g.has_edge(u, v)
    }
}

/// A hop ball only ever grows with the radius.
pub proof fn lemma_ball_monotone(g: Graph, seeds: Seq<usize>, k: nat, j: nat, v: usize)
    requires
        k <= j,
        in_ball(g, seeds, k, v),
    ensures
        in_ball(g, seeds, j, v),
    decreases j - k,
{
    if k < j {
        lemma_ball_monotone(g, seeds, k, (j - 1) as nat, v);
    }
}

/// Once a round adds nothing, the ball never grows again: the diffusion
/// with certain probability reaches the full connected component of the
/// seeds within the component's diameter in rounds, and stays there.
pub proof fn lemma_ball_fixpoint(g: Graph, seeds: Seq<usize>, k: nat, j: nat)
    requires
        k <= j,
        forall|v: usize| in_ball(g, seeds, (k + 1) as nat, v) ==> in_ball(g, seeds, k, v),
    ensures
        forall|v: usize| in_ball(g, seeds, j, v) <==> in_ball(g, seeds, k, v),
    decreases j - k,
{
    if k < j {
        lemma_ball_fixpoint(g, seeds, k, (j - 1) as nat);
        assert forall|v: usize| in_ball(g, seeds, j, v) <==> in_ball(g, seeds, k, v) by {
            if in_ball(g, seeds, j, v) && !in_ball(g, seeds, (j - 1) as nat, v) {
                let u = choose|u: usize|
                    in_ball(g, seeds, (j - 1) as nat, u) && g.has_edge(u, v);
                assert(in_ball(g, seeds, k, u));
                assert(in_ball(g, seeds, (k + 1) as nat, v));
            }
            if in_ball(g, seeds, k, v) {
                lemma_ball_monotone(g, seeds, k, j, v);
            }
        }
    }
}

/// Independent-cascade diffusion for a fixed number of rounds. Entry 0 of
/// the history is the seed set; entry k is the cumulative set of nodes that
/// have finished propagating by round k. Each activation attempt succeeds
/// when an independent uniform draw below `p_den` lands below `p_num`:
/// probability 0 never spreads beyond the seeds, probability 1 fills the
/// k-hop ball of the seeds at entry k+1 exactly, and every influenced node
/// always lies within the corresponding hop ball.
pub fn simulate_influnce_spread(
    g: &Graph,
    initial_nodes: &Vec<usize>,
    steps: u32,
    p_num: u64,
    p_den: u64,
) -> (r: Vec<Vec<usize>>)
    requires
        g.wf(),
        p_den >= 1,
    ensures
        r@.len() == steps + 1,
        forall|k: int| 0 <= k <= steps ==> crate::graph::sorted_strict(#[trigger] r@[k]@),
        forall|y: usize| #[trigger] r@[0]@.contains(y) <==> initial_nodes@.contains(y),
        forall|k: int, y: usize|
            0 <= k < steps && #[trigger] r@[k]@.contains(y) ==> r@[k + 1]@.contains(y),
        p_num == 0 ==> forall|k: int, y: usize|
            0 <= k <= steps ==> ((#[trigger] r@[k]@.contains(y)) <==> initial_nodes@.contains(y)),
        forall|k: int, y: usize|
            1 <= k <= steps && #[trigger] r@[k]@.contains(y) ==> in_ball(
                *g,
                initial_nodes@,
                (k - 1) as nat,
                y,
            ),
        p_num >= p_den ==> forall|k: int, y: usize|
            1 <= k <= steps ==> ((#[trigger] r@[k]@.contains(y)) <==> in_ball(
                *g,
                initial_nodes@,
                (k - 1) as nat,
                y,
            )),
{
    let ghost seeds = initial_nodes@;
    // deduplicate and sort the seed set
    let mut frontier: Vec<usize> = Vec::new();
    let ns = initial_nodes.len();
    let mut si: usize = 0;
    while si < ns
        invariant
            si <= ns,
            ns == seeds.len(),
            initial_nodes@ == seeds,
            crate::graph::sorted_strict(frontier@),
            forall|y: usize|
                #[trigger] frontier@.contains(y) <==> seeds.take(si as int).contains(y),
        decreases ns - si,
    {
        let ghost f0 = frontier@;
        sset_insert(&mut frontier, initial_nodes[si]);
        proof {
            assert(seeds.take(si + 1) =~= seeds.take(si as int).push(seeds[si as int]));
            assert forall|y: usize|
                #[trigger] frontier@.contains(y) <==> seeds.take(si + 1).contains(y) by {
                assert(frontier@.contains(y) <==> (f0.contains(y) || y == seeds[si as int]));
                assert(f0.contains(y) <==> seeds.take(si as int).contains(y));
                if seeds.take(si + 1).contains(y) {
                    let j = choose|j: int|
                        0 <= j < si + 1 && #[trigger] seeds.take(si + 1)[j] == y;
                    if j < si {
                        assert(seeds.take(si as int)[j] == y);
                    }
                } else {
                    if seeds.take(si as int).contains(y) {
                        let j = choose|j: int|
                            0 <= j < si && #[trigger] seeds.take(si as int)[j] == y;
                        assert(seeds.take(si + 1)[j] == y);
                    }
                    if y == seeds[si as int] {
                        assert(seeds.take(si + 1)[si as int] == y);
                    }
                }
            }
        }
        si = si + 1;
    }
    proof {
        assert(seeds.take(ns as int) =~= seeds);
    }
    let mut settled: Vec<usize> = Vec::new();
    let mut history: Vec<Vec<usize>> = Vec::new();
    history.push(sset_copy(&frontier));
    let mut round: u32 = 0;
    while round < steps
        invariant
            round <= steps,
            g.wf(),
            p_den >= 1,
            initial_nodes@ == seeds,
            crate::graph::sorted_strict(frontier@),
            crate::graph::sorted_strict(settled@),
            history@.len() == round + 1,
            forall|k: int| 0 <= k <= round ==> crate::graph::sorted_strict(#[trigger] history@[k]@),
            forall|y: usize| #[trigger] history@[0]@.contains(y) <==> seeds.contains(y),
            forall|k: int, y: usize|
                0 <= k < round && #[trigger] history@[k]@.contains(y) ==> history@[k
                    + 1]@.contains(y),
            forall|k: int, y: usize|
                1 <= k <= round && #[trigger] history@[k]@.contains(y) ==> in_ball(
                    *g,
                    seeds,
                    (k - 1) as nat,
                    y,
                ),
            round == 0 ==> settled@.len() == 0,
            round >= 1 ==> (forall|y: usize|
                #[trigger] settled@.contains(y) <==> history@[round as int]@.contains(y)),
            forall|y: usize| #[trigger] frontier@.contains(y) ==> in_ball(*g, seeds, round as nat, y),
            round >= 1 ==> (forall|y: usize|
                #[trigger] settled@.contains(y) ==> in_ball(*g, seeds, (round - 1) as nat, y)),
            round == 0 ==> (forall|y: usize| #[trigger] frontier@.contains(y) <==> seeds.contains(y)),
            p_num == 0 && round >= 1 ==> frontier@.len() == 0,
            p_num == 0 ==> (forall|k: int, y: usize|
                0 <= k <= round ==> ((#[trigger] history@[k]@.contains(y)) <==> seeds.contains(y))),
            p_num >= p_den ==> (forall|y: usize|
                (settled@.contains(y) || frontier@.contains(y)) <==> #[trigger] in_ball(
                    *g,
                    seeds,
                    round as nat,
                    y,
                )),
            p_num >= p_den ==> (forall|k: int, y: usize|
                1 <= k <= round ==> ((#[trigger] history@[k]@.contains(y)) <==> in_ball(
                    *g,
                    seeds,
                    (k - 1) as nat,
                    y,
                ))),
        decreases steps - round,
    {
        let mut next: Vec<usize> = Vec::new();
        let nf = frontier.len();
        let mut fi: usize = 0;
        while fi < nf
            invariant
                fi <= nf,
                nf == frontier@.len(),
                g.wf(),
                p_den >= 1,
                crate::graph::sorted_strict(frontier@),
                crate::graph::sorted_strict(settled@),
                crate::graph::sorted_strict(next@),
                // soundness: everything in `next` was reached by an edge from
                // the frontier and lies outside the already-influenced sets
                forall|v: usize|
                    #[trigger] next@.contains(v) ==> !frontier@.contains(v) && !settled@.contains(v)
                        && exists|u: usize| frontier@.contains(u) && g.has_edge(u, v),
                p_num == 0 ==> next@.len() == 0,
                // completeness at probability 1 for fully processed nodes
                p_num >= p_den ==> (forall|m: int, v: usize|
                    0 <= m < fi && #[trigger] g.has_edge(frontier@[m], v) && !frontier@.contains(v)
                        && !settled@.contains(v) ==> next@.contains(v)),
            decreases nf - fi,
        {
            let u = frontier[fi];
            match g.find_node(u) {
                Some(pos) => {
                    proof {
                        g.lemma_at(pos as int);
                    }
                    let d = g.degree_at(pos);
                    let mut j: usize = 0;
                    while j < d
                        invariant
                            j <= d,
                            fi < nf,
                            nf == frontier@.len(),
                            u == frontier@[fi as int],
                            pos < g.node_count(),
                            g.node_id(pos as int) == u,
                            d == g.deg_at(pos as int),
                            g.wf(),
                            p_den >= 1,
                            crate::graph::sorted_strict(frontier@),
                            crate::graph::sorted_strict(settled@),
                            crate::graph::sorted_strict(next@),
                            forall|v: usize|
                                #[trigger] next@.contains(v) ==> !frontier@.contains(v)
                                    && !settled@.contains(v) && exists|w: usize|
                                    frontier@.contains(w) && g.has_edge(w, v),
                            p_num == 0 ==> next@.len() == 0,
                            p_num >= p_den ==> (forall|m: int, v: usize|
                                0 <= m < fi && #[trigger] g.has_edge(frontier@[m], v)
                                    && !frontier@.contains(v) && !settled@.contains(v)
                                    ==> next@.contains(v)),
                            p_num >= p_den ==> (forall|jj: int|
                                0 <= jj < j && !frontier@.contains((#[trigger] g.nbr(
                                    pos as int,
                                    jj,
                                )).0) && !settled@.contains(g.nbr(pos as int, jj).0)
                                    ==> next@.contains(g.nbr(pos as int, jj).0)),
                        decreases d - j,
                    {
                        let (y, _w) = g.neighbor_at(pos, j);
                        if !sset_contains(&frontier, y) && !sset_contains(&settled, y) {
                            let draw = draw_below(p_den);
                            if draw < p_num {
                                let ghost n0 = next@;
                                sset_insert(&mut next, y);
                                proof {
                                    assert(g.weight(u, y) is Some);
                                    assert(frontier@.contains(u)) by {
                                        assert(frontier@[fi as int] == u);
                                    }
                                    assert forall|v: usize| #[trigger] next@.contains(v)
                                        implies !frontier@.contains(v) && !settled@.contains(v)
                                        && exists|w: usize|
                                        frontier@.contains(w) && g.has_edge(w, v) by {
                                        if v == y {
                                            assert(frontier@.contains(u) && g.has_edge(u, v));
                                        } else {
                                            assert(n0.contains(v));
                                        }
                                    }
                                }
                            }
                        }
                        j = j + 1;
                    }
                    proof {
                        if p_num >= p_den {
                            assert forall|m: int, v: usize|
                                0 <= m < fi + 1 && #[trigger] g.has_edge(frontier@[m], v)
                                    && !frontier@.contains(v) && !settled@.contains(v)
                                implies next@.contains(v) by {
                                if m == fi {
                                    let w = g.weight(frontier@[m], v).unwrap();
                                    assert(crate::graph::find_w(g.adj_seq_at(pos as int), v)
                                        == Some(w));
                                    crate::graph::lemma_find_w_some(g.adj_seq_at(pos as int), v);
                                    let jj = choose|jj: int|
                                        0 <= jj < g.adj_seq_at(pos as int).len() && g.adj_seq_at(
                                            pos as int,
                                        )[jj].0 == v && g.adj_seq_at(pos as int)[jj].1 == w;
                                    assert(g.nbr(pos as int, jj).0 == v);
                                }
                            }
                        }
                    }
                },
                None => {
                    proof {
                        assert(forall|v: usize| !g.has_edge(u, v));
                        if p_num >= p_den {
                            assert forall|m: int, v: usize|
                                0 <= m < fi + 1 && #[trigger] g.has_edge(frontier@[m], v)
                                    && !frontier@.contains(v) && !settled@.contains(v)
                                implies next@.contains(v) by {}
                        }
                    }
                },
            }
            fi = fi + 1;
        }
        // the frontier has finished propagating: absorb it, record the
        // cumulative influenced set, and advance
        let ghost settled0 = settled@;
        let ghost frontier0 = frontier@;
        let ghost next0 = next@;
        sset_union_into(&mut settled, &frontier);
        proof {
            assert(forall|y: usize|
                #[trigger] settled@.contains(y) <==> (settled0.contains(y) || frontier0.contains(
                    y,
                )));
        }
        history.push(sset_copy(&settled));
        frontier = next;
        proof {
            let r1: u32 = (round + 1) as u32;
            assert(history@.len() == r1 + 1);
            assert(history@[r1 as int]@ == settled@);
            assert(frontier@ == next0);
            assert forall|k: int, y: usize|
                0 <= k < r1 && #[trigger] history@[k]@.contains(y) implies history@[k
                + 1]@.contains(y) by {
                if k == round {
                    if round == 0 {
                        assert(frontier0.contains(y));
                    } else {
                        assert(settled0.contains(y));
                    }
                    assert(settled@.contains(y));
                }
            }
            // ball facts
            assert forall|y: usize| #[trigger] settled@.contains(y) implies in_ball(
                *g,
                seeds,
                round as nat,
                y,
            ) by {
                if settled0.contains(y) {
                    if round >= 1 {
                        assert(in_ball(*g, seeds, (round - 1) as nat, y));
                    }
                } else {
                    assert(frontier0.contains(y));
                }
            }
            assert forall|y: usize| #[trigger] frontier@.contains(y) implies in_ball(
                *g,
                seeds,
                r1 as nat,
                y,
            ) by {
                let u = choose|u: usize| frontier0.contains(u) && g.has_edge(u, y);
                assert(in_ball(*g, seeds, round as nat, u));
            }
            if p_num == 0 {
                assert(frontier@.len() == 0);
                assert forall|y: usize| #[trigger] settled@.contains(y) implies seeds.contains(
                    y,
                ) by {
                    if settled0.contains(y) {
                    } else {
                        assert(frontier0.contains(y));
                    }
                }
                assert forall|y: usize| seeds.contains(y) implies settled@.contains(y) by {
                    if round == 0 {
                        assert(frontier0.contains(y));
                    } else {
                        assert(history@[round as int]@.contains(y));
                    }
                }
            }
            if p_num >= p_den {
                assert forall|y: usize|
                    (settled@.contains(y) || frontier@.contains(y)) <==> #[trigger] in_ball(
                        *g,
                        seeds,
                        r1 as nat,
                        y,
                    ) by {
                    if settled@.contains(y) || frontier@.contains(y) {
                        assert(in_ball(*g, seeds, r1 as nat, y)) by {
                            if settled@.contains(y) {
                                assert(in_ball(*g, seeds, round as nat, y));
                            }
                        }
                    }
                    if in_ball(*g, seeds, r1 as nat, y) {
                        if in_ball(*g, seeds, round as nat, y) {
                            assert(settled0.contains(y) || frontier0.contains(y));
                            assert(settled@.contains(y));
                        } else {
                            let u = choose|u: usize|
                                in_ball(*g, seeds, round as nat, u) && g.has_edge(u, y);
                            assert(settled0.contains(u) || frontier0.contains(u));
                            if settled0.contains(u) {
                                // a settled node's neighbors were already in
                                // the previous ball
                                assert(round >= 1) by {
                                    if round == 0 {
                                        assert(settled0.len() == 0);
                                        assert(!settled0.contains(u));
                                    }
                                }
                                assert(in_ball(*g, seeds, (round - 1) as nat, u));
                                assert(in_ball(*g, seeds, round as nat, y));
                            } else {
                                let m = choose|m: int|
                                    0 <= m < frontier0.len() && frontier0[m] == u;
                                assert(g.has_edge(frontier0[m], y));
                                assert(!frontier0.contains(y) && !settled0.contains(y)) by {
                                    if frontier0.contains(y) || settled0.contains(y) {
                                        assert(in_ball(*g, seeds, round as nat, y));
                                    }
                                }
                                assert(next0.contains(y));
                            }
                        }
                    }
                }
                assert forall|k: int, y: usize|
                    1 <= k <= r1 implies ((#[trigger] history@[k]@.contains(y)) <==> in_ball(
                    *g,
                    seeds,
                    (k - 1) as nat,
                    y,
                )) by {
                    if k == r1 {
                        assert(history@[k]@.contains(y) <==> settled@.contains(y));
                        assert(settled@.contains(y) <==> (settled0.contains(y)
                            || frontier0.contains(y)));
                        assert((settled0.contains(y) || frontier0.contains(y)) <==> in_ball(
                            *g,
                            seeds,
                            round as nat,
                            y,
                        ));
                    }
                }
            }
        }
        round = round + 1;
    }
    history
}

/// Greedy seed selection: repeatedly take the unconsidered node of highest
/// degree (smallest id on ties), accepting it only when it is not adjacent
/// to any node accepted so far; stop once `count` nodes are accepted or
/// every node has been considered. The result is an independent set, and
/// when it is shorter than requested it is a maximal one.
pub fn get_best_starting_nodes(g: &Graph, count: u32) -> (r: Vec<usize>)
    requires
        g.wf(),
    ensures
        r@.len() <= count,
        forall|i: int| 0 <= i < r@.len() ==> g.has_node(#[trigger] r@[i]),
        forall|i: int, j: int| 0 <= i < j < r@.len() ==> !(#[trigger] g.has_edge(r@[i], r@[j])),
        forall|i: int, j: int| 0 <= i < j < r@.len() ==> r@[i] != r@[j],
        r@.len() < count ==> (forall|u: usize|
            #[trigger] g.has_node(u) ==> r@.contains(u) || exists|v: usize|
                r@.contains(v) && g.has_edge(v, u)),
        r@.len() > 0 ==> (exists|p: int|
            0 <= p < g.node_count() && r@[0] == g.node_id(p) && (forall|q: int|
                0 <= q < g.node_count() ==> #[trigger] g.deg_at(q) <= g.deg_at(p) && (g.deg_at(q)
                    == g.deg_at(p) ==> p <= q))),
        // picks are by degree descending, equal degrees by ascending node id
        forall|i: int, j: int|
            #![trigger r@[i], r@[j]]
            0 <= i < j < r@.len() ==> g.degree(r@[i]) > g.degree(r@[j]) || (g.degree(r@[i])
                == g.degree(r@[j]) && r@[i] < r@[j]),
{
    let n = g.num_nodes();
    let mut used: Vec<bool> = Vec::new();
    let mut i: usize = 0;
    while i < n
        invariant
            i <= n,
            used@.len() == i,
            forall|k: int| 0 <= k < i ==> !(#[trigger] used@[k]),
        decreases n - i,
    {
        used.push(false);
        i = i + 1;
    }
    let mut sel: Vec<usize> = Vec::new();
    let ghost mut spos: Seq<int> = Seq::empty();
    let mut considered: usize = 0;
    let mut exhausted: bool = false;
    proof {
        crate::path::lemma_cnt_true_zero(used@);
    }
    while considered < n && (sel.len() as u64) < (count as u64) && !exhausted
        invariant
            considered <= n,
            exhausted ==> (forall|p: int| 0 <= p < n ==> #[trigger] used@[p]),
            n == g.node_count(),
            g.wf(),
            used@.len() == n,
            considered == crate::path::cnt_true(used@),
            sel@.len() <= count,
            forall|i: int| 0 <= i < sel@.len() ==> g.has_node(#[trigger] sel@[i]),
            forall|i: int, j: int|
                #![trigger sel@[i], sel@[j]]
                0 <= i < j < sel@.len() ==> !g.has_edge(sel@[i], sel@[j]) && !g.has_edge(
                    sel@[j],
                    sel@[i],
                ),
            forall|i: int, j: int| 0 <= i < j < sel@.len() ==> sel@[i] != sel@[j],
            // every considered node is in the selection or blocked by it
            forall|p: int|
                0 <= p < n && #[trigger] used@[p] ==> sel@.contains(g.node_id(p)) || exists|
                    v: usize,
                |
                    sel@.contains(v) && g.has_edge(v, g.node_id(p)),
            // selected nodes came from considered positions
            forall|i: int|
                0 <= i < sel@.len() ==> exists|p: int|
                    0 <= p < n && g.node_id(p) == #[trigger] sel@[i] && used@[p],
            sel@.len() > 0 ==> (exists|p: int|
                0 <= p < n && sel@[0] == g.node_id(p) && (forall|q: int|
                    0 <= q < n ==> #[trigger] g.deg_at(q) <= g.deg_at(p) && (g.deg_at(q)
                        == g.deg_at(p) ==> p <= q))),
            spos.len() == sel@.len(),
            forall|m: int|
                0 <= m < spos.len() ==> 0 <= #[trigger] spos[m] && spos[m] < n && g.node_id(
                    spos[m],
                ) == sel@[m],
            forall|m1: int, m2: int|
                #![trigger spos[m1], spos[m2]]
                0 <= m1 < m2 < spos.len() ==> g.deg_at(spos[m1]) > g.deg_at(spos[m2]) || (g.deg_at(
                    spos[m1],
                ) == g.deg_at(spos[m2]) && spos[m1] < spos[m2]),
            spos.len() > 0 ==> (forall|p: int|
                0 <= p < n && !(#[trigger] used@[p]) ==> g.deg_at(p) < g.deg_at(
                    spos[spos.len() - 1],
                ) || (g.deg_at(p) == g.deg_at(spos[spos.len() - 1]) && p > spos[spos.len() - 1])),
        decreases n - considered + (if exhausted {
            0int
        } else {
            1int
        }),
    {
        // pick the unconsidered position of maximum degree; the ascending
        // scan with a strict comparison keeps the smallest id on ties
        let mut best: usize = n;
        let mut bestd: usize = 0;
        let mut q: usize = 0;
        while q < n
            invariant
                q <= n,
                n == g.node_count(),
                used@.len() == n,
                best == n || (best < q && !used@[best as int] && bestd == g.deg_at(best as int)),
                best == n ==> forall|m: int| 0 <= m < q ==> #[trigger] used@[m],
                forall|m: int|
                    0 <= m < q && !(#[trigger] used@[m]) ==> g.deg_at(m) <= bestd && best < n
                        && (g.deg_at(m) == bestd ==> best <= m),
            decreases n - q,
        {
            if !used[q] {
                let d = g.degree_at(q);
                if best == n || d > bestd {
                    best = q;
                    bestd = d;
                }
            }
            q = q + 1;
        }
        if best == n {
            // everything has been considered already
            exhausted = true;
        } else {
        let ghost used0 = used@;
        used[best] = true;
        proof {
            assert(used@ =~= used0.update(best as int, true));
            crate::path::lemma_cnt_true_update(used0, best as int);
        }
        considered = considered + 1;
        let uid = g.node_id_at(best);
        proof {
            g.lemma_at(best as int);
        }
        // accept unless adjacent to an already-accepted node
        let mut blocked: bool = false;
        let ns = sel.len();
        let mut m: usize = 0;
        while m < ns
            invariant
                m <= ns,
                ns == sel@.len(),
                g.wf(),
                uid == g.node_id(best as int),
                !blocked ==> forall|k: int| 0 <= k < m ==> !g.has_edge(#[trigger] sel@[k], uid),
                blocked ==> exists|v: usize| sel@.contains(v) && g.has_edge(v, uid),
                forall|i: int, j: int|
                    #![trigger sel@[i], sel@[j]]
                    0 <= i < j < sel@.len() ==> !g.has_edge(sel@[i], sel@[j]) && !g.has_edge(
                        sel@[j],
                        sel@[i],
                    ),
            decreases ns - m,
        {
            if g.lookup_weight(sel[m], uid).is_some() {
                proof {
                    assert(sel@.contains(sel@[m as int]));
                }
                blocked = true;
            }
            m = m + 1;
        }
        if !blocked {
            proof {
                assert(forall|k: int|
                    0 <= k < sel@.len() ==> !g.has_edge(#[trigger] sel@[k], uid));
                assert(forall|i: int, j: int|
                    #![trigger sel@[i], sel@[j]]
                    0 <= i < j < sel@.len() ==> !g.has_edge(sel@[i], sel@[j]) && !g.has_edge(
                        sel@[j],
                        sel@[i],
                    ));
            }
            let ghost sel0 = sel@;
            sel.push(uid);
            proof {
                assert(sel@ =~= sel0.push(uid));
                assert(sel@[sel0.len() as int] == uid);
                assert(sel@.contains(uid));
                assert(sel@.contains(g.node_id(best as int)));
                assert forall|y: usize| sel0.contains(y) implies sel@.contains(y) by {
                    let j = choose|j: int| 0 <= j < sel0.len() && sel0[j] == y;
                    assert(sel@[j] == y);
                }
                assert forall|i: int, j: int|
                    #![trigger sel@[i], sel@[j]]
                    0 <= i < j < sel@.len() implies !g.has_edge(sel@[i], sel@[j]) && !g.has_edge(
                    sel@[j],
                    sel@[i],
                ) by {
                    if j == sel0.len() {
                        assert(sel@[i] == sel0[i] && sel@[j] == uid);
                        assert(!g.has_edge(sel0[i], uid));
                        if g.has_edge(uid, sel0[i]) {
                            assert(g.has_edge(sel0[i], uid));
                        }
                    } else {
                        assert(sel@[i] == sel0[i] && sel@[j] == sel0[j]);
                        assert(!(g.has_edge(sel0[i], sel0[j])) && !g.has_edge(sel0[j], sel0[i]));
                    }
                }
                assert forall|i: int, j: int| 0 <= i < j < sel@.len() implies sel@[i] != sel@[j] by {
                    if j == sel0.len() {
                        if sel@[i] == uid {
                            let p = choose|p: int|
                                0 <= p < n && g.node_id(p) == sel0[i] && used0[p];
                            crate::path::lemma_id_unique(*g, p, best as int);
                        }
                    }
                }
                assert forall|i: int|
                    0 <= i < sel@.len() implies exists|p: int|
                    0 <= p < n && g.node_id(p) == #[trigger] sel@[i] && used@[p] by {
                    if i < sel0.len() {
                        let p = choose|p: int| 0 <= p < n && g.node_id(p) == sel0[i] && used0[p];
                        assert(0 <= p < n && g.node_id(p) == sel@[i] && used@[p]);
                    } else {
                        assert(0 <= (best as int) && (best as int) < n && g.node_id(best as int) == sel@[i]
                            && used@[best as int]);
                    }
                }
                if sel0.len() == 0 {
                    assert(forall|m: int| 0 <= m < n && m != best ==> #[trigger] used0[m] == false);
                    assert forall|qq: int|
                        0 <= qq < n implies #[trigger] g.deg_at(qq) <= g.deg_at(best as int) && (
                    g.deg_at(qq) == g.deg_at(best as int) ==> best as int <= qq) by {
                        if qq != best {
                            assert(!used0[qq]);
                        }
                    }
                }
                // record the accepted position and keep the pick order:
                // strictly falling degrees, ascending positions on ties
                let spos0 = spos;
                spos = spos.push(best as int);
                assert(spos.len() == sel@.len());
                assert(spos[spos.len() - 1] == best as int);
                if spos0.len() > 0 {
                    let last = spos0[spos0.len() - 1];
                    assert(!used0[best as int]);
                    assert(g.deg_at(best as int) < g.deg_at(last) || (g.deg_at(best as int)
                        == g.deg_at(last) && best as int > last));
                    assert forall|m1: int, m2: int|
                        #![trigger spos[m1], spos[m2]]
                        0 <= m1 < m2 < spos.len() implies g.deg_at(spos[m1]) > g.deg_at(spos[m2])
                        || (g.deg_at(spos[m1]) == g.deg_at(spos[m2]) && spos[m1] < spos[m2]) by {
                        if m2 == spos0.len() {
                            assert(spos[m2] == best as int);
                            if m1 < spos0.len() - 1 {
                                assert(g.deg_at(spos0[m1]) > g.deg_at(last) || (g.deg_at(spos0[m1])
                                    == g.deg_at(last) && spos0[m1] < last));
                            }
                        } else {
                            assert(spos[m1] == spos0[m1] && spos[m2] == spos0[m2]);
                        }
                    }
                }
                // the remaining unconsidered positions all rank after the
                // fresh pick
                assert forall|p: int|
                    0 <= p < n && !(#[trigger] used@[p]) implies g.deg_at(p) < g.deg_at(
                    best as int,
                ) || (g.deg_at(p) == g.deg_at(best as int) && p > best as int) by {
                    assert(!used0[p] && p != best as int);
                    assert(g.deg_at(p) <= g.deg_at(best as int));
                }
            }
            } else {
                proof {
                    assert forall|p: int|
                        0 <= p < n && #[trigger] used@[p] implies sel@.contains(g.node_id(p))
                        || exists|v: usize| sel@.contains(v) && g.has_edge(v, g.node_id(p)) by {
                        if p == best as int {
                            assert(exists|v: usize| sel@.contains(v) && g.has_edge(v, uid));
                        }
                    }
                }
            }
        }
    }
    proof {
        if sel@.len() < count {
            // the loop left with every position considered, directly or
            // because the selection scan found nothing unconsidered
            if considered >= n {
                crate::path::lemma_cnt_true_full(used@);
            }
            assert forall|u: usize| #[trigger] g.has_node(u) implies sel@.contains(u) || exists|
                v: usize,
            | sel@.contains(v) && g.has_edge(v, u) by {
                g.lemma_node_position(u);
                let p = choose|p: int|
                    0 <= p < g.node_count() && g.node_id(p) == u && g.adj_of(u) == Some(
                        #[trigger] g.adj_seq_at(p),
                    );
                assert(used@[p]);
            }
        }
        assert forall|i: int, j: int|
            #![trigger sel@[i], sel@[j]]
            0 <= i < j < sel@.len() implies g.degree(sel@[i]) > g.degree(sel@[j]) || (g.degree(
            sel@[i],
        ) == g.degree(sel@[j]) && sel@[i] < sel@[j]) by {
            g.lemma_at(spos[i]);
            g.lemma_at(spos[j]);
            assert(g.degree(sel@[i]) == g.deg_at(spos[i]));
            assert(g.degree(sel@[j]) == g.deg_at(spos[j]));
            if g.deg_at(spos[i]) == g.deg_at(spos[j]) {
                assert(spos[i] < spos[j]);
                assert(crate::graph::keys(g.nodes@)[spos[i]] == g.node_id(spos[i]));
                assert(crate::graph::keys(g.nodes@)[spos[j]] == g.node_id(spos[j]));
            }
        }
    }
    sel
}

} // verus!
