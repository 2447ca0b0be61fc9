//! The graph store: a weighted undirected simple graph kept as sorted
//! adjacency lists (outer list sorted by node id, each inner list sorted by
//! neighbor id), built once by bulk ingestion and then queried read-only.

use vstd::prelude::*;

verus! {

/// The ids of an association list, in order.
pub open spec fn keys<V>(s: Seq<(usize, V)>) -> Seq<usize> {
    s.map_values(|p: (usize, V)| p.0)
}

/// Strictly ascending: ids are unique and iteration order is deterministic.
pub open spec fn sorted_strict(s: Seq<usize>) -> bool {
    forall|i: int, j: int| 0 <= i < j < s.len() ==> s[i] < s[j]
}

/// Weight of `v` in an adjacency list, if present.
pub open spec fn find_w(a: Seq<(usize, usize)>, v: usize) -> Option<usize>
    decreases a.len(),
{
    if a.len() == 0 {
        None
    } else if a[0].0 == v {
        Some(a[0].1)
    } else {
        find_w(a.skip(1), v)
    }
}

/// Adjacency list of node `u`, if the node exists.
pub open spec fn find_adj(s: Seq<(usize, Vec<(usize, usize)>)>, u: usize) -> Option<
    Seq<(usize, usize)>,
>
    decreases s.len(),
{
    if s.len() == 0 {
        None
    } else if s[0].0 == u {
        Some(s[0].1@)
    } else {
        find_adj(s.skip(1), u)
    }
}

/// Total number of directed adjacency entries, i.e. the sum of all degrees.
pub open spec fn sum_lens(s: Seq<(usize, Vec<(usize, usize)>)>) -> nat
    decreases s.len(),
{
    if s.len() == 0 {
        0
    } else {
        s[0].1@.len() + sum_lens(s.skip(1))
    }
}

pub proof fn lemma_find_w_at(a: Seq<(usize, usize)>, i: int)
    requires
        sorted_strict(keys(a)),
        0 <= i < a.len(),
    ensures
        find_w(a, a[i].0) == Some(a[i].1),
    decreases a.len(),
{
    if i == 0 {
    } else {
        assert(keys(a)[0] == a[0].0 && keys(a)[i] == a[i].0);
        assert(a[0].0 != a[i].0);
        assert(keys(a.skip(1)) =~= keys(a).skip(1));
        lemma_find_w_at(a.skip(1), i - 1);
    }
}

pub proof fn lemma_find_w_none(a: Seq<(usize, usize)>, v: usize)
    requires
        forall|i: int| 0 <= i < a.len() ==> a[i].0 != v,
    ensures
        find_w(a, v) is None,
    decreases a.len(),
{
    if a.len() > 0 {
        lemma_find_w_none(a.skip(1), v);
    }
}

pub proof fn lemma_find_w_some(a: Seq<(usize, usize)>, v: usize)
    requires
        find_w(a, v) is Some,
    ensures
        exists|i: int| 0 <= i < a.len() && a[i].0 == v && a[i].1 == find_w(a, v).unwrap(),
    decreases a.len(),
{
    if a.len() > 0 {
        if a[0].0 == v {
            assert(a[0].0 == v && a[0].1 == find_w(a, v).unwrap());
        } else {
            lemma_find_w_some(a.skip(1), v);
            let j = choose|j: int|
                0 <= j < a.skip(1).len() && a.skip(1)[j].0 == v && a.skip(1)[j].1 == find_w(
                    a.skip(1),
                    v,
                ).unwrap();
            assert(a[j + 1].0 == v && a[j + 1].1 == find_w(a, v).unwrap());
        }
    }
}

pub proof fn lemma_find_adj_at(s: Seq<(usize, Vec<(usize, usize)>)>, i: int)
    requires
        sorted_strict(keys(s)),
        0 <= i < s.len(),
    ensures
        find_adj(s, s[i].0) == Some(s[i].1@),
    decreases s.len(),
{
    if i == 0 {
    } else {
        assert(keys(s)[0] == s[0].0 && keys(s)[i] == s[i].0);
        assert(s[0].0 != s[i].0);
        assert(keys(s.skip(1)) =~= keys(s).skip(1));
        lemma_find_adj_at(s.skip(1), i - 1);
    }
}

pub proof fn lemma_find_adj_none(s: Seq<(usize, Vec<(usize, usize)>)>, u: usize)
    requires
        forall|i: int| 0 <= i < s.len() ==> s[i].0 != u,
    ensures
        find_adj(s, u) is None,
    decreases s.len(),
{
    if s.len() > 0 {
        lemma_find_adj_none(s.skip(1), u);
    }
}

pub proof fn lemma_find_adj_some(s: Seq<(usize, Vec<(usize, usize)>)>, u: usize)
    requires
        find_adj(s, u) is Some,
    ensures
        exists|i: int| 0 <= i < s.len() && s[i].0 == u && s[i].1@ == find_adj(s, u).unwrap(),
    decreases s.len(),
{
    if s.len() > 0 {
        if s[0].0 == u {
            assert(s[0].0 == u && s[0].1@ == find_adj(s, u).unwrap());
        } else {
            lemma_find_adj_some(s.skip(1), u);
            let j = choose|j: int|
                0 <= j < s.skip(1).len() && s.skip(1)[j].0 == u && s.skip(1)[j].1@ == find_adj(
                    s.skip(1),
                    u,
                ).unwrap();
            assert(s[j + 1].0 == u && s[j + 1].1@ == find_adj(s, u).unwrap());
        }
    }
}

/// Sum of degrees splits around any index.
pub proof fn lemma_sum_lens_insert(s: Seq<(usize, Vec<(usize, usize)>)>, i: int, p: (
    usize,
    Vec<(usize, usize)>,
))
    requires
        0 <= i <= s.len(),
    ensures
        sum_lens(s.insert(i, p)) == sum_lens(s) + p.1@.len(),
    decreases s.len(),
{
    if i == 0 {
        assert(s.insert(0, p)[0] == p);
        assert(s.insert(0, p).skip(1) =~= s);
    } else {
        assert(s.insert(i, p)[0] == s[0]);
        assert(s.insert(i, p).skip(1) =~= s.skip(1).insert(i - 1, p));
        lemma_sum_lens_insert(s.skip(1), i - 1, p);
    }
}

/// Updating one entry's adjacency list changes the sum by the length change.
pub proof fn lemma_sum_lens_update(
    s: Seq<(usize, Vec<(usize, usize)>)>,
    t: Seq<(usize, Vec<(usize, usize)>)>,
    i: int,
)
    requires
        0 <= i < s.len(),
        t.len() == s.len(),
        forall|j: int| 0 <= j < s.len() && j != i ==> t[j] == s[j],
        t[i].0 == s[i].0,
    ensures
        sum_lens(t) == sum_lens(s) - s[i].1@.len() + t[i].1@.len(),
    decreases s.len(),
{
    if i == 0 {
        assert(t.skip(1) =~= s.skip(1));
    } else {
        assert(t[0] == s[0]);
        assert(t.skip(1).len() == s.skip(1).len());
        assert(forall|j: int| 0 <= j < s.skip(1).len() && j != i - 1 ==> t.skip(1)[j] == s.skip(1)[j]);
        lemma_sum_lens_update(s.skip(1), t.skip(1), i - 1);
    }
}

/// Weight of edge (u, v) read off a raw adjacency structure.
pub open spec fn wt(s: Seq<(usize, Vec<(usize, usize)>)>, u: usize, v: usize) -> Option<usize> {
    match find_adj(s, u) {
        Some(a) => find_w(a, v),
        None => None,
    }
}

/// Search a sorted association list for key `k`: either the index holding it,
/// or the position where it would be inserted to keep the order.
pub(crate) fn assoc_search<V>(s: &Vec<(usize, V)>, k: usize) -> (r: (bool, usize))
    requires
        sorted_strict(keys(s@)),
    ensures
        r.1 <= s@.len(),
        r.0 ==> r.1 < s@.len() && s@[r.1 as int].0 == k,
        !r.0 ==> (forall|i: int| 0 <= i < r.1 ==> s@[i].0 < k) && (forall|i: int|
            r.1 <= i < s@.len() ==> s@[i].0 > k),
{
    let n = s.len();
    let mut i: usize = 0;
    while i < n && s[i].0 < k
        invariant
            i <= n,
            n == s@.len(),
            forall|j: int| 0 <= j < i ==> s@[j].0 < k,
        decreases n - i,
    {
        i = i + 1;
    }
    if i < n && s[i].0 == k {
        (true, i)
    } else {
        proof {
            assert forall|j: int| i <= j < s@.len() implies s@[j].0 > k by {
                assert(keys(s@)[i as int] == s@[i as int].0);
                assert(keys(s@)[j] == s@[j].0);
                if i < j {
                    assert(keys(s@)[i as int] < keys(s@)[j]);
                }
            }
        }
        (false, i)
    }
}

/// Insert the directed entry u -> (v, w) unless u already has an entry for v
/// (first write wins). Creates the node entry for `u` if it is new.
fn add_directed(
    nodes: &mut Vec<(usize, Vec<(usize, usize)>)>,
    u: usize,
    v: usize,
    w: usize,
) -> (inserted: bool)
    requires
        sorted_strict(keys(old(nodes)@)),
        forall|i: int|
            0 <= i < old(nodes)@.len() ==> sorted_strict(keys(#[trigger] old(nodes)@[i].1@)),
    ensures
        sorted_strict(keys(final(nodes)@)),
        forall|i: int|
            0 <= i < final(nodes)@.len() ==> sorted_strict(keys(#[trigger] final(nodes)@[i].1@)),
        forall|a: usize| a != u ==> find_adj(final(nodes)@, a) == find_adj(old(nodes)@, a),
        forall|a: usize|
            find_adj(final(nodes)@, a) is Some <==> (find_adj(old(nodes)@, a) is Some || a == u),
        forall|x: usize| x != v ==> #[trigger] wt(final(nodes)@, u, x) == wt(old(nodes)@, u, x),
        wt(final(nodes)@, u, v) == if wt(old(nodes)@, u, v) is Some {
            wt(old(nodes)@, u, v)
        } else {
            Some(w)
        },
        inserted == (wt(old(nodes)@, u, v) is None),
        !inserted ==> final(nodes)@ == old(nodes)@,
        sum_lens(final(nodes)@) == sum_lens(old(nodes)@) + (if inserted {
            1nat
        } else {
            0nat
        }),
        find_adj(final(nodes)@, u).unwrap().len() == (match find_adj(old(nodes)@, u) {
            Some(a) => a.len(),
            None => 0nat,
        }) + (if inserted {
            1nat
        } else {
            0nat
        }),
{
    let ghost s0 = nodes@;
    let (found_u, iu) = assoc_search(nodes, u);
    if found_u {
        proof {
            lemma_find_adj_at(s0, iu as int);
        }
        let (found_v, jv) = assoc_search(&nodes[iu].1, v);
        let ghost a0 = s0[iu as int].1@;
        if found_v {
            proof {
                lemma_find_w_at(a0, jv as int);
            }
            return false;
        }
        proof {
            assert(forall|i: int| 0 <= i < a0.len() ==> a0[i].0 != v);
            lemma_find_w_none(a0, v);
        }
        let entry = vstd::std_specs::vec::vec_index_mut(nodes, iu);
        entry.1.insert(jv, (v, w));
        proof {
            let s1 = nodes@;
            let a1 = s1[iu as int].1@;
            assert(a1 =~= a0.insert(jv as int, (v, w)));
            // the outer key sequence is unchanged
            assert(keys(s1) =~= keys(s0));
            // the updated inner list is still strictly sorted
            assert(keys(a1) =~= keys(a0).insert(jv as int, v));
            assert(sorted_strict(keys(a1))) by {
                assert(forall|i: int, j: int|
                    0 <= i < j < keys(a1).len() ==> keys(a1)[i] < keys(a1)[j]) by {
                    assert(forall|i: int|
                        0 <= i < keys(a1).len() ==> keys(a1)[i] == (if i < jv {
                            keys(a0)[i]
                        } else if i == jv {
                            v
                        } else {
                            keys(a0)[i - 1]
                        }));
                }
            }
            assert(forall|i: int|
                0 <= i < s1.len() ==> sorted_strict(keys(#[trigger] s1[i].1@))) by {
                assert(forall|i: int| 0 <= i < s1.len() && i != iu ==> s1[i] == s0[i]);
            }
            // adjacency of nodes other than u is untouched
            assert(s1 == s0.update(iu as int, (u, nodes@[iu as int].1)));
            assert forall|a: usize| a != u implies find_adj(s1, a) == find_adj(s0, a) by {
                if find_adj(s0, a) is Some {
                    lemma_find_adj_some(s0, a);
                    let k = choose|k: int|
                        0 <= k < s0.len() && s0[k].0 == a && s0[k].1@ == find_adj(s0, a).unwrap();
                    assert(k != iu);
                    assert(s1[k] == s0[k]);
                    lemma_find_adj_at(s1, k);
                    lemma_find_adj_at(s0, k);
                } else {
                    assert(forall|k: int| 0 <= k < s0.len() ==> s0[k].0 != a) by {
                        assert forall|k: int| 0 <= k < s0.len() implies s0[k].0 != a by {
                            if s0[k].0 == a {
                                lemma_find_adj_at(s0, k);
                            }
                        }
                    }
                    lemma_find_adj_none(s1, a);
                }
            }
            lemma_find_adj_at(s1, iu as int);
            assert(find_adj(s1, u) == Some(a1));
            // weights within u's list: only v is new
            assert forall|x: usize| x != v implies #[trigger] wt(s1, u, x) == wt(s0, u, x) by {
                if find_w(a0, x) is Some {
                    lemma_find_w_some(a0, x);
                    let k = choose|k: int|
                        0 <= k < a0.len() && a0[k].0 == x && a0[k].1 == find_w(a0, x).unwrap();
                    if k < jv {
                        assert(a1[k] == a0[k]);
                        lemma_find_w_at(a1, k);
                    } else {
                        assert(a1[k + 1] == a0[k]);
                        lemma_find_w_at(a1, k + 1);
                    }
                    lemma_find_w_at(a0, k);
                } else {
                    assert(forall|k: int| 0 <= k < a0.len() ==> a0[k].0 != x) by {
                        assert forall|k: int| 0 <= k < a0.len() implies a0[k].0 != x by {
                            if a0[k].0 == x {
                                lemma_find_w_at(a0, k);
                            }
                        }
                    }
                    assert forall|k: int| 0 <= k < a1.len() implies a1[k].0 != x by {
                        if k < jv {
                            assert(a1[k] == a0[k]);
                        } else if k > jv {
                            assert(a1[k] == a0[k - 1]);
                        }
                    }
                    lemma_find_w_none(a1, x);
                }
            }
            assert(a1[jv as int] == (v, w));
            lemma_find_w_at(a1, jv as int);
            assert(wt(s1, u, v) == Some(w));
            lemma_sum_lens_update(s0, s1, iu as int);
        }
        true
    } else {
        proof {
            assert forall|k: int| 0 <= k < s0.len() implies s0[k].0 != u by {}
            lemma_find_adj_none(s0, u);
        }
        let mut single: Vec<(usize, usize)> = Vec::new();
        single.push((v, w));
        nodes.insert(iu, (u, single));
        proof {
            let s1 = nodes@;
            assert(s1 =~= s0.insert(iu as int, (u, s1[iu as int].1)));
            let a1 = s1[iu as int].1@;
            assert(a1 =~= seq![(v, w)]);
            assert(keys(s1) =~= keys(s0).insert(iu as int, u));
            assert(sorted_strict(keys(s1))) by {
                assert(forall|i: int|
                    0 <= i < keys(s1).len() ==> keys(s1)[i] == (if i < iu {
                        keys(s0)[i]
                    } else if i == iu {
                        u
                    } else {
                        keys(s0)[i - 1]
                    }));
            }
            assert(sorted_strict(keys(a1)));
            assert(forall|i: int|
                0 <= i < s1.len() ==> sorted_strict(keys(#[trigger] s1[i].1@))) by {
                assert(forall|i: int| 0 <= i < s1.len() && i < iu ==> s1[i] == s0[i]);
                assert(forall|i: int| 0 <= i < s1.len() && i > iu ==> s1[i] == s0[i - 1]);
            }
            assert forall|a: usize| a != u implies find_adj(s1, a) == find_adj(s0, a) by {
                if find_adj(s0, a) is Some {
                    lemma_find_adj_some(s0, a);
                    let k = choose|k: int|
                        0 <= k < s0.len() && s0[k].0 == a && s0[k].1@ == find_adj(s0, a).unwrap();
                    if k < iu {
                        assert(s1[k] == s0[k]);
                        lemma_find_adj_at(s1, k);
                    } else {
                        assert(s1[k + 1] == s0[k]);
                        lemma_find_adj_at(s1, k + 1);
                    }
                    lemma_find_adj_at(s0, k);
                } else {
                    assert(forall|k: int| 0 <= k < s0.len() ==> s0[k].0 != a) by {
                        assert forall|k: int| 0 <= k < s0.len() implies s0[k].0 != a by {
                            if s0[k].0 == a {
                                lemma_find_adj_at(s0, k);
                            }
                        }
                    }
                    assert forall|k: int| 0 <= k < s1.len() implies s1[k].0 != a by {
                        if k < iu {
                            assert(s1[k] == s0[k]);
                        } else if k > iu {
                            assert(s1[k] == s0[k - 1]);
                        }
                    }
                    lemma_find_adj_none(s1, a);
                }
            }
            lemma_find_adj_at(s1, iu as int);
            assert(find_adj(s1, u) == Some(a1));
            assert(a1[0] == (v, w));
            lemma_find_w_at(a1, 0);
            assert(wt(s1, u, v) == Some(w));
            assert forall|x: usize| x != v implies #[trigger] wt(s1, u, x) == wt(s0, u, x) by {
                lemma_find_w_none(a1, x);
            }
            lemma_sum_lens_insert(s0, iu as int, s1[iu as int]);
        }
        true
    }
}

/// Errors of the analytics core. Per-query failures are local and
/// recoverable; they never corrupt the graph.
#[derive(Clone, Copy, Debug, PartialEq, Eq, Structural)]
pub enum AnalyticsError {
    /// An argument was rejected before any computation, e.g. zero histogram bins.
    InvalidArgument,
    /// The adjacency store cannot take further entries.
    CapacityExceeded,
    /// An exact intermediate value exceeded the machine integer range.
    Overflow,
}

/// Does the pair list mention the undirected pair {a, b} (in either order)?
pub open spec fn pair_covers(es: Seq<(usize, usize)>, a: usize, b: usize) -> bool {
    exists|i: int| 0 <= i < es.len() && (es[i] == (a, b) || es[i] == (b, a))
}

/// Does the pair list mention `x` as an endpoint of a well-formed record?
pub open spec fn endpoint_in(es: Seq<(usize, usize)>, x: usize) -> bool {
    exists|i: int| 0 <= i < es.len() && (es[i].0 == x || es[i].1 == x) && es[i].0 != es[i].1
}

/// What bulk ingestion of unit-weight pairs leaves behind: existing entries
/// are untouched (first write wins), every fresh covered pair carries weight
/// 1, and exactly the endpoints of well-formed records become new nodes.
/// Records with equal endpoints are skipped.
pub open(crate) spec fn ingested(g0: Graph, es: Seq<(usize, usize)>, g: Graph) -> bool {
    &&& (forall|a: usize, b: usize|
        #[trigger] g.weight(a, b) == (if g0.weight(a, b) is Some {
            g0.weight(a, b)
        } else if a != b && pair_covers(es, a, b) {
            Some(1usize)
        } else {
            None
        }))
    &&& (forall|x: usize| #[trigger] g.has_node(x) <==> (g0.has_node(x) || endpoint_in(es, x)))
}

/// A weighted undirected simple graph. The adjacency representation is
/// canonical: both levels are sorted strictly ascending, every edge is stored
/// in both directions with the same weight, weights are at least 1, and there
/// are no self loops.
pub struct Graph {
    pub(crate) nodes: Vec<(usize, Vec<(usize, usize)>)>,
    pub(crate) entry_total: usize,
}

impl Graph {
    /// Adjacency list of `u`, if `u` is a node.
    pub open(crate) spec fn adj_of(self, u: usize) -> Option<Seq<(usize, usize)>> {
        find_adj(self.nodes@, u)
    }

    pub open(crate) spec fn has_node(self, u: usize) -> bool {
        self.adj_of(u) is Some
    }

    /// The weight on edge {u, v}, if it exists.
    pub open(crate) spec fn weight(self, u: usize, v: usize) -> Option<usize> {
        match self.adj_of(u) {
            Some(a) => find_w(a, v),
            None => None,
        }
    }

    pub open(crate) spec fn has_edge(self, u: usize, v: usize) -> bool {
        self.weight(u, v) is Some
    }

    pub open(crate) spec fn degree(self, u: usize) -> nat {
        match self.adj_of(u) {
            Some(a) => a.len(),
            None => 0,
        }
    }

    pub open(crate) spec fn node_count(self) -> nat {
        self.nodes@.len()
    }

    /// Sum of all node degrees; twice the number of undirected edges.
    pub open(crate) spec fn sum_degrees(self) -> nat {
        sum_lens(self.nodes@)
    }

    /// Well-formedness: the canonical-representation invariant.
    pub open(crate) spec fn wf(self) -> bool {
        &&& sorted_strict(keys(self.nodes@))
        &&& (forall|i: int|
            0 <= i < self.nodes@.len() ==> sorted_strict(keys(#[trigger] self.nodes@[i].1@)))
        &&& (forall|u: usize, v: usize|
            #[trigger] self.weight(u, v) is Some ==> self.weight(v, u) == self.weight(u, v))
        &&& (forall|u: usize, v: usize|
            #[trigger] self.weight(u, v) is Some ==> self.has_node(v) && u != v && self.weight(
                u,
                v,
            ).unwrap() >= 1)
        &&& self.entry_total == self.sum_degrees()
    }

    /// Add the undirected edge {u, v} with weight `w` unless it is already
    /// present (first write wins). Returns false, leaving the graph
    /// unchanged, only when the adjacency store is at capacity.
    pub fn add_edge(&mut self, u: usize, v: usize, w: usize) -> (r: bool)
        requires
            old(self).wf(),
            u != v,
            w >= 1,
        ensures
            final(self).wf(),
            r ==> {
                &&& (forall|a: usize, b: usize|
                    #[trigger] final(self).weight(a, b) == (if (a == u && b == v) || (a == v && b
                        == u) {
                        if old(self).weight(u, v) is Some {
                            old(self).weight(a, b)
                        } else {
                            Some(w)
                        }
                    } else {
                        old(self).weight(a, b)
                    }))
                &&& (forall|x: usize|
                    #[trigger] final(self).has_node(x) <==> (old(self).has_node(x) || x == u || x
                        == v))
                &&& (forall|x: usize|
                    x != u && x != v ==> #[trigger] final(self).degree(x) == old(self).degree(x))
                &&& final(self).degree(u) == old(self).degree(u) + (if old(self).weight(u, v)
                    is Some {
                    0nat
                } else {
                    1nat
                })
                &&& final(self).degree(v) == old(self).degree(v) + (if old(self).weight(u, v)
                    is Some {
                    0nat
                } else {
                    1nat
                })
            },
            !r ==> *final(self) == *old(self) && old(self).weight(u, v) is None && old(
                self,
            ).sum_degrees() + 2 > usize::MAX,
    {
        let ghost g0 = *self;
        let existing = self.lookup_weight(u, v);
        if existing.is_some() {
            return true;
        }
        if self.entry_total > usize::MAX - 2 {
            return false;
        }
        let ghost s0 = self.nodes@;
        let ins1 = add_directed(&mut self.nodes, u, v, w);
        let ghost s1 = self.nodes@;
        proof {
            assert(wt(s1, v, u) == wt(s0, v, u));
            if wt(s0, v, u) is Some {
                assert(g0.weight(v, u) is Some);
                assert(g0.weight(u, v) == g0.weight(v, u));
            }
            assert(wt(s1, v, u) is None);
        }
        let ins2 = add_directed(&mut self.nodes, v, u, w);
        self.entry_total = self.entry_total + 2;
        proof {
            let s2 = self.nodes@;
            let gf = *self;
            // how every weight relates to the original graph
            assert forall|a: usize, b: usize|
                #[trigger] gf.weight(a, b) == (if (a == u && b == v) || (a == v && b == u) {
                    Some(w)
                } else {
                    g0.weight(a, b)
                }) by {
                if a == v {
                    if b == u {
                        assert(wt(s2, v, u) == Some(w));
                    } else {
                        assert(wt(s2, v, b) == wt(s1, v, b));
                        assert(find_adj(s1, v) == find_adj(s0, v));
                    }
                } else if a == u {
                    assert(find_adj(s2, u) == find_adj(s1, u));
                    if b == v {
                        assert(wt(s1, u, v) == Some(w));
                    } else {
                        assert(wt(s2, u, b) == wt(s1, u, b));
                        assert(wt(s1, u, b) == wt(s0, u, b));
                    }
                } else {
                    assert(find_adj(s2, a) == find_adj(s1, a));
                    assert(find_adj(s1, a) == find_adj(s0, a));
                }
            }
            // well-formedness of the result
            assert forall|a: usize, b: usize| #[trigger] gf.weight(a, b) is Some implies gf.weight(
                b,
                a,
            ) == gf.weight(a, b) && gf.has_node(b) && a != b && gf.weight(a, b).unwrap() >= 1 by {
                if (a == u && b == v) || (a == v && b == u) {
                    assert(gf.has_node(b));
                } else {
                    assert(gf.weight(a, b) == g0.weight(a, b));
                    assert(gf.weight(b, a) == g0.weight(b, a));
                    assert(gf.has_node(b) <==> (g0.has_node(b) || b == u || b == v));
                }
            }
            assert(gf.entry_total == sum_lens(s2));
        }
        true
    }

    /// The weight on edge {u, v}, or None when absent.
    pub fn lookup_weight(&self, u: usize, v: usize) -> (r: Option<usize>)
        requires
            self.wf(),
        ensures
            r == self.weight(u, v),
    {
        let (found_u, iu) = assoc_search(&self.nodes, u);
        if !found_u {
            proof {
                assert forall|k: int| 0 <= k < self.nodes@.len() implies self.nodes@[k].0 != u by {}
                lemma_find_adj_none(self.nodes@, u);
            }
            return None;
        }
        proof {
            lemma_find_adj_at(self.nodes@, iu as int);
        }
        let (found_v, jv) = assoc_search(&self.nodes[iu].1, v);
        let ghost a = self.nodes@[iu as int].1@;
        if found_v {
            proof {
                lemma_find_w_at(a, jv as int);
            }
            Some(self.nodes[iu].1[jv].1)
        } else {
            proof {
                assert forall|k: int| 0 <= k < a.len() implies a[k].0 != v by {}
                lemma_find_w_none(a, v);
            }
            None
        }
    }

    /// Bulk ingestion of an edge list with unit weights: for each pair, both
    /// directions are inserted if and only if the directed entry is not
    /// already present. Pairs with equal endpoints are skipped. On capacity
    /// exhaustion the load stops with the already-ingested prefix in place.
    pub fn ingest(&mut self, edges: &Vec<(usize, usize)>) -> (r: Result<(), AnalyticsError>)
        requires
            old(self).wf(),
        ensures
            final(self).wf(),
            r is Ok ==> ingested(*old(self), edges@, *final(self)),
            r is Err ==> r == Err::<(), AnalyticsError>(AnalyticsError::CapacityExceeded)
                && final(self).sum_degrees() + 2 > usize::MAX && exists|k: int|
                0 <= k < edges@.len() && ingested(*old(self), edges@.take(k), *final(self))
                    && (#[trigger] edges@[k]).0 != edges@[k].1 && final(self).weight(
                    edges@[k].0,
                    edges@[k].1,
                ) is None,
    {
        let ghost g0 = *self;
        let n = edges.len();
        let mut i: usize = 0;
        while i < n
            invariant
                i <= n,
                n == edges@.len(),
                self.wf(),
                ingested(g0, edges@.take(i as int), *self),
            decreases n - i,
        {
            let (u, v) = edges[i];
            let ghost pre = *self;
            let ghost prefix = edges@.take(i as int);
            let ghost prefix1 = edges@.take(i + 1);
            proof {
                assert(prefix1 =~= prefix.push((u, v)));
            }
            if u != v {
                let ok = self.add_edge(u, v, 1);
                if !ok {
                    proof {
                        assert(0 <= (i as int) && (i as int) < edges@.len() && ingested(
                            g0,
                            edges@.take(i as int),
                            *self,
                        ));
                        assert(ingested(*old(self), edges@.take(i as int), *self));
                        assert(edges@[i as int].0 == u && edges@[i as int].1 == v);
                        assert(self.weight(u, v) is None);
                        assert(exists|k: int|
                            0 <= k < edges@.len() && ingested(*old(self), edges@.take(k), *self)
                                && (#[trigger] edges@[k]).0 != edges@[k].1 && self.weight(
                                edges@[k].0,
                                edges@[k].1,
                            ) is None);
                    }
                    return Err(AnalyticsError::CapacityExceeded);
                }
            }
            proof {
                assert forall|a: usize, b: usize|
                    #[trigger] self.weight(a, b) == (if g0.weight(a, b) is Some {
                        g0.weight(a, b)
                    } else if a != b && pair_covers(prefix1, a, b) {
                        Some(1usize)
                    } else {
                        None
                    }) by {
                    if u != v && ((a == u && b == v) || (a == v && b == u)) {
                        assert(prefix1[prefix.len() as int] == (u, v));
                        assert(pair_covers(prefix1, a, b));
                        if g0.weight(a, b) is None && !pair_covers(prefix, a, b) {
                            assert(pre.weight(u, v) is None);
                            assert(self.weight(a, b) == Some(1usize));
                        } else {
                            assert(pre.weight(a, b) is Some);
                            assert(self.weight(a, b) == pre.weight(a, b));
                        }
                    } else {
                        if u != v {
                            assert(self.weight(a, b) == pre.weight(a, b));
                        }
                        if a != b {
                            assert(pair_covers(prefix1, a, b) == pair_covers(prefix, a, b)) by {
                                if pair_covers(prefix1, a, b) {
                                    let j = choose|j: int|
                                        0 <= j < prefix1.len() && (prefix1[j] == (a, b)
                                            || prefix1[j] == (b, a));
                                    if j < prefix.len() {
                                        assert(prefix[j] == prefix1[j]);
                                    } else {
                                        assert(prefix1[j] == (u, v));
                                    }
                                } else {
                                    if pair_covers(prefix, a, b) {
                                        let j = choose|j: int|
                                            0 <= j < prefix.len() && (prefix[j] == (a, b)
                                                || prefix[j] == (b, a));
                                        assert(prefix1[j] == prefix[j]);
                                    }
                                }
                            }
                        }
                    }
                }
                assert forall|x: usize|
                    #[trigger] self.has_node(x) <==> (g0.has_node(x) || endpoint_in(prefix1, x)) by {
                    if endpoint_in(prefix, x) {
                        let j = choose|j: int|
                            0 <= j < prefix.len() && (prefix[j].0 == x || prefix[j].1 == x)
                                && prefix[j].0 != prefix[j].1;
                        assert(prefix1[j] == prefix[j]);
                        assert(endpoint_in(prefix1, x));
                    }
                    if u != v && (x == u || x == v) {
                        assert(prefix1[prefix.len() as int] == (u, v));
                        assert(endpoint_in(prefix1, x));
                    }
                    if endpoint_in(prefix1, x) && !endpoint_in(prefix, x) {
                        let j = choose|j: int|
                            0 <= j < prefix1.len() && (prefix1[j].0 == x || prefix1[j].1 == x)
                                && prefix1[j].0 != prefix1[j].1;
                        if j < prefix.len() {
                            assert(prefix[j] == prefix1[j]);
                            assert(endpoint_in(prefix, x));
                        } else {
                            assert(prefix1[j] == (u, v));
                        }
                    }
                }
            }
            i = i + 1;
        }
        proof {
            assert(edges@.take(n as int) =~= edges@);
        }
        Ok(())
    }

    pub fn new() -> (r: Graph)
        ensures
            r.wf(),
            r.node_count() == 0,
            forall|u: usize| !r.has_node(u),
            forall|u: usize, v: usize| !r.has_edge(u, v),
    {
        let g = Graph { nodes: Vec::new(), entry_total: 0 };
        proof {
            assert(forall|u: usize| g.adj_of(u) is None);
        }
        g
    }

    /// Node id at position `i` of the ascending node order.
    pub open(crate) spec fn node_id(self, i: int) -> usize {
        self.nodes@[i].0
    }

    /// Adjacency entry `j` (neighbor id, weight) of the node at position `i`.
    pub open(crate) spec fn nbr(self, i: int, j: int) -> (usize, usize) {
        self.nodes@[i].1@[j]
    }

    /// Degree of the node at position `i`.
    pub open(crate) spec fn deg_at(self, i: int) -> nat {
        self.nodes@[i].1@.len()
    }

    /// The adjacency list at position `i` of the node order.
    pub open(crate) spec fn adj_seq_at(self, i: int) -> Seq<(usize, usize)> {
        self.nodes@[i].1@
    }

    /// The degree sum, read off the maintained entry counter.
    pub fn sum_degrees_exec(&self) -> (r: usize)
        requires
            self.wf(),
        ensures
            r == self.sum_degrees(),
    {
        self.entry_total
    }

    pub fn num_nodes(&self) -> (r: usize)
        ensures
            r == self.node_count(),
    {
        self.nodes.len()
    }

    pub fn node_id_at(&self, i: usize) -> (r: usize)
        requires
            i < self.node_count(),
        ensures
            r == self.node_id(i as int),
    {
        self.nodes[i].0
    }

    pub fn degree_at(&self, i: usize) -> (r: usize)
        requires
            i < self.node_count(),
        ensures
            r == self.deg_at(i as int),
    {
        self.nodes[i].1.len()
    }

    pub fn neighbor_at(&self, i: usize, j: usize) -> (r: (usize, usize))
        requires
            i < self.node_count(),
            j < self.deg_at(i as int),
        ensures
            r == self.nbr(i as int, j as int),
    {
        self.nodes[i].1[j]
    }

    /// Position of node `u` in the ascending node order, if it is present.
    pub fn find_node(&self, u: usize) -> (r: Option<usize>)
        requires
            self.wf(),
        ensures
            match r {
                Some(i) => i < self.node_count() && self.node_id(i as int) == u && self.has_node(u),
                None => !self.has_node(u),
            },
    {
        let (found, i) = assoc_search(&self.nodes, u);
        if found {
            proof {
                lemma_find_adj_at(self.nodes@, i as int);
            }
            Some(i)
        } else {
            proof {
                assert forall|k: int| 0 <= k < self.nodes@.len() implies self.nodes@[k].0 != u by {}
                lemma_find_adj_none(self.nodes@, u);
            }
            None
        }
    }

    /// Every adjacency list fits in memory, so degrees are machine-bounded.
    pub proof fn lemma_deg_at_bound(self, i: int)
        requires
            0 <= i < self.node_count(),
        ensures
            self.deg_at(i) <= usize::MAX,
    {
        let v = self.nodes@[i].1;
        vstd::std_specs::vec::axiom_spec_len(&v);
    }

    /// Ties each position of the node order to the find-based view.
    pub proof fn lemma_at(self, i: int)
        requires
            self.wf(),
            0 <= i < self.node_count(),
        ensures
            self.adj_of(self.node_id(i)) == Some(self.adj_seq_at(i)),
            self.has_node(self.node_id(i)),
            self.degree(self.node_id(i)) == self.deg_at(i),
            forall|j: int|
                0 <= j < self.deg_at(i) ==> self.weight(self.node_id(i), (#[trigger] self.nbr(
                    i,
                    j,
                )).0) == Some(self.nbr(i, j).1),
    {
        lemma_find_adj_at(self.nodes@, i);
        assert forall|j: int| 0 <= j < self.deg_at(i) implies self.weight(
            self.node_id(i),
            (#[trigger] self.nbr(i, j)).0,
        ) == Some(self.nbr(i, j).1) by {
            lemma_find_w_at(self.nodes@[i].1@, j);
        }
    }

    /// Every node id stands at some position of the node order.
    pub proof fn lemma_node_position(self, u: usize)
        requires
            self.wf(),
            self.has_node(u),
        ensures
            exists|i: int|
                0 <= i < self.node_count() && self.node_id(i) == u && self.adj_of(u) == Some(
                    #[trigger] self.adj_seq_at(i),
                ),
    {
        lemma_find_adj_some(self.nodes@, u);
        let i = choose|i: int|
            0 <= i < self.nodes@.len() && self.nodes@[i].0 == u && self.nodes@[i].1@ == find_adj(
                self.nodes@,
                u,
            ).unwrap();
        assert(self.node_id(i) == u && self.adj_of(u) == Some(self.adj_seq_at(i)));
    }
}

/// The subgraph induced by a node set, as (node, neighbor, weight) triples:
/// exactly the edges of `g` with both endpoints in `nodes`, each undirected
/// edge appearing once per direction from a listed endpoint.
pub fn induced_subgraph(g: &Graph, nodes: &Vec<usize>) -> (r: Vec<(usize, usize, usize)>)
    requires
        g.wf(),
    ensures
        forall|k: int|
            0 <= k < r@.len() ==> nodes@.contains((#[trigger] r@[k]).0) && nodes@.contains(
                r@[k].1,
            ) && g.weight(r@[k].0, r@[k].1) == Some(r@[k].2),
        forall|a: usize, b: usize|
            nodes@.contains(a) && nodes@.contains(b) && #[trigger] g.weight(a, b) is Some
                ==> r@.contains((a, b, g.weight(a, b).unwrap())),
{
    let nn = nodes.len();
    let mut r: Vec<(usize, usize, usize)> = Vec::new();
    let mut m: usize = 0;
    while m < nn
        invariant
            m <= nn,
            nn == nodes@.len(),
            g.wf(),
            forall|k: int|
                0 <= k < r@.len() ==> nodes@.contains((#[trigger] r@[k]).0) && nodes@.contains(
                    r@[k].1,
                ) && g.weight(r@[k].0, r@[k].1) == Some(r@[k].2),
            forall|mm: int, b: usize|
                0 <= mm < m && nodes@.contains(b) && #[trigger] g.weight(nodes@[mm], b) is Some
                    ==> r@.contains((nodes@[mm], b, g.weight(nodes@[mm], b).unwrap())),
        decreases nn - m,
    {
        let u = nodes[m];
        proof {
            assert(nodes@[m as int] == u);
            assert(nodes@.contains(u));
        }
        match g.find_node(u) {
            Some(pos) => {
                proof {
                    g.lemma_at(pos as int);
                }
                let d = g.degree_at(pos);
                let mut j: usize = 0;
                while j < d
                    invariant
                        j <= d,
                        m < nn,
                        nn == nodes@.len(),
                        g.wf(),
                        u == nodes@[m as int],
                        pos < g.node_count(),
                        g.node_id(pos as int) == u,
                        d == g.deg_at(pos as int),
                        forall|k: int|
                            0 <= k < r@.len() ==> nodes@.contains((#[trigger] r@[k]).0)
                                && nodes@.contains(r@[k].1) && g.weight(r@[k].0, r@[k].1) == Some(
                                r@[k].2,
                            ),
                        forall|mm: int, b: usize|
                            0 <= mm < m && nodes@.contains(b) && #[trigger] g.weight(nodes@[mm], b)
                                is Some ==> r@.contains(
                                (nodes@[mm], b, g.weight(nodes@[mm], b).unwrap()),
                            ),
                        forall|jj: int|
                            0 <= jj < j && nodes@.contains((#[trigger] g.nbr(pos as int, jj)).0)
                                ==> r@.contains(
                                (u, g.nbr(pos as int, jj).0, g.nbr(pos as int, jj).1),
                            ),
                    decreases d - j,
                {
                    let (y, w) = g.neighbor_at(pos, j);
                    let mut inside: bool = false;
                    let mut t: usize = 0;
                    while t < nn
                        invariant
                            t <= nn,
                            nn == nodes@.len(),
                            inside ==> nodes@.contains(y),
                            !inside ==> forall|tt: int| 0 <= tt < t ==> nodes@[tt] != y,
                        decreases nn - t,
                    {
                        if nodes[t] == y {
                            proof {
                                assert(nodes@[t as int] == y);
                            }
                            inside = true;
                        }
                        t = t + 1;
                    }
                    if inside {
                        let ghost r0 = r@;
                        r.push((u, y, w));
                        proof {
                            assert(r@ =~= r0.push((u, y, w)));
                            assert(r@[r0.len() as int] == (u, y, w));
                            assert(r@.contains((u, y, w)));
                            assert(g.weight(u, y) == Some(w));
                            assert forall|k: int| 0 <= k < r0.len() implies r@[k] == r0[k] by {}
                            assert forall|mm: int, b: usize|
                                0 <= mm < m && nodes@.contains(b) && #[trigger] g.weight(
                                    nodes@[mm],
                                    b,
                                ) is Some implies r@.contains(
                                (nodes@[mm], b, g.weight(nodes@[mm], b).unwrap()),
                            ) by {
                                let w2 = g.weight(nodes@[mm], b).unwrap();
                                assert(r0.contains((nodes@[mm], b, w2)));
                                let k = choose|k: int|
                                    0 <= k < r0.len() && r0[k] == (nodes@[mm], b, w2);
                                assert(r@[k] == (nodes@[mm], b, w2));
                            }
                            assert forall|jj: int|
                                0 <= jj < j && nodes@.contains(
                                    (#[trigger] g.nbr(pos as int, jj)).0,
                                ) implies r@.contains(
                                (u, g.nbr(pos as int, jj).0, g.nbr(pos as int, jj).1),
                            ) by {
                                assert(r0.contains(
                                    (u, g.nbr(pos as int, jj).0, g.nbr(pos as int, jj).1),
                                ));
                                let k = choose|k: int|
                                    0 <= k < r0.len() && r0[k] == (
                                    u,
                                    g.nbr(pos as int, jj).0,
                                    g.nbr(pos as int, jj).1,
                                    );
                                assert(r@[k] == (u, g.nbr(pos as int, jj).0, g.nbr(pos as int, jj).1));
                            }
                        }
                    } else {
                        proof {
                            assert(!nodes@.contains(y)) by {
                                if nodes@.contains(y) {
                                    let tt = choose|tt: int|
                                        0 <= tt < nodes@.len() && nodes@[tt] == y;
                                }
                            }
                        }
                    }
                    j = j + 1;
                }
                proof {
                    assert forall|b: usize|
                        nodes@.contains(b) && #[trigger] g.weight(u, b) is Some
                        implies r@.contains((u, b, g.weight(u, b).unwrap())) by {
                        let w = g.weight(u, b).unwrap();
                        crate::graph::lemma_find_w_some(g.adj_seq_at(pos as int), b);
                        let jj = choose|jj: int|
                            0 <= jj < g.adj_seq_at(pos as int).len() && g.adj_seq_at(pos as int)[jj].0
                                == b && g.adj_seq_at(pos as int)[jj].1 == w;
                        assert(g.nbr(pos as int, jj) == (b, w));
                    }
                }
            },
            None => {
                proof {
                    assert(forall|b: usize| g.weight(u, b) is None);
                }
            },
        }
        proof {
            assert forall|mm: int, b: usize|
                0 <= mm < m + 1 && nodes@.contains(b) && #[trigger] g.weight(nodes@[mm], b)
                    is Some implies r@.contains(
                (nodes@[mm], b, g.weight(nodes@[mm], b).unwrap()),
            ) by {
                if mm == m {
                    assert(nodes@[mm] == u);
                }
            }
        }
        m = m + 1;
    }
    proof {
        assert forall|a: usize, b: usize|
            nodes@.contains(a) && nodes@.contains(b) && #[trigger] g.weight(a, b) is Some
            implies r@.contains((a, b, g.weight(a, b).unwrap())) by {
            let mm = choose|mm: int| 0 <= mm < nodes@.len() && nodes@[mm] == a;
        }
    }
    r
}

/// Number of nodes in the graph.
pub fn get_node_count(g: &Graph) -> (r: usize)
    ensures
        r == g.node_count(),
{
    g.num_nodes()
}

/// Number of undirected edges: half the sum of all node degrees.
pub fn get_edge_count(g: &Graph) -> (r: usize)
    requires
        g.wf(),
    ensures
        r == g.sum_degrees() / 2,
{
    g.entry_total / 2
}

} // verus!
