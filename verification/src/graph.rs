//! The net-merging graph.
//!
//! Pins are graph nodes and connections are undirected edges. The graph's one
//! contractual output is a labeling of the nodes such that two nodes carry the
//! same label exactly when they are weakly connected; each label is the
//! smallest node id of its equivalence class. The labeling is maintained
//! incrementally: adding an edge merges the two classes it touches.

use vstd::prelude::*;

verus! {

/// Weak connectivity under a sequence of undirected edges: the equivalence
/// closure of the edge set. Appending an edge `(u, v)` merges the classes of
/// `u` and `v`: two nodes are connected afterwards when they were connected
/// before, or when each of them was connected to one of the new edge's
/// endpoints.
pub open spec fn same_net(edges: Seq<(int, int)>, a: int, b: int) -> bool
    decreases edges.len(),
{
    if edges.len() == 0 {
        a == b
    } else {
        let e = edges.last();
        let rest = edges.drop_last();
        same_net(rest, a, b) || ((same_net(rest, a, e.0) || same_net(rest, a, e.1)) && (
        same_net(rest, b, e.0) || same_net(rest, b, e.1)))
    }
}

/// Every node is connected to itself, whatever the edges.
pub proof fn lemma_same_net_refl(edges: Seq<(int, int)>, a: int)
    ensures
        same_net(edges, a, a),
    decreases edges.len(),
{
    if edges.len() > 0 {
        lemma_same_net_refl(edges.drop_last(), a);
    }
}

/// A node outside the range that every edge endpoint lies in is connected to
/// nothing but itself.
pub proof fn lemma_same_net_fresh(edges: Seq<(int, int)>, n: int, a: int, b: int)
    requires
        forall|k: int|
            0 <= k < edges.len() ==> 0 <= (#[trigger] edges[k]).0 < n && 0 <= edges[k].1 < n,
        a != b,
        a >= n || b >= n,
    ensures
        !same_net(edges, a, b),
    decreases edges.len(),
{
    if edges.len() > 0 {
        let e = edges.last();
        let rest = edges.drop_last();
        assert(forall|k: int|
            0 <= k < rest.len() ==> 0 <= (#[trigger] rest[k]).0 < n && 0 <= rest[k].1 < n);
        lemma_same_net_fresh(rest, n, a, b);
        if a >= n {
            lemma_same_net_fresh(rest, n, a, e.0);
            lemma_same_net_fresh(rest, n, a, e.1);
        } else {
            lemma_same_net_fresh(rest, n, b, e.0);
            lemma_same_net_fresh(rest, n, b, e.1);
        }
    }
}

/// Unfolds `same_net` over a push: connectivity under `edges + [(u, v)]` is
/// connectivity under `edges`, or connectivity of both sides to the new
/// edge's endpoints.
pub proof fn lemma_same_net_push(edges: Seq<(int, int)>, u: int, v: int, a: int, b: int)
    ensures
        same_net(edges.push((u, v)), a, b) <==> (same_net(edges, a, b) || ((same_net(edges, a, u)
            || same_net(edges, a, v)) && (same_net(edges, b, u) || same_net(edges, b, v)))),
{
    let pushed = edges.push((u, v));
    assert(pushed.drop_last() =~= edges);
    assert(pushed.last() == (u, v));
}

/// The connection graph: a set of nodes `0 .. node_count()` and the
/// undirected edges added so far, with an incrementally maintained labeling
/// of the weakly-connected classes.
pub struct Graph {
    labels: Vec<usize>,
    edges: Ghost<Seq<(int, int)>>,
}

impl Graph {
    /// The per-node class labels; two nodes share a net exactly when their
    /// labels are equal.
    pub closed spec fn nets(self) -> Seq<usize> {
        self.labels@
    }

    /// The edges added so far, in order.
    pub closed spec fn edge_list(self) -> Seq<(int, int)> {
        self.edges@
    }

    pub open spec fn node_count(self) -> nat {
        self.nets().len()
    }

    /// Well-formedness: labels are class minima (hence bounded by the node
    /// id), edge endpoints are nodes, and equal labels characterize weak
    /// connectivity.
    pub open spec fn wf(self) -> bool {
        &&& forall|i: int| 0 <= i < self.node_count() ==> #[trigger] self.nets()[i] <= i
        &&& forall|k: int|
            0 <= k < self.edge_list().len() ==> 0 <= (#[trigger] self.edge_list()[k]).0
                < self.node_count() && 0 <= self.edge_list()[k].1 < self.node_count()
        &&& forall|a: int, b: int|
            0 <= a < self.node_count() && 0 <= b < self.node_count() ==> ((self.nets()[a]
                == self.nets()[b]) <==> #[trigger] same_net(self.edge_list(), a, b))
    }

    /// Creates an empty graph.
    pub fn new() -> (g: Graph)
        ensures
            g.wf(),
            g.node_count() == 0,
            g.edge_list() =~= Seq::<(int, int)>::empty(),
    {
        Graph { labels: Vec::new(), edges: Ghost(Seq::empty()) }
    }

    /// Allocates a fresh node; the new node forms a net of its own.
    pub fn add_node(&mut self) -> (id: usize)
        requires
            old(self).wf(),
            old(self).node_count() < usize::MAX,
        ensures
            final(self).wf(),
            id == old(self).node_count(),
            final(self).node_count() == old(self).node_count() + 1,
            final(self).edge_list() == old(self).edge_list(),
            final(self).nets() == old(self).nets().push(id),
    {
        let id = self.labels.len();
        self.labels.push(id);
        proof {
            let n = id as int;
            assert(self.edge_list() == old(self).edge_list());
            assert forall|k: int|
                0 <= k < self.edge_list().len() implies 0 <= (#[trigger] self.edge_list()[k]).0
                < n && 0 <= self.edge_list()[k].1 < n by {
                assert(old(self).edge_list()[k] == self.edge_list()[k]);
            }
            assert forall|a: int, b: int|
                0 <= a < self.node_count() && 0 <= b < self.node_count() implies ((self.nets()[a]
                == self.nets()[b]) <==> #[trigger] same_net(self.edge_list(), a, b)) by {
                if a == b {
                    lemma_same_net_refl(self.edge_list(), a);
                } else if a == n || b == n {
                    lemma_same_net_fresh(self.edge_list(), n, a, b);
                    if a == n {
                        assert(old(self).nets()[b] <= b);
                    } else {
                        assert(old(self).nets()[a] <= a);
                    }
                } else {
                    assert(same_net(old(self).edge_list(), a, b) <==> (old(self).nets()[a]
                        == old(self).nets()[b]));
                }
            }
        }
        id
    }

    /// Adds an undirected edge between two existing nodes, merging their nets.
    /// A self-edge, or an edge inside one net, changes nothing but the edge
    /// record.
    pub fn add_edge(&mut self, a: usize, b: usize)
        requires
            old(self).wf(),
            a < old(self).node_count(),
            b < old(self).node_count(),
        ensures
            final(self).wf(),
            final(self).node_count() == old(self).node_count(),
            final(self).edge_list() == old(self).edge_list().push((a as int, b as int)),
    {
        let ghost old_edges = self.edges@;
        let ghost old_nets = self.labels@;
        let la = self.labels[a];
        let lb = self.labels[b];
        if la != lb {
            let keep = if la < lb {
                la
            } else {
                lb
            };
            let gone = if la < lb {
                lb
            } else {
                la
            };
            let n = self.labels.len();
            let mut i: usize = 0;
            while i < n
                invariant
                    n == old_nets.len(),
                    self.labels@.len() == n,
                    i <= n,
                    forall|j: int|
                        0 <= j < i ==> #[trigger] self.labels@[j] == (if old_nets[j] == gone {
                            keep
                        } else {
                            old_nets[j]
                        }),
                    forall|j: int| i <= j < n ==> #[trigger] self.labels@[j] == old_nets[j],
                decreases n - i,
            {
                if self.labels[i] == gone {
                    self.labels[i] = keep;
                }
                i += 1;
            }
        }
        self.edges = Ghost(old_edges.push((a as int, b as int)));
        proof {
            let e = self.edges@;
            assert(e == old_edges.push((a as int, b as int)));
            assert(old_edges == old(self).edge_list());
            let n = old_nets.len() as int;
            let keep: usize = if la < lb {
                la
            } else {
                lb
            };
            let gone: usize = if la < lb {
                lb
            } else {
                la
            };
            assert(la == old_nets[a as int] && lb == old_nets[b as int]);
            assert forall|x: int| 0 <= x < n implies #[trigger] self.nets()[x] == (if la != lb
                && old_nets[x] == gone {
                keep
            } else {
                old_nets[x]
            }) by {}
            assert forall|x: int| 0 <= x < n implies #[trigger] self.nets()[x] <= x by {
                assert(old(self).nets()[x] <= x);
            }
            assert forall|k: int|
                0 <= k < e.len() implies 0 <= (#[trigger] e[k]).0 < n && 0 <= e[k].1 < n by {
                if k < e.len() - 1 {
                    assert(e[k] == old(self).edge_list()[k]);
                }
            }
            assert forall|x: int, y: int|
                0 <= x < n && 0 <= y < n implies ((self.nets()[x] == self.nets()[y])
                <==> #[trigger] same_net(e, x, y)) by {
                lemma_same_net_push(old_edges, a as int, b as int, x, y);
                assert(same_net(old_edges, x, y) <==> old_nets[x] == old_nets[y]);
                assert(same_net(old_edges, x, a as int) <==> old_nets[x] == la);
                assert(same_net(old_edges, x, b as int) <==> old_nets[x] == lb);
                assert(same_net(old_edges, y, a as int) <==> old_nets[y] == la);
                assert(same_net(old_edges, y, b as int) <==> old_nets[y] == lb);
            }
        }
    }

    /// Returns the current net labeling, indexed by node id: two nodes map to
    /// the same value exactly when they are weakly connected, and each value
    /// is the smallest node id in its class.
    pub fn components(&self) -> (r: Vec<usize>)
        requires
            self.wf(),
        ensures
            r@ == self.nets(),
    {
        let n = self.labels.len();
        let mut r: Vec<usize> = Vec::new();
        let mut i: usize = 0;
        while i < n
            invariant
                n == self.labels@.len(),
                i <= n,
                r@ =~= self.labels@.take(i as int),
            decreases n - i,
        {
            r.push(self.labels[i]);
            i += 1;
        }
        proof {
            assert(r@ =~= self.labels@);
        }
        r
    }

    /// The node ids allocated so far: the dense range below the node count.
    pub fn nodes(&self) -> (r: Vec<usize>)
        ensures
            r@ == Seq::new(self.node_count(), |i: int| i as usize),
    {
        let n = self.labels.len();
        let mut r: Vec<usize> = Vec::new();
        let mut i: usize = 0;
        while i < n
            invariant
                i <= n,
                r@ =~= Seq::new(i as nat, |j: int| j as usize),
            decreases n - i,
        {
            r.push(i);
            i += 1;
        }
        proof {
            assert(r@ =~= Seq::new(n as nat, |j: int| j as usize));
        }
        r
    }
}

} // verus!
