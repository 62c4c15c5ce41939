//! The simulator: pin registry, topology mutation and the change-propagation
//! engine.
//!
//! Pins are dense global ids; pin `0` is the global clock and belongs to no
//! component. Every pin lies in exactly one net (a weakly-connected class of
//! the connection graph) and every net holds one optional boolean level,
//! `None` meaning never driven. Topology mutations recompute the net
//! labeling and replay the levels that driven pins already had; `tick` and
//! `write` feed changes to the propagation engine, which re-evaluates
//! affected components to a fixed point under a bounded recursion depth.

use vstd::prelude::*;

use crate::component::{buf_last, seeded_session, Component, Wrapper, IO};
use crate::graph::{same_net, Graph};
use crate::signal::Signal;

verus! {

/// The engine's fatal error: propagation failed to reach a fixed point
/// within the bounded recursion depth.
#[derive(Clone, Copy, PartialEq, Eq, Structural, Debug)]
pub enum EngineError {
    NonConvergent,
}

/// The recursion bound on change propagation; exceeding it is reported as
/// [`EngineError::NonConvergent`].
pub const PROPAGATION_DEPTH_LIMIT: usize = 512;

/// The simulator. `C` is the component type registered by the host; a host
/// mixing several behaviors registers an enum over them.
pub struct Sim<C: Component> {
    graph: Graph,
    components: Vec<Wrapper<C>>,
    values: Vec<Option<bool>>,
    pin_to_component: Vec<Option<usize>>,
    pin_to_net: Vec<usize>,
}

/// The level that survives replaying the snapshot `levels` (per pin, in pin
/// order) into net `nid` under the labeling `nets`, considering pins below
/// `upto`: the level of the highest driven pin of the net, `None` when the
/// net holds no driven pin.
pub open spec fn replayed(levels: Seq<Option<bool>>, nets: Seq<usize>, nid: int, upto: int) -> Option<
    bool,
>
    decreases upto,
{
    if upto <= 0 {
        None
    } else if nets[upto - 1] == nid && levels[upto - 1] is Some {
        levels[upto - 1]
    } else {
        replayed(levels, nets, nid, upto - 1)
    }
}

/// A driven pin in the net keeps the net driven through a replay.
pub proof fn lemma_replayed_some(
    levels: Seq<Option<bool>>,
    nets: Seq<usize>,
    nid: int,
    upto: int,
    q: int,
)
    requires
        0 <= q < upto,
        nets[q] == nid,
        levels[q] is Some,
    ensures
        replayed(levels, nets, nid, upto) is Some,
    decreases upto,
{
    if q < upto - 1 {
        lemma_replayed_some(levels, nets, nid, (upto - 1) as int, q);
    }
}

/// When every driven pin of the net agrees on a level, the replay yields it.
pub proof fn lemma_replayed_agree(
    levels: Seq<Option<bool>>,
    nets: Seq<usize>,
    nid: int,
    upto: int,
    v: bool,
)
    requires
        forall|q: int|
            0 <= q < upto && nets[q] == nid && #[trigger] levels[q] is Some ==> levels[q] == Some(
                v,
            ),
        exists|q: int| 0 <= q < upto && nets[q] == nid && #[trigger] levels[q] is Some,
    ensures
        replayed(levels, nets, nid, upto) == Some(v),
    decreases upto,
{
    let q = choose|q: int| 0 <= q < upto && nets[q] == nid && #[trigger] levels[q] is Some;
    if !(nets[upto - 1] == nid && levels[upto - 1] is Some) {
        lemma_replayed_agree(levels, nets, nid, upto - 1, v);
    }
}

impl<C: Component> Sim<C> {
    /// The net id of each pin.
    pub closed spec fn nets(self) -> Seq<usize> {
        self.pin_to_net@
    }

    /// The level of each net, indexed by net id.
    pub closed spec fn net_levels(self) -> Seq<Option<bool>> {
        self.values@
    }

    /// The owning component of each pin; `None` exactly for pin 0.
    pub closed spec fn owners(self) -> Seq<Option<usize>> {
        self.pin_to_component@
    }

    /// The registered component wrappers, indexed by component key.
    pub closed spec fn wrappers(self) -> Seq<Wrapper<C>> {
        self.components@
    }

    /// The connection graph itself.
    pub closed spec fn net_graph(self) -> Graph {
        self.graph
    }

    /// The connection edges added so far.
    pub closed spec fn edge_list(self) -> Seq<(int, int)> {
        self.graph.edge_list()
    }

    pub open spec fn pin_count(self) -> nat {
        self.nets().len()
    }

    /// The level of the net that pin `p` lies in.
    pub open spec fn net_level(self, p: int) -> Option<bool> {
        self.net_levels()[self.nets()[p] as int]
    }

    /// What an external read of pin `p` yields: `true` only for a net driven
    /// high; an undriven net reads low.
    pub open spec fn level_high(self, p: int) -> bool {
        self.net_level(p) == Some(true)
    }

    /// The clock level: the level of pin 0's net.
    pub open spec fn clk(self) -> bool {
        self.level_high(0)
    }

    /// Whether pin `p` shares the clock's net.
    pub open spec fn on_clk_net(self, p: int) -> bool {
        self.nets()[p] == self.nets()[0]
    }

    /// Whether pin `p` is alone in its net.
    pub open spec fn lone_net(self, p: int) -> bool {
        forall|q: int| 0 <= q < self.pin_count() && self.nets()[q] == self.nets()[p] ==> q == p
    }

    /// The global pin of component `c`'s local pin `i`.
    pub open spec fn spec_pin(self, c: int, i: int) -> int {
        self.wrappers()[c].pin_seq()[i - 1] as int
    }

    /// Validity of a `(component, local pin)` address.
    pub open spec fn valid_pin(self, c: int, i: int) -> bool {
        0 <= c < self.wrappers().len() && 1 <= i <= self.wrappers()[c].pin_seq().len()
    }

    /// The registry's own well-formedness: every array is indexed by the
    /// same dense pin space, pin 0 is unowned, and each wrapper owns exactly
    /// the pins that map back to it. Between a graph mutation and the
    /// following net recompute the net labeling may be stale but stays
    /// bounded.
    pub open spec fn regs_wf(self) -> bool {
        &&& self.pin_count() >= 1
        &&& self.net_graph().wf()
        &&& self.net_graph().node_count() == self.pin_count()
        &&& forall|p: int| 0 <= p < self.pin_count() ==> #[trigger] self.nets()[p] < self.pin_count()
        &&& self.net_levels().len() == self.pin_count()
        &&& self.owners().len() == self.pin_count()
        &&& self.owners()[0] is None
        &&& forall|k: int| 0 <= k < self.wrappers().len() ==> (#[trigger] self.wrappers()[k]).wf()
        &&& forall|k: int, i: int|
            0 <= k < self.wrappers().len() && 0 <= i < self.wrappers()[k].pin_seq().len() ==> {
                let p = #[trigger] self.wrappers()[k].pin_seq()[i];
                &&& p < self.pin_count()
                &&& self.owners()[p as int] == Some(k as usize)
                &&& p == self.wrappers()[k].pin_seq()[0] + i
            }
        &&& forall|p: int|
            0 <= p < self.pin_count() && (#[trigger] self.owners()[p]) is Some
                ==> self.owners()[p]->0 < self.wrappers().len()
    }

    /// Well-formedness: a well-formed registry whose net assignment mirrors
    /// the graph's current labeling, so two pins share a net id exactly when
    /// they are weakly connected under the recorded edges.
    pub open spec fn wf(self) -> bool {
        &&& self.regs_wf()
        &&& self.nets() == self.net_graph().nets()
        &&& forall|a: int, b: int|
            0 <= a < self.pin_count() && 0 <= b < self.pin_count() ==> ((self.nets()[a]
                == self.nets()[b]) <==> #[trigger] same_net(self.edge_list(), a, b))
    }

    /// The parts of the simulator that propagation never changes: the
    /// topology, the pin space, the ownership map and each component's pins.
    pub open spec fn same_shape(self, other: Sim<C>) -> bool {
        &&& self.net_graph() == other.net_graph()
        &&& self.nets() == other.nets()
        &&& self.owners() == other.owners()
        &&& self.net_levels().len() == other.net_levels().len()
        &&& self.wrappers().len() == other.wrappers().len()
        &&& forall|k: int|
            0 <= k < self.wrappers().len() ==> (#[trigger] self.wrappers()[k]).pin_seq()
                == other.wrappers()[k].pin_seq()
    }

    /// Creates a simulator holding only the global clock pin 0, undriven.
    pub fn new() -> (s: Sim<C>)
        ensures
            s.wf(),
            s.pin_count() == 1,
            s.wrappers().len() == 0,
            s.edge_list() =~= Seq::<(int, int)>::empty(),
            s.net_level(0) is None,
            !s.clk(),
    {
        let mut graph = Graph::new();
        let clk_pin = graph.add_node();
        let mut values: Vec<Option<bool>> = Vec::new();
        values.push(None);
        let mut pin_to_component: Vec<Option<usize>> = Vec::new();
        pin_to_component.push(None);
        let mut pin_to_net: Vec<usize> = Vec::new();
        pin_to_net.push(clk_pin);
        let s = Sim { graph, components: Vec::new(), values, pin_to_component, pin_to_net };
        proof {
            assert(s.nets() =~= s.graph.nets());
        }
        s
    }

    /// The level of pin `pin`'s net.
    fn _read(&self, pin: usize) -> (r: Option<bool>)
        requires
            self.wf(),
            pin < self.pin_count(),
        ensures
            r == self.net_level(pin as int),
    {
        self.values[self.pin_to_net[pin]]
    }

    /// Drives pin `pin`'s net to `value`.
    fn _write(&mut self, pin: usize, value: bool)
        requires
            old(self).wf(),
            pin < old(self).pin_count(),
        ensures
            final(self).wf(),
            final(self).same_shape(*old(self)),
            final(self).wrappers() == old(self).wrappers(),
            final(self).net_levels() == old(self).net_levels().update(
                old(self).nets()[pin as int] as int,
                Some(value),
            ),
    {
        let nid = self.pin_to_net[pin];
        self.values[nid] = Some(value);
    }

    /// Resolves component `c`'s local pin `i` to its global pin id. The
    /// result is a registered, component-owned pin, hence never pin 0.
    fn pin(&self, c: usize, i: usize) -> (p: usize)
        requires
            self.wf(),
            self.valid_pin(c as int, i as int),
        ensures
            p == self.spec_pin(c as int, i as int),
            p < self.pin_count(),
            p != 0,
            self.owners()[p as int] == Some(c),
    {
        let p = self.components[c].pins()[i - 1];
        proof {
            assert(self.owners()[p as int] == Some(c));
        }
        p
    }

    /// Allocates a fresh pin: a new graph node forming a net of its own,
    /// undriven, owned by no component yet.
    fn create_pin(&mut self) -> (p: usize)
        requires
            old(self).wf(),
            old(self).pin_count() < usize::MAX,
        ensures
            final(self).wf(),
            p == old(self).pin_count(),
            final(self).pin_count() == old(self).pin_count() + 1,
            final(self).nets() == old(self).nets().push(p),
            final(self).nets()[p as int] == p,
            final(self).net_levels() == old(self).net_levels().push(None::<bool>),
            final(self).owners() == old(self).owners().push(None::<usize>),
            final(self).wrappers() == old(self).wrappers(),
            final(self).edge_list() == old(self).edge_list(),
    {
        let p = self.graph.add_node();
        self.pin_to_net.push(p);
        self.values.push(None);
        self.pin_to_component.push(None);
        proof {
            assert(self.nets() =~= self.graph.nets());
        }
        p
    }

    /// Recomputes the net labeling from the graph and replays the level of
    /// every driven pin into the fresh level array, in pin order, so a net's
    /// level is that of its highest driven pin.
    fn update_connections(&mut self)
        requires
            old(self).regs_wf(),
        ensures
            final(self).wf(),
            final(self).net_graph() == old(self).net_graph(),
            final(self).wrappers() == old(self).wrappers(),
            final(self).owners() == old(self).owners(),
            final(self).pin_count() == old(self).pin_count(),
            forall|nid: int|
                0 <= nid < final(self).pin_count() ==> final(self).net_levels()[nid] == replayed(
                    Seq::new(old(self).pin_count(), |p: int| old(self).net_level(p)),
                    final(self).nets(),
                    nid,
                    old(self).pin_count() as int,
                ),
    {
        let ghost snapshot = Seq::new(old(self).pin_count(), |p: int| old(self).net_level(p));
        let n = self.pin_to_net.len();
        let mut snap: Vec<Option<bool>> = Vec::new();
        let mut p: usize = 0;
        while p < n
            invariant
                self == old(self),
                old(self).regs_wf(),
                n == old(self).pin_count(),
                snapshot == Seq::new(old(self).pin_count(), |q: int| old(self).net_level(q)),
                p <= n,
                snap@ =~= snapshot.take(p as int),
            decreases n - p,
        {
            snap.push(self.values[self.pin_to_net[p]]);
            p += 1;
        }
        proof {
            assert(snap@ =~= snapshot);
        }
        let labels = self.graph.components();
        self.pin_to_net = labels;
        let mut fresh: Vec<Option<bool>> = Vec::new();
        let mut i: usize = 0;
        while i < n
            invariant
                i <= n,
                fresh@ =~= Seq::new(i as nat, |j: int| None::<bool>),
            decreases n - i,
        {
            fresh.push(None);
            i += 1;
        }
        self.values = fresh;
        p = 0;
        while p < n
            invariant
                n == old(self).pin_count(),
                self.net_graph() == old(self).net_graph(),
                self.wrappers() == old(self).wrappers(),
                self.owners() == old(self).owners(),
                self.nets() == self.net_graph().nets(),
                self.nets().len() == n,
                self.net_graph().wf(),
                self.net_levels().len() == n,
                forall|q: int| 0 <= q < n ==> #[trigger] self.nets()[q] < n,
                snap@ == snapshot,
                snapshot.len() == n,
                p <= n,
                forall|nid: int|
                    0 <= nid < n ==> #[trigger] self.net_levels()[nid] == replayed(
                        snapshot,
                        self.nets(),
                        nid,
                        p as int,
                    ),
            decreases n - p,
        {
            match snap[p] {
                Some(v) => {
                    let nid = self.pin_to_net[p];
                    self.values[nid] = Some(v);
                },
                None => {},
            }
            p += 1;
            proof {
                assert forall|nid: int|
                    0 <= nid < n implies #[trigger] self.net_levels()[nid] == replayed(
                    snapshot,
                    self.nets(),
                    nid,
                    p as int,
                ) by {
                    assert(replayed(snapshot, self.nets(), nid, p as int) == (if self.nets()[p - 1]
                        == nid && snapshot[p - 1] is Some {
                        snapshot[p - 1]
                    } else {
                        replayed(snapshot, self.nets(), nid, p - 1)
                    }));
                }
            }
        }
        proof {
            assert forall|q: int| 0 <= q < n implies #[trigger] self.nets()[q] < n by {
                assert(self.net_graph().nets()[q] <= q);
            }
        }
    }

    /// Connects two component pins: adds the undirected edge and recomputes
    /// nets, replaying every driven level. A pin that was driven before
    /// stays driven.
    pub fn connect(&mut self, c1: usize, pin1: usize, c2: usize, pin2: usize)
        requires
            old(self).wf(),
            old(self).valid_pin(c1 as int, pin1 as int),
            old(self).valid_pin(c2 as int, pin2 as int),
        ensures
            final(self).wf(),
            final(self).edge_list() == old(self).edge_list().push(
                (old(self).spec_pin(c1 as int, pin1 as int), old(self).spec_pin(c2 as int, pin2 as int)),
            ),
            final(self).pin_count() == old(self).pin_count(),
            final(self).owners() == old(self).owners(),
            final(self).wrappers() == old(self).wrappers(),
            forall|nid: int|
                0 <= nid < final(self).pin_count() ==> final(self).net_levels()[nid] == replayed(
                    Seq::new(old(self).pin_count(), |p: int| old(self).net_level(p)),
                    final(self).nets(),
                    nid,
                    old(self).pin_count() as int,
                ),
            forall|p: int|
                0 <= p < old(self).pin_count() && old(self).net_level(p) is Some
                    ==> final(self).net_level(p) is Some,
    {
        let g1 = self.pin(c1, pin1);
        let g2 = self.pin(c2, pin2);
        self.graph.add_edge(g1, g2);
        let ghost mid2 = *self;
        self.update_connections();
        proof {
            assert(Seq::new(mid2.pin_count(), |p: int| mid2.net_level(p)) =~= Seq::new(
                old(self).pin_count(),
                |p: int| old(self).net_level(p),
            ));
            self.lemma_driven_stays_driven(*old(self));
        }
    }

    /// Connects a component pin to the global clock net (pin 0).
    pub fn connect_to_clk(&mut self, c: usize, pin: usize)
        requires
            old(self).wf(),
            old(self).valid_pin(c as int, pin as int),
        ensures
            final(self).wf(),
            final(self).edge_list() == old(self).edge_list().push(
                (old(self).spec_pin(c as int, pin as int), 0),
            ),
            final(self).pin_count() == old(self).pin_count(),
            final(self).owners() == old(self).owners(),
            final(self).wrappers() == old(self).wrappers(),
            forall|nid: int|
                0 <= nid < final(self).pin_count() ==> final(self).net_levels()[nid] == replayed(
                    Seq::new(old(self).pin_count(), |p: int| old(self).net_level(p)),
                    final(self).nets(),
                    nid,
                    old(self).pin_count() as int,
                ),
            forall|p: int|
                0 <= p < old(self).pin_count() && old(self).net_level(p) is Some
                    ==> final(self).net_level(p) is Some,
    {
        let g = self.pin(c, pin);
        self.graph.add_edge(g, 0);
        let ghost mid2 = *self;
        self.update_connections();
        proof {
            assert(Seq::new(mid2.pin_count(), |p: int| mid2.net_level(p)) =~= Seq::new(
                old(self).pin_count(),
                |p: int| old(self).net_level(p),
            ));
            self.lemma_driven_stays_driven(*old(self));
        }
    }

    /// Topology mutation preserves drive: a pin whose net held a level
    /// before a recompute lies in a net holding a level after it. Follows
    /// from the replay characterization that the connect operations ensure.
    pub proof fn lemma_driven_stays_driven(self, prior: Sim<C>)
        requires
            self.pin_count() == prior.pin_count(),
            self.net_levels().len() == self.pin_count(),
            forall|q: int| 0 <= q < self.pin_count() ==> #[trigger] self.nets()[q] < self.pin_count(),
            forall|nid: int|
                0 <= nid < self.pin_count() ==> #[trigger] self.net_levels()[nid] == replayed(
                    Seq::new(prior.pin_count(), |p: int| prior.net_level(p)),
                    self.nets(),
                    nid,
                    prior.pin_count() as int,
                ),
        ensures
            forall|p: int|
                0 <= p < prior.pin_count() && prior.net_level(p) is Some
                    ==> self.net_level(p) is Some,
    {
        let snapshot = Seq::new(prior.pin_count(), |p: int| prior.net_level(p));
        assert forall|p: int|
            0 <= p < prior.pin_count() && prior.net_level(p) is Some implies self.net_level(
            p,
        ) is Some by {
            lemma_replayed_some(
                snapshot,
                self.nets(),
                self.nets()[p] as int,
                prior.pin_count() as int,
                p,
            );
        }
    }

    /// Connects pins pairwise: local pins `pins1[j]` of `c1` to `pins2[j]`
    /// of `c2`, then recomputes nets once.
    pub fn connect_bulk(&mut self, c1: usize, pins1: &[usize], c2: usize, pins2: &[usize])
        requires
            old(self).wf(),
            pins1@.len() == pins2@.len(),
            forall|j: int|
                0 <= j < pins1@.len() ==> old(self).valid_pin(c1 as int, #[trigger] pins1@[j] as int),
            forall|j: int|
                0 <= j < pins2@.len() ==> old(self).valid_pin(c2 as int, #[trigger] pins2@[j] as int),
        ensures
            final(self).wf(),
            final(self).edge_list() == old(self).edge_list() + Seq::new(
                pins1@.len(),
                |j: int| (
                    old(self).spec_pin(c1 as int, pins1@[j] as int),
                    old(self).spec_pin(c2 as int, pins2@[j] as int),
                ),
            ),
            final(self).pin_count() == old(self).pin_count(),
            final(self).owners() == old(self).owners(),
            final(self).wrappers() == old(self).wrappers(),
            forall|nid: int|
                0 <= nid < final(self).pin_count() ==> final(self).net_levels()[nid] == replayed(
                    Seq::new(old(self).pin_count(), |p: int| old(self).net_level(p)),
                    final(self).nets(),
                    nid,
                    old(self).pin_count() as int,
                ),
            forall|p: int|
                0 <= p < old(self).pin_count() && old(self).net_level(p) is Some
                    ==> final(self).net_level(p) is Some,
    {
        let ghost added = Seq::new(
            pins1@.len(),
            |j: int| (
                old(self).spec_pin(c1 as int, pins1@[j] as int),
                old(self).spec_pin(c2 as int, pins2@[j] as int),
            ),
        );
        let len = pins1.len();
        let mut resolved: Vec<(usize, usize)> = Vec::new();
        let mut j: usize = 0;
        while j < len
            invariant
                self == old(self),
                old(self).wf(),
                len == pins1@.len(),
                pins2@.len() == len,
                forall|t: int|
                    0 <= t < len ==> old(self).valid_pin(c1 as int, #[trigger] pins1@[t] as int),
                forall|t: int|
                    0 <= t < len ==> old(self).valid_pin(c2 as int, #[trigger] pins2@[t] as int),
                added == Seq::new(
                    pins1@.len(),
                    |t: int| (
                        old(self).spec_pin(c1 as int, pins1@[t] as int),
                        old(self).spec_pin(c2 as int, pins2@[t] as int),
                    ),
                ),
                j <= len,
                resolved@.len() == j,
                forall|t: int|
                    0 <= t < j ==> ((#[trigger] resolved@[t]).0 as int, resolved@[t].1 as int)
                        == added[t] && resolved@[t].0 < old(self).pin_count() && resolved@[t].1 < old(
                        self,
                    ).pin_count(),
            decreases len - j,
        {
            let g1 = self.pin(c1, pins1[j]);
            let g2 = self.pin(c2, pins2[j]);
            resolved.push((g1, g2));
            j += 1;
        }
        j = 0;
        while j < len
            invariant
                len == resolved@.len(),
                added.len() == len,
                self.regs_wf(),
                self.net_graph().node_count() == old(self).pin_count(),
                self.pin_count() == old(self).pin_count(),
                self.wrappers() == old(self).wrappers(),
                self.owners() == old(self).owners(),
                self.net_levels() == old(self).net_levels(),
                self.nets() == old(self).nets(),
                forall|t: int|
                    0 <= t < len ==> ((#[trigger] resolved@[t]).0 as int, resolved@[t].1 as int)
                        == added[t] && resolved@[t].0 < old(self).pin_count() && resolved@[t].1 < old(
                        self,
                    ).pin_count(),
                j <= len,
                self.edge_list() =~= old(self).edge_list() + added.take(j as int),
            decreases len - j,
        {
            let (g1, g2) = resolved[j];
            self.graph.add_edge(g1, g2);
            j += 1;
            proof {
                assert(self.edge_list() =~= old(self).edge_list() + added.take(j as int));
            }
        }
        proof {
            assert(added.take(len as int) =~= added);
        }
        let ghost mid2 = *self;
        self.update_connections();
        proof {
            assert(Seq::new(mid2.pin_count(), |p: int| mid2.net_level(p)) =~= Seq::new(
                old(self).pin_count(),
                |p: int| old(self).net_level(p),
            ));
            self.lemma_driven_stays_driven(*old(self));
        }
    }

    /// All pins sharing `pin`'s net, in ascending pin order: exactly the
    /// pins weakly connected to `pin` in the connection graph.
    pub fn peers(&self, pin: usize) -> (r: Vec<usize>)
        requires
            self.wf(),
            pin < self.pin_count(),
        ensures
            forall|q: int|
                0 <= q < self.pin_count() ==> (r@.contains(q as usize) <==> same_net(
                    self.edge_list(),
                    pin as int,
                    q,
                )),
            forall|j: int| 0 <= j < r@.len() ==> #[trigger] r@[j] < self.pin_count(),
            forall|j1: int, j2: int| 0 <= j1 < j2 < r@.len() ==> r@[j1] < r@[j2],
    {
        let n = self.pin_to_net.len();
        let nid = self.pin_to_net[pin];
        let mut r: Vec<usize> = Vec::new();
        let mut q: usize = 0;
        while q < n
            invariant
                self.wf(),
                n == self.pin_count(),
                pin < n,
                nid == self.nets()[pin as int],
                q <= n,
                forall|t: int| 0 <= t < q ==> (r@.contains(t as usize) <==> self.nets()[t] == nid),
                forall|j: int| 0 <= j < r@.len() ==> #[trigger] r@[j] < q,
                forall|j1: int, j2: int| 0 <= j1 < j2 < r@.len() ==> r@[j1] < r@[j2],
            decreases n - q,
        {
            if self.pin_to_net[q] == nid {
                let ghost prev = r@;
                r.push(q);
                proof {
                    assert(r@[prev.len() as int] == q);
                    assert forall|t: int|
                        0 <= t < q + 1 implies (r@.contains(t as usize) <==> self.nets()[t]
                        == nid) by {
                        if t < q {
                            if prev.contains(t as usize) {
                                let w = choose|w: int| 0 <= w < prev.len() && prev[w] == t as usize;
                                assert(r@[w] == t as usize);
                            }
                            if r@.contains(t as usize) {
                                let w = choose|w: int| 0 <= w < r@.len() && r@[w] == t as usize;
                                if w < prev.len() {
                                    assert(prev[w] == t as usize);
                                }
                            }
                        }
                    }
                }
            }
            q += 1;
        }
        proof {
            assert forall|t: int|
                0 <= t < n implies (r@.contains(t as usize) <==> same_net(
                self.edge_list(),
                pin as int,
                t,
            )) by {
                assert(self.nets()[t] == nid <==> same_net(self.edge_list(), pin as int, t));
            }
        }
        r
    }

    /// Reads a component pin: the level of its net, low when undriven.
    pub fn read(&self, c: usize, pin: usize) -> (r: bool)
        requires
            self.wf(),
            self.valid_pin(c as int, pin as int),
        ensures
            r == self.level_high(self.spec_pin(c as int, pin as int)),
    {
        let p = self.pin(c, pin);
        match self._read(p) {
            Some(b) => b,
            None => false,
        }
    }

    /// Reads the clock level; an undriven clock net reads low.
    pub fn read_clk(&self) -> (r: bool)
        requires
            self.wf(),
        ensures
            r == self.clk(),
    {
        match self._read(0) {
            Some(b) => b,
            None => false,
        }
    }


    /// Whether an intended change is dropped by the commit step: a non-tick
    /// write aimed at the clock net (the clock net's level is owned by the
    /// tick driver alone), or a write that matches the net's current level.
    pub open spec fn change_dropped(self, p: int, v: bool) -> bool {
        (p != 0 && self.on_clk_net(p)) || self.net_level(p) == Some(v)
    }

    /// One round of the propagation engine: reads the intended changes as a
    /// mapping (only the last write per pin counts), commits the surviving
    /// changes, derives the affected components and re-evaluates each of
    /// them, recursing on the change buffers they produce until no change
    /// survives or the recursion bound runs out.
    ///
    /// `update_self` is true only for an external write, which alone may
    /// re-trigger the component owning the written pin.
    #[verifier::rlimit(100)]
    fn propagate_changes(
        &mut self,
        changes: &Vec<(usize, bool)>,
        update_self: bool,
        fuel: usize,
    ) -> (r: Result<(), EngineError>)
        requires
            old(self).wf(),
            forall|j: int|
                0 <= j < changes@.len() ==> (#[trigger] changes@[j]).0 < old(self).pin_count(),
        ensures
            final(self).wf(),
            final(self).same_shape(*old(self)),
            (forall|j: int| 0 <= j < changes@.len() ==> (#[trigger] changes@[j]).0 != 0)
                ==> final(self).net_level(0) == old(self).net_level(0),
            (changes@.len() == 1 && changes@[0].0 == 0) ==> final(self).net_level(0) == Some(
                changes@[0].1,
            ),
            forall|j: int|
                0 <= j < changes@.len() && ((#[trigger] changes@[j]).0 == 0 || !old(
                    self,
                ).on_clk_net(changes@[j].0 as int)) ==> final(self).net_level(
                    changes@[j].0 as int,
                ) is Some,
            forall|nid: int|
                0 <= nid < old(self).net_levels().len() && (#[trigger] old(
                    self,
                ).net_levels()[nid]) is Some ==> final(self).net_levels()[nid] is Some,
            (forall|j: int|
                0 <= j < changes@.len() ==> old(self).change_dropped(
                    (#[trigger] changes@[j]).0 as int,
                    changes@[j].1,
                )) ==> (r is Ok && final(self).net_levels() == old(self).net_levels()
                && final(self).wrappers() == old(self).wrappers()),
            (!update_self && (forall|j: int|
                0 <= j < changes@.len() ==> old(self).lone_net((#[trigger] changes@[j]).0 as int)))
                ==> (r is Ok && final(self).wrappers() == old(self).wrappers() && (forall|nid: int|
                0 <= nid < old(self).net_levels().len() && (forall|j: int|
                    0 <= j < changes@.len() ==> old(self).nets()[(#[trigger] changes@[j]).0 as int]
                        != nid) ==> final(self).net_levels()[nid] == old(self).net_levels()[nid])
                && (forall|j: int|
                0 <= j < changes@.len() && ((#[trigger] changes@[j]).0 == 0 || !old(
                    self,
                ).on_clk_net(changes@[j].0 as int)) ==> final(self).net_level(
                    changes@[j].0 as int,
                ) == buf_last(changes@, changes@[j].0))),
        decreases fuel, 0int,
    {
        let n = self.pin_to_net.len();
        let clk_net = self.pin_to_net[0];
        let mut changed: Vec<usize> = Vec::new();
        let mut j: usize = 0;
        while j < changes.len()
            invariant
                self.wf(),
                self.same_shape(*old(self)),
                self.wrappers() == old(self).wrappers(),
                n == self.pin_count(),
                clk_net == self.nets()[0],
                forall|t: int|
                    0 <= t < changes@.len() ==> (#[trigger] changes@[t]).0 < self.pin_count(),
                j <= changes@.len(),
                forall|t: int| 0 <= t < changed@.len() ==> #[trigger] changed@[t] < n,
                forall|t: int|
                    0 <= t < changed@.len() ==> exists|jj: int|
                        0 <= jj < changes@.len() && #[trigger] changed@[t] == changes@[jj].0,
                (forall|jj: int| 0 <= jj < changes@.len() ==> (#[trigger] changes@[jj]).0 != 0)
                    ==> self.net_level(0) == old(self).net_level(0),
                (changes@.len() == 1 && changes@[0].0 == 0 && j >= 1) ==> self.net_level(0)
                    == Some(changes@[0].1),
                (forall|jj: int|
                    0 <= jj < changes@.len() ==> old(self).change_dropped(
                        (#[trigger] changes@[jj]).0 as int,
                        changes@[jj].1,
                    )) ==> (self.net_levels() == old(self).net_levels() && changed@.len() == 0),
                forall|nid: int|
                    0 <= nid < old(self).net_levels().len() && (forall|jj: int|
                        0 <= jj < changes@.len() ==> old(self).nets()[(
                        #[trigger] changes@[jj]).0 as int] != nid)
                        ==> #[trigger] self.net_levels()[nid] == old(self).net_levels()[nid],
                forall|jj: int|
                    0 <= jj < j && ((#[trigger] changes@[jj]).0 == 0 || !old(self).on_clk_net(
                        changes@[jj].0 as int,
                    )) && (forall|j2: int|
                        j <= j2 < changes@.len() ==> (#[trigger] changes@[j2]).0 != changes@[jj].0)
                        ==> self.net_level(changes@[jj].0 as int) is Some,
                forall|nid: int|
                    0 <= nid < old(self).net_levels().len() && (#[trigger] old(
                        self,
                    ).net_levels()[nid]) is Some ==> self.net_levels()[nid] is Some,
                (forall|jj: int|
                    0 <= jj < changes@.len() ==> old(self).lone_net(
                        (#[trigger] changes@[jj]).0 as int,
                    )) ==> (forall|jj: int|
                    0 <= jj < j && ((#[trigger] changes@[jj]).0 == 0 || !old(self).on_clk_net(
                        changes@[jj].0 as int,
                    )) && (forall|j2: int|
                        j <= j2 < changes@.len() ==> (#[trigger] changes@[j2]).0 != changes@[jj].0)
                        ==> self.net_level(changes@[jj].0 as int) == buf_last(
                        changes@,
                        changes@[jj].0,
                    )),
            decreases changes@.len() - j,
        {
            let (p, v) = changes[j];
            let mut superseded = false;
            let mut j2 = j + 1;
            while j2 < changes.len()
                invariant
                    j < changes@.len(),
                    p == changes@[j as int].0,
                    j + 1 <= j2 <= changes@.len(),
                    superseded == exists|jx: int|
                        j < jx < j2 && (#[trigger] changes@[jx]).0 == p,
                decreases changes@.len() - j2,
            {
                if changes[j2].0 == p {
                    superseded = true;
                    proof {
                        let w = j2 as int;
                        assert(j < w && w < j2 + 1 && changes@[w].0 == p);
                    }
                }
                j2 += 1;
            }
            if !superseded && (p == 0 || self.pin_to_net[p] != clk_net) {
                let cur = self._read(p);
                let is_same = match cur {
                    Some(b) => b == v,
                    None => false,
                };
                if !is_same {
                    self._write(p, v);
                    changed.push(p);
                    proof {
                        assert(changed@[changed@.len() - 1] == changes@[j as int].0);
                    }
                }
            }
            j += 1;
            proof {
                let je = j - 1;
                let pe = changes@[je].0;
                assert forall|jj: int|
                    0 <= jj < j && ((#[trigger] changes@[jj]).0 == 0 || !old(self).on_clk_net(
                        changes@[jj].0 as int,
                    )) && (forall|j2x: int|
                        j <= j2x < changes@.len() ==> (#[trigger] changes@[j2x]).0
                            != changes@[jj].0) implies self.net_level(
                    changes@[jj].0 as int,
                ) is Some by {
                    if changes@[jj].0 == pe {
                        assert(!superseded);
                    }
                }
                if forall|jj: int|
                    0 <= jj < changes@.len() ==> old(self).lone_net(
                        (#[trigger] changes@[jj]).0 as int,
                    ) {
                    assert forall|jj: int|
                        0 <= jj < j && ((#[trigger] changes@[jj]).0 == 0 || !old(self).on_clk_net(
                            changes@[jj].0 as int,
                        )) && (forall|j2x: int|
                            j <= j2x < changes@.len() ==> (#[trigger] changes@[j2x]).0
                                != changes@[jj].0) implies self.net_level(changes@[jj].0 as int)
                        == buf_last(changes@, changes@[jj].0) by {
                        let pj = changes@[jj].0;
                        if pj == pe {
                            assert(!superseded);
                            crate::component::lemma_buf_last_from_last(changes@, je);
                        } else {
                            assert(old(self).lone_net(pj as int));
                            if old(self).nets()[pe as int] == old(self).nets()[pj as int] {
                                assert(pe == pj);
                            }
                        }
                    }
                }
            }
        }
        let ghost committed = *self;
        let ghost hyp_nonzero = forall|j: int|
            0 <= j < changes@.len() ==> (#[trigger] changes@[j]).0 != 0;
        let ghost hyp_dropped = forall|j: int|
            0 <= j < changes@.len() ==> old(self).change_dropped(
                (#[trigger] changes@[j]).0 as int,
                changes@[j].1,
            );
        let ghost hyp_lone = forall|j: int|
            0 <= j < changes@.len() ==> old(self).lone_net((#[trigger] changes@[j]).0 as int);
        let mut affected: Vec<usize> = Vec::new();
        let mut t: usize = 0;
        while t < changed.len()
            invariant
                *self == committed,
                self.wf(),
                self.same_shape(*old(self)),
                n == self.pin_count(),
                t <= changed@.len(),
                forall|u: int|
                    0 <= u < changed@.len() ==> exists|jj: int|
                        0 <= jj < changes@.len() && #[trigger] changed@[u] == changes@[jj].0,
                forall|u: int| 0 <= u < changed@.len() ==> #[trigger] changed@[u] < n,
                forall|u: int|
                    0 <= u < affected@.len() ==> #[trigger] affected@[u] < self.wrappers().len(),
                changed@.len() == 0 ==> affected@.len() == 0,
                (!update_self && (forall|u: int|
                    0 <= u < changed@.len() ==> self.lone_net(#[trigger] changed@[u] as int)))
                    ==> affected@.len() == 0,
            decreases changed@.len() - t,
        {
            let p = changed[t];
            let p_owner = self.pin_to_component[p];
            let ghost aff_entry = affected@;
            let mut q: usize = 0;
            while q < n
                invariant
                    *self == committed,
                    self.wf(),
                    n == self.pin_count(),
                    p < n,
                    p_owner == self.owners()[p as int],
                    q <= n,
                    forall|u: int|
                        0 <= u < affected@.len() ==> #[trigger] affected@[u]
                            < self.wrappers().len(),
                    (!update_self && self.lone_net(p as int)) ==> affected@ == aff_entry,
                decreases n - q,
            {
                if self.pin_to_net[q] == self.pin_to_net[p] && (update_self || q != p) {
                    proof {
                        if !update_self && self.lone_net(p as int) {
                            assert(self.nets()[q as int] == self.nets()[p as int]);
                            assert(q == p);
                            assert(false);
                        }
                    }
                    match self.pin_to_component[q] {
                        Some(k) => {
                            let allowed = p == 0 || update_self || (match p_owner {
                                Some(kp) => k != kp,
                                None => true,
                            });
                            if allowed && !vec_contains(&affected, k) {
                                affected.push(k);
                            }
                        },
                        None => {},
                    }
                }
                q += 1;
            }
            t += 1;
        }
        if affected.len() == 0 {
            return Ok(());
        }
        proof {
            if hyp_dropped {
                assert(changed@.len() == 0);
                assert(false);
            }
            if !update_self && hyp_lone {
                assert forall|u: int|
                    0 <= u < changed@.len() implies self.lone_net(
                    #[trigger] changed@[u] as int,
                ) by {
                    let jj = choose|jj: int|
                        0 <= jj < changes@.len() && changed@[u] == changes@[jj].0;
                    let p = changed@[u] as int;
                    assert(old(self).lone_net(p));
                    assert(self.nets() == old(self).nets());
                    assert forall|q: int|
                        0 <= q < self.pin_count() && self.nets()[q] == self.nets()[p] implies q
                        == p by {
                        assert(old(self).nets()[q] == old(self).nets()[p]);
                    }
                }
                assert(affected@.len() == 0);
                assert(false);
            }
        }
        if fuel == 0 {
            return Err(EngineError::NonConvergent);
        }
        let mut u: usize = 0;
        while u < affected.len()
            invariant
                self.wf(),
                committed.wf(),
                self.same_shape(committed),
                committed.same_shape(*old(self)),
                committed.wrappers().len() == self.wrappers().len(),
                self.net_level(0) == committed.net_level(0),
                forall|jj: int|
                    0 <= jj < changes@.len() && ((#[trigger] changes@[jj]).0 == 0 || !old(
                        self,
                    ).on_clk_net(changes@[jj].0 as int)) ==> committed.net_level(
                        changes@[jj].0 as int,
                    ) is Some,
                forall|nid: int|
                    0 <= nid < old(self).net_levels().len() && (#[trigger] old(
                        self,
                    ).net_levels()[nid]) is Some ==> committed.net_levels()[nid] is Some,
                forall|nid: int|
                    0 <= nid < committed.net_levels().len() && (#[trigger] committed.net_levels()[nid]) is Some
                        ==> self.net_levels()[nid] is Some,
                forall|t: int|
                    0 <= t < changes@.len() ==> (#[trigger] changes@[t]).0 < committed.pin_count(),
                hyp_nonzero ==> committed.net_level(0) == old(self).net_level(0),
                (changes@.len() == 1 && changes@[0].0 == 0) ==> committed.net_level(0) == Some(
                    changes@[0].1,
                ),
                hyp_nonzero == (forall|j: int|
                    0 <= j < changes@.len() ==> (#[trigger] changes@[j]).0 != 0),
                hyp_dropped == (forall|j: int|
                    0 <= j < changes@.len() ==> old(self).change_dropped(
                        (#[trigger] changes@[j]).0 as int,
                        changes@[j].1,
                    )),
                hyp_lone == (forall|j: int|
                    0 <= j < changes@.len() ==> old(self).lone_net(
                        (#[trigger] changes@[j]).0 as int,
                    )),
                !hyp_dropped,
                update_self || !hyp_lone,
                u <= affected@.len(),
                forall|w: int|
                    0 <= w < affected@.len() ==> #[trigger] affected@[w] < committed.wrappers().len(),
                fuel >= 1,
            decreases affected@.len() - u,
        {
            let k = affected[u];
            let res = self.update_component(k, fuel - 1);
            match res {
                Ok(()) => {},
                Err(e) => {
                    proof {
                        lemma_same_shape_trans(*self, committed, *old(self));
                        assert forall|jx: int|
                            0 <= jx < changes@.len() && ((#[trigger] changes@[jx]).0 == 0 || !old(
                                self,
                            ).on_clk_net(changes@[jx].0 as int)) implies self.net_level(
                            changes@[jx].0 as int,
                        ) is Some by {
                            let px = changes@[jx].0 as int;
                            assert(committed.net_level(px) is Some);
                            assert(self.nets() == committed.nets());
                            assert(self.net_levels()[committed.nets()[px] as int] is Some);
                        }
                    }
                    return Err(e);
                },
            }
            u += 1;
            proof {
                lemma_same_shape_trans(*self, committed, *old(self));
            }
        }
        proof {
            lemma_same_shape_trans(*self, committed, *old(self));
        }
        Ok(())
    }

    /// Re-evaluates one component: reads the level of each of its pins,
    /// advances its persistent input signals (surfacing edges), runs its
    /// behavior and propagates the change buffer it produced. Never touches
    /// the clock net: a component owns no pin of it that the engine would
    /// commit.
    fn update_component(&mut self, key: usize, fuel: usize) -> (r: Result<(), EngineError>)
        requires
            old(self).wf(),
            key < old(self).wrappers().len(),
        ensures
            final(self).wf(),
            final(self).same_shape(*old(self)),
            final(self).net_level(0) == old(self).net_level(0),
            forall|nid: int|
                0 <= nid < old(self).net_levels().len() && (#[trigger] old(
                    self,
                ).net_levels()[nid]) is Some ==> final(self).net_levels()[nid] is Some,
            (forall|i: int|
                0 <= i < old(self).wrappers()[key as int].pin_seq().len() ==> old(self).lone_net(
                    #[trigger] old(self).wrappers()[key as int].pin_seq()[i] as int,
                )) ==> (r is Ok && (forall|nid: int|
                0 <= nid < old(self).net_levels().len() && (forall|i: int|
                    0 <= i < old(self).wrappers()[key as int].pin_seq().len() ==> old(self).nets()[
                    #[trigger] old(self).wrappers()[key as int].pin_seq()[i] as int] != nid)
                    ==> final(self).net_levels()[nid] == old(self).net_levels()[nid])),
            exists|io0: IO, nxt: C, out: IO|
                #![trigger old(self).wrappers()[key as int].behavior().evaluates_to(io0, nxt, out)]
                ({
                    let w0 = old(self).wrappers()[key as int];
                    let assembled = Seq::new(
                        w0.input_seq().len(),
                        |i: int| w0.input_seq()[i].next_spec(
                            old(self).level_high(w0.pin_seq()[i] as int),
                        ),
                    );
                    &&& seeded_session(io0, w0.pin_seq(), assembled)
                    &&& w0.behavior().evaluates_to(io0, nxt, out)
                    &&& forall|j: int|
                        0 <= j < out.buffer().len() ==> w0.pin_seq().contains(
                            (#[trigger] out.buffer()[j]).0,
                        )
                    &&& ((forall|i: int|
                        0 <= i < w0.pin_seq().len() ==> old(self).lone_net(
                            #[trigger] w0.pin_seq()[i] as int,
                        )) ==> {
                        &&& final(self).wrappers()[key as int].behavior() == nxt
                        &&& final(self).wrappers()[key as int].input_seq() == assembled
                        &&& forall|j: int|
                            0 <= j < out.buffer().len() && !old(self).on_clk_net(
                                (#[trigger] out.buffer()[j]).0 as int,
                            ) ==> final(self).net_level(out.buffer()[j].0 as int) == buf_last(
                                out.buffer(),
                                out.buffer()[j].0,
                            )
                        &&& forall|nid: int|
                            0 <= nid < old(self).net_levels().len() && (forall|j: int|
                                0 <= j < out.buffer().len() ==> old(self).nets()[(
                                #[trigger] out.buffer()[j]).0 as int] != nid)
                                ==> final(self).net_levels()[nid] == old(self).net_levels()[nid]
                    })
                }),
        decreases fuel, 1int,
    {
        let npins = self.components[key].pins().len();
        let mut input: Vec<bool> = Vec::new();
        let mut i: usize = 0;
        while i < npins
            invariant
                self == old(self),
                self.wf(),
                key < self.wrappers().len(),
                npins == self.wrappers()[key as int].pin_seq().len(),
                i <= npins,
                input@.len() == i,
                forall|t: int|
                    0 <= t < i ==> #[trigger] input@[t] == old(self).level_high(
                        old(self).wrappers()[key as int].pin_seq()[t] as int,
                    ),
            decreases npins - i,
        {
            let p = self.components[key].pins()[i];
            let lv = self._read(p);
            input.push(
                match lv {
                    Some(b) => b,
                    None => false,
                },
            );
            i += 1;
        }
        let w = &mut self.components[key];
        w.set_input(input);
        let ghost w_mid = *w;
        let changes = w.update();
        let ghost w_fin = *w;
        proof {
            assert forall|k: int|
                0 <= k < self.wrappers().len() implies (#[trigger] self.wrappers()[k]).wf()
                && self.wrappers()[k].pin_seq() == old(self).wrappers()[k].pin_seq() by {
                if k != key {
                    assert(self.wrappers()[k] == old(self).wrappers()[k]);
                }
            }
            assert forall|k: int, i2: int|
                0 <= k < self.wrappers().len() && 0 <= i2 < self.wrappers()[k].pin_seq().len()
                implies {
                let p = #[trigger] self.wrappers()[k].pin_seq()[i2];
                &&& p < self.pin_count()
                &&& self.owners()[p as int] == Some(k as usize)
            } by {
                assert(old(self).wrappers()[k].pin_seq()[i2] == self.wrappers()[k].pin_seq()[i2]);
            }
            assert forall|j: int|
                0 <= j < changes@.len() implies (#[trigger] changes@[j]).0 < self.pin_count()
                && changes@[j].0 != 0 by {
                let pin = changes@[j].0;
                assert(old(self).wrappers()[key as int].pin_seq().contains(pin));
                let i3 = choose|i3: int|
                    0 <= i3 < old(self).wrappers()[key as int].pin_seq().len() && old(
                        self,
                    ).wrappers()[key as int].pin_seq()[i3] == pin;
                assert(self.owners()[pin as int] == Some(key));
            }
            assert forall|j: int|
                0 <= j < changes@.len() && (forall|i4: int|
                    0 <= i4 < old(self).wrappers()[key as int].pin_seq().len() ==> old(
                        self,
                    ).lone_net(
                        #[trigger] old(self).wrappers()[key as int].pin_seq()[i4] as int,
                    )) implies self.lone_net((#[trigger] changes@[j]).0 as int) by {
                let pin = changes@[j].0;
                assert(old(self).wrappers()[key as int].pin_seq().contains(pin));
                let i3 = choose|i3: int|
                    0 <= i3 < old(self).wrappers()[key as int].pin_seq().len() && old(
                        self,
                    ).wrappers()[key as int].pin_seq()[i3] == pin;
                assert(old(self).lone_net(old(self).wrappers()[key as int].pin_seq()[i3] as int));
            }
        }
        let ghost (io0, out) = choose|io0: IO, out: IO|
            {
                &&& seeded_session(io0, w_mid.pin_seq(), w_mid.input_seq())
                &&& #[trigger] w_mid.behavior().evaluates_to(io0, w_fin.behavior(), out)
                &&& changes@ == out.buffer()
            };
        let ghost nxt = w_fin.behavior();
        proof {
            let w0 = old(self).wrappers()[key as int];
            let assembled = Seq::new(
                w0.input_seq().len(),
                |i: int| w0.input_seq()[i].next_spec(old(self).level_high(w0.pin_seq()[i] as int)),
            );
            assert(w_mid.input_seq() =~= assembled);
            assert(seeded_session(io0, w0.pin_seq(), assembled));
        }
        let ghost before = *self;
        let r = self.propagate_changes(&changes, false, fuel);
        proof {
            let w0 = old(self).wrappers()[key as int];
            let assembled = Seq::new(
                w0.input_seq().len(),
                |i: int| w0.input_seq()[i].next_spec(old(self).level_high(w0.pin_seq()[i] as int)),
            );
            assert(w0.behavior().evaluates_to(io0, nxt, out));
            if forall|i: int|
                0 <= i < w0.pin_seq().len() ==> old(self).lone_net(
                    #[trigger] w0.pin_seq()[i] as int,
                ) {
                assert(forall|j: int|
                    0 <= j < changes@.len() ==> before.lone_net((#[trigger] changes@[j]).0 as int));
                assert(self.wrappers() == before.wrappers());
                assert(self.wrappers()[key as int] == w_fin);
                assert(w_fin.behavior() == nxt && w_fin.input_seq() == assembled);
            }
        }
        r
    }

    /// Toggles the clock: inverts the level of pin 0's net (an undriven
    /// clock counts as low) and propagates the change; the `p == 0` fan-out
    /// rule reaches every component on the clock net. The clock level has
    /// flipped when the call returns, whether or not propagation converged.
    pub fn tick(&mut self) -> (r: Result<(), EngineError>)
        requires
            old(self).wf(),
        ensures
            final(self).wf(),
            final(self).same_shape(*old(self)),
            final(self).clk() == !old(self).clk(),
            final(self).net_level(0) == Some(!old(self).clk()),
    {
        let cur = match self._read(0) {
            Some(b) => b,
            None => false,
        };
        let mut changes: Vec<(usize, bool)> = Vec::new();
        changes.push((0, !cur));
        self.propagate_changes(&changes, false, PROPAGATION_DEPTH_LIMIT)
    }

    /// Writes a component pin from outside and propagates, allowing the
    /// owning component itself to be re-triggered. A write aimed at the
    /// clock net is refused by the commit step (the tick driver owns that
    /// net), so the clock level never changes; a write matching the net's
    /// current level changes nothing at all.
    pub fn write(&mut self, c: usize, pin: usize, value: bool) -> (r: Result<(), EngineError>)
        requires
            old(self).wf(),
            old(self).valid_pin(c as int, pin as int),
        ensures
            final(self).wf(),
            final(self).same_shape(*old(self)),
            final(self).clk() == old(self).clk(),
            old(self).on_clk_net(old(self).spec_pin(c as int, pin as int))
                ==> (r is Ok && final(self).net_levels() == old(self).net_levels()),
            old(self).net_level(old(self).spec_pin(c as int, pin as int)) == Some(value) ==> (
            r is Ok && final(self).net_levels() == old(self).net_levels()),
            !old(self).on_clk_net(old(self).spec_pin(c as int, pin as int))
                ==> final(self).net_level(old(self).spec_pin(c as int, pin as int)) is Some,
            forall|nid: int|
                0 <= nid < old(self).net_levels().len() && (#[trigger] old(
                    self,
                ).net_levels()[nid]) is Some ==> final(self).net_levels()[nid] is Some,
    {
        let p = self.pin(c, pin);
        let mut changes: Vec<(usize, bool)> = Vec::new();
        changes.push((p, value));
        self.propagate_changes(&changes, true, PROPAGATION_DEPTH_LIMIT)
    }

    /// Registers a component: allocates one fresh pin per declared pin (a
    /// singleton net each), installs the ownership mapping and evaluates the
    /// component once, so outputs with already-defined inputs settle. The
    /// initial evaluation only reaches the fresh unconnected pins, so it
    /// always converges; existing nets keep their levels.
    pub fn add_component(&mut self, component: C) -> (key: usize)
        requires
            old(self).wf(),
            old(self).pin_count() + component.spec_pin_count() <= usize::MAX,
        ensures
            final(self).wf(),
            key == old(self).wrappers().len(),
            final(self).wrappers().len() == old(self).wrappers().len() + 1,
            final(self).pin_count() == old(self).pin_count() + component.spec_pin_count(),
            final(self).wrappers()[key as int].pin_seq() == Seq::new(
                component.spec_pin_count() as nat,
                |i: int| (old(self).pin_count() + i) as usize,
            ),
            forall|k: int|
                0 <= k < key ==> (#[trigger] final(self).wrappers()[k]).pin_seq() == old(
                    self,
                ).wrappers()[k].pin_seq(),
            final(self).edge_list() == old(self).edge_list(),
            forall|p: int|
                0 <= p < old(self).pin_count() ==> #[trigger] final(self).nets()[p] == old(
                    self,
                ).nets()[p],
            forall|p: int|
                0 <= p < old(self).pin_count() ==> #[trigger] final(self).net_level(p) == old(
                    self,
                ).net_level(p),
            final(self).clk() == old(self).clk(),
            exists|io0: IO, out: IO|
                #![trigger component.evaluates_to(io0, final(self).wrappers()[key as int].behavior(), out)]
                {
                    &&& seeded_session(
                        io0,
                        Seq::new(
                            component.spec_pin_count() as nat,
                            |i: int| (old(self).pin_count() + i) as usize,
                        ),
                        Seq::new(component.spec_pin_count() as nat, |i: int| Signal::Static(false)),
                    )
                    &&& component.evaluates_to(
                        io0,
                        final(self).wrappers()[key as int].behavior(),
                        out,
                    )
                    &&& forall|i: int|
                        0 <= i < component.spec_pin_count()
                            ==> #[trigger] final(self).net_level(old(self).pin_count() + i)
                            == buf_last(out.buffer(), (old(self).pin_count() + i) as usize)
                },
    {
        let ghost base = old(self).pin_count();
        let n = component.pin_count();
        let mut pins: Vec<usize> = Vec::new();
        let mut i: usize = 0;
        while i < n
            invariant
                self.wf(),
                old(self).wf(),
                n == component.spec_pin_count(),
                base == old(self).pin_count(),
                base + n <= usize::MAX,
                i <= n,
                self.pin_count() == base + i,
                pins@ =~= Seq::new(i as nat, |t: int| (base + t) as usize),
                forall|p: int| base <= p < base + i ==> #[trigger] self.nets()[p] == p,
                forall|p: int| 0 <= p < base ==> #[trigger] self.nets()[p] == old(self).nets()[p],
                forall|nid: int|
                    0 <= nid < base ==> #[trigger] self.net_levels()[nid] == old(
                        self,
                    ).net_levels()[nid],
                forall|nid: int|
                    base <= nid < base + i ==> #[trigger] self.net_levels()[nid] is None,
                forall|p: int| 0 <= p < base ==> #[trigger] self.owners()[p] == old(self).owners()[p],
                forall|p: int| base <= p < base + i ==> #[trigger] self.owners()[p] is None,
                self.wrappers() == old(self).wrappers(),
                self.edge_list() == old(self).edge_list(),
            decreases n - i,
        {
            let p = self.create_pin();
            pins.push(p);
            i += 1;
        }
        let key = self.components.len();
        i = 0;
        while i < n
            invariant
                old(self).wf(),
                n == component.spec_pin_count(),
                base == old(self).pin_count(),
                key == old(self).wrappers().len(),
                base + n <= usize::MAX,
                self.pin_count() == base + n,
                self.nets() == self.net_graph().nets(),
                self.net_graph().wf(),
                self.net_graph().node_count() == self.pin_count(),
                self.net_levels().len() == self.pin_count(),
                self.owners().len() == self.pin_count(),
                pins@ == Seq::new(n as nat, |t: int| (base + t) as usize),
                i <= n,
                forall|p: int| base <= p < base + n ==> #[trigger] self.nets()[p] == p,
                forall|p: int| 0 <= p < base ==> #[trigger] self.nets()[p] == old(self).nets()[p],
                forall|nid: int|
                    0 <= nid < base ==> #[trigger] self.net_levels()[nid] == old(
                        self,
                    ).net_levels()[nid],
                forall|nid: int|
                    base <= nid < base + n ==> #[trigger] self.net_levels()[nid] is None,
                forall|p: int| 0 <= p < base ==> #[trigger] self.owners()[p] == old(self).owners()[p],
                forall|p: int|
                    base <= p < base + n ==> #[trigger] self.owners()[p] == (if p < base + i {
                        Some(key)
                    } else {
                        None::<usize>
                    }),
                self.wrappers() == old(self).wrappers(),
                self.edge_list() == old(self).edge_list(),
            decreases n - i,
        {
            let p = pins[i];
            self.pin_to_component[p] = Some(key);
            i += 1;
        }
        let w = Wrapper::new(pins, component);
        self.components.push(w);
        proof {
            assert(old(self).wf());
            assert forall|k: int|
                0 <= k < self.wrappers().len() implies (#[trigger] self.wrappers()[k]).wf() by {
                if k < key {
                    assert(self.wrappers()[k] == old(self).wrappers()[k]);
                }
            }
            assert forall|k: int, i2: int|
                0 <= k < self.wrappers().len() && 0 <= i2 < self.wrappers()[k].pin_seq().len()
                implies {
                let p = #[trigger] self.wrappers()[k].pin_seq()[i2];
                &&& p < self.pin_count()
                &&& self.owners()[p as int] == Some(k as usize)
            } by {
                if k < key {
                    assert(self.wrappers()[k] == old(self).wrappers()[k]);
                    assert(old(self).wrappers()[k].pin_seq()[i2] < base);
                    assert(old(self).owners()[self.wrappers()[k].pin_seq()[i2] as int] == Some(
                        k as usize,
                    ));
                } else {
                    assert(self.wrappers()[k].pin_seq()[i2] == (base + i2) as usize);
                }
            }
        }
        let ghost registered = *self;
        proof {
            assert forall|i5: int|
                0 <= i5 < registered.wrappers()[key as int].pin_seq().len() implies
                registered.lone_net(
                #[trigger] registered.wrappers()[key as int].pin_seq()[i5] as int,
            ) by {
                let p = registered.wrappers()[key as int].pin_seq()[i5] as int;
                assert(p == base + i5);
                assert(registered.nets()[p] == p);
                assert forall|q: int|
                    0 <= q < registered.pin_count() && registered.nets()[q]
                        == registered.nets()[p] implies q == p by {
                    if q < base {
                        assert(registered.nets()[q] == old(self).nets()[q]);
                        assert(old(self).nets()[q] < base);
                    } else {
                        assert(registered.nets()[q] == q);
                    }
                }
            }
        }
        let settled = self.update_component(key, PROPAGATION_DEPTH_LIMIT);
        proof {
            assert(settled is Ok);
            assert forall|p: int|
                0 <= p < base implies #[trigger] self.net_level(p) == old(self).net_level(p) by {
                assert(self.nets()[p] == registered.nets()[p]);
                let nid = registered.nets()[p] as int;
                assert(nid < base);
                assert forall|i6: int|
                    0 <= i6 < registered.wrappers()[key as int].pin_seq().len() implies
                    registered.nets()[
                    #[trigger] registered.wrappers()[key as int].pin_seq()[i6] as int] != nid by {
                    assert(registered.wrappers()[key as int].pin_seq()[i6] == (base + i6) as usize);
                }
                assert(self.net_levels()[nid] == registered.net_levels()[nid]);
            }
        }
        proof {
            let w0 = registered.wrappers()[key as int];
            let assembled = Seq::new(
                w0.input_seq().len(),
                |i: int| w0.input_seq()[i].next_spec(registered.level_high(w0.pin_seq()[i] as int)),
            );
            let (io0, nxt, out) = choose|io0: IO, nxt: C, out: IO|
                #![trigger registered.wrappers()[key as int].behavior().evaluates_to(io0, nxt, out)]
                ({
                    let w0 = registered.wrappers()[key as int];
                    let assembled = Seq::new(
                        w0.input_seq().len(),
                        |i: int| w0.input_seq()[i].next_spec(
                            registered.level_high(w0.pin_seq()[i] as int),
                        ),
                    );
                    &&& seeded_session(io0, w0.pin_seq(), assembled)
                    &&& w0.behavior().evaluates_to(io0, nxt, out)
                    &&& forall|j: int|
                        0 <= j < out.buffer().len() ==> w0.pin_seq().contains(
                            (#[trigger] out.buffer()[j]).0,
                        )
                    &&& ((forall|i: int|
                        0 <= i < w0.pin_seq().len() ==> registered.lone_net(
                            #[trigger] w0.pin_seq()[i] as int,
                        )) ==> {
                        &&& self.wrappers()[key as int].behavior() == nxt
                        &&& self.wrappers()[key as int].input_seq() == assembled
                        &&& forall|j: int|
                            0 <= j < out.buffer().len() && !registered.on_clk_net(
                                (#[trigger] out.buffer()[j]).0 as int,
                            ) ==> self.net_level(out.buffer()[j].0 as int) == buf_last(
                                out.buffer(),
                                out.buffer()[j].0,
                            )
                        &&& forall|nid: int|
                            0 <= nid < registered.net_levels().len() && (forall|j: int|
                                0 <= j < out.buffer().len() ==> registered.nets()[(
                                #[trigger] out.buffer()[j]).0 as int] != nid)
                                ==> self.net_levels()[nid] == registered.net_levels()[nid]
                    })
                });
            assert(w0.pin_seq() =~= Seq::new(n as nat, |i: int| (base + i) as usize));
            assert(assembled =~= Seq::new(n as nat, |i: int| Signal::Static(false))) by {
                assert forall|i: int| 0 <= i < n implies assembled[i] == Signal::Static(false) by {
                    assert(registered.net_levels()[base + i] is None);
                    assert(registered.nets()[base + i] == base + i);
                    assert(w0.input_seq()[i] == Signal::Static(false));
                }
            }
            assert(seeded_session(
                io0,
                Seq::new(component.spec_pin_count() as nat, |i: int| (base + i) as usize),
                Seq::new(component.spec_pin_count() as nat, |i: int| Signal::Static(false)),
            ));
            assert(self.wrappers()[key as int].behavior() == nxt);
            assert(component.evaluates_to(io0, self.wrappers()[key as int].behavior(), out));
            assert(old(self).wf());
            assert(registered.nets()[0] == old(self).nets()[0]);
            assert(old(self).net_graph().nets()[0] <= 0);
            assert forall|i: int|
                0 <= i < component.spec_pin_count() implies #[trigger] self.net_level(base + i)
                == buf_last(out.buffer(), (base + i) as usize) by {
                let pin = (base + i) as usize;
                if exists|j: int| 0 <= j < out.buffer().len() && (#[trigger] out.buffer()[j]).0
                    == pin {
                    let j = choose|j: int|
                        0 <= j < out.buffer().len() && (#[trigger] out.buffer()[j]).0 == pin;
                    assert(registered.nets()[pin as int] == base + i);
                    assert(!registered.on_clk_net(pin as int));
                    assert(self.net_level(out.buffer()[j].0 as int) == buf_last(
                        out.buffer(),
                        out.buffer()[j].0,
                    ));
                } else {
                    assert forall|j: int|
                        0 <= j < out.buffer().len() implies registered.nets()[(
                    #[trigger] out.buffer()[j]).0 as int] != base + i by {
                        let bp = out.buffer()[j].0;
                        assert(w0.pin_seq().contains(bp));
                        let t = choose|t: int|
                            0 <= t < w0.pin_seq().len() && w0.pin_seq()[t] == bp;
                        assert(bp == (base + t) as usize);
                        assert(registered.nets()[bp as int] == base + t);
                    }
                    assert(self.net_levels()[base + i] == registered.net_levels()[base + i]);
                    crate::component::lemma_buf_last_absent(out.buffer(), pin);
                    assert(self.nets()[base + i] == base + i);
                }
            }
        }
        match settled {
            Ok(()) => key,
            Err(_) => key,
        }
    }
}

/// The clock level after `n` ticks from a fresh simulator: each tick
/// inverts it, starting from low.
pub open spec fn clk_after(n: nat) -> bool
    decreases n,
{
    if n == 0 {
        false
    } else {
        !clk_after((n - 1) as nat)
    }
}

/// Clock parity: after `n` successive ticks from a fresh simulator (whose
/// clock starts low, see [`Sim::new`]), the clock level equals `n mod 2`,
/// because each tick inverts it (see [`Sim::tick`]).
pub proof fn lemma_clk_parity(n: nat)
    ensures
        clk_after(n) == (n % 2 == 1),
    decreases n,
{
    if n > 0 {
        lemma_clk_parity((n - 1) as nat);
    }
}

impl<C: Component> Default for Sim<C> {
    /// Same as [`Sim::new`]: a fresh simulator holding only the clock pin.
    fn default() -> (s: Self)
        ensures
            s.wf(),
            s.pin_count() == 1,
            s.wrappers().len() == 0,
            !s.clk(),
    {
        Sim::new()
    }
}

/// Transitivity of shape preservation across propagation rounds.
proof fn lemma_same_shape_trans<C: Component>(a: Sim<C>, b: Sim<C>, c: Sim<C>)
    requires
        a.same_shape(b),
        b.same_shape(c),
    ensures
        a.same_shape(c),
{
    assert forall|k: int|
        0 <= k < a.wrappers().len() implies (#[trigger] a.wrappers()[k]).pin_seq()
        == c.wrappers()[k].pin_seq() by {
        assert(a.wrappers()[k].pin_seq() == b.wrappers()[k].pin_seq());
        assert(b.wrappers()[k].pin_seq() == c.wrappers()[k].pin_seq());
    }
}

/// Linear scan for membership in a key list.
fn vec_contains(v: &Vec<usize>, x: usize) -> (r: bool)
    ensures
        r == v@.contains(x),
{
    let mut i: usize = 0;
    while i < v.len()
        invariant
            i <= v@.len(),
            forall|t: int| 0 <= t < i ==> v@[t] != x,
        decreases v@.len() - i,
    {
        if v[i] == x {
            return true;
        }
        i += 1;
    }
    false
}

} // verus!
