//! The edge-aware value seen by a component on each of its pins.
//!
//! A `Signal` carries the current boolean level of a pin together with
//! one-shot edge information: when the level changes between two input
//! assemblies, the signal passes through `RisingEdge` or `FallingEdge` for
//! exactly one evaluation round and then collapses back to `Static`.

use vstd::prelude::*;

verus! {

/// A three-state pin value: a steady level, or a level that has just changed.
#[derive(Clone, Copy, PartialEq, Eq, Structural, Debug)]
pub enum Signal {
    RisingEdge,
    FallingEdge,
    Static(bool),
}

impl Signal {
    /// The transition table: the signal that results from feeding a new
    /// boolean input into the current signal.
    pub open spec fn next_spec(self, value: bool) -> Signal {
        match self {
            Signal::RisingEdge => if value {
                Signal::Static(true)
            } else {
                Signal::FallingEdge
            },
            Signal::FallingEdge => if value {
                Signal::RisingEdge
            } else {
                Signal::Static(false)
            },
            Signal::Static(v) => if value == v {
                Signal::Static(v)
            } else if value {
                Signal::RisingEdge
            } else {
                Signal::FallingEdge
            },
        }
    }

    /// The boolean level a signal stands for: `true` for `Static(true)` and
    /// `RisingEdge`, `false` otherwise.
    pub open spec fn level(self) -> bool {
        match self {
            Signal::RisingEdge => true,
            Signal::FallingEdge => false,
            Signal::Static(v) => v,
        }
    }

    /// Advances the signal by one input according to the transition table.
    pub fn next_value(self, value: bool) -> (r: Signal)
        ensures
            r == self.next_spec(value),
    {
        match self {
            Signal::RisingEdge => if value {
                Signal::Static(true)
            } else {
                Signal::FallingEdge
            },
            Signal::FallingEdge => if value {
                Signal::RisingEdge
            } else {
                Signal::Static(false)
            },
            Signal::Static(v) => if value == v {
                Signal::Static(v)
            } else if value {
                Signal::RisingEdge
            } else {
                Signal::FallingEdge
            },
        }
    }

    /// The executable form of [`Signal::level`].
    pub fn into_bool(self) -> (r: bool)
        ensures
            r == self.level(),
    {
        match self {
            Signal::RisingEdge => true,
            Signal::FallingEdge => false,
            Signal::Static(v) => v,
        }
    }
}

/// A transition always adopts the new input as its level: whatever the
/// previous state, the signal produced by `next_spec(v)` has level `v`.
pub proof fn lemma_next_level(s: Signal, value: bool)
    ensures
        s.next_spec(value).level() == value,
{
}

/// Edge observability, first half: a steady signal at level `a` fed the
/// opposite level becomes the matching edge, so the very next evaluation
/// observes `RisingEdge` or `FallingEdge`.
pub proof fn lemma_edge_on_transition(a: bool)
    ensures
        Signal::Static(a).next_spec(!a) == if a {
            Signal::FallingEdge
        } else {
            Signal::RisingEdge
        },
{
}

/// Edge observability, second half: edges are one-shot. Whatever the prior
/// state, two consecutive assemblies of the same input level end in a steady
/// signal, so an edge is observable for exactly the one evaluation after the
/// transition.
pub proof fn lemma_edge_is_one_shot(s: Signal, value: bool)
    ensures
        s.next_spec(value).next_spec(value) == Signal::Static(value),
{
}

} // verus!
