//! A discrete, event-driven digital-logic simulator.
//!
//! A hardware design is modeled as components (logic blocks exposing a fixed
//! number of pins) and nets (equipotential groups of connected pins). A host
//! program builds a simulator, registers components, wires pins together and
//! advances a global clock; the simulator propagates pin-value changes through
//! the net graph and re-evaluates every affected component until quiescence.

pub mod bits;
pub mod component;
pub mod components;
pub mod graph;
pub mod signal;
pub mod sim;

pub use component::{Component, MetaComponent, Wrapper, IO};
pub use graph::Graph;
pub use signal::Signal;
pub use sim::{EngineError, Sim};
