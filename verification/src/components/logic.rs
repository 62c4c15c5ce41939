//! Combinational gates. Inputs are the low-numbered pins; the output is the
//! highest pin. Each evaluation writes the output once; the evaluation
//! relation of every gate states its truth table exactly.

use vstd::prelude::*;

use crate::component::{session_write, Component, IO};

verus! {

/// A one-input, one-output gate driving its output with its input.
pub struct Buffer;

impl Component for Buffer {
    open spec fn spec_pin_count(&self) -> usize {
        2
    }

    open spec fn evaluates_to(self, io: IO, next: Self, out: IO) -> bool {
        &&& next == self
        &&& session_write(io, out, 2, io.signals()[0].level())
    }

    fn pin_count(&self) -> (n: usize) {
        2
    }

    fn update(&mut self, io: &mut IO) {
        let v = io.read(1);
        io.write(2, v);
    }
}

/// An inverter.
pub struct Not;

impl Component for Not {
    open spec fn spec_pin_count(&self) -> usize {
        2
    }

    open spec fn evaluates_to(self, io: IO, next: Self, out: IO) -> bool {
        &&& next == self
        &&& session_write(io, out, 2, !io.signals()[0].level())
    }

    fn pin_count(&self) -> (n: usize) {
        2
    }

    fn update(&mut self, io: &mut IO) {
        let v = io.read(1);
        io.write(2, !v);
    }
}

/// A two-input AND gate.
pub struct And;

impl Component for And {
    open spec fn spec_pin_count(&self) -> usize {
        3
    }

    open spec fn evaluates_to(self, io: IO, next: Self, out: IO) -> bool {
        &&& next == self
        &&& session_write(io, out, 3, io.signals()[0].level() && io.signals()[1].level())
    }

    fn pin_count(&self) -> (n: usize) {
        3
    }

    fn update(&mut self, io: &mut IO) {
        let a = io.read(1);
        let b = io.read(2);
        io.write(3, a && b);
    }
}

/// A two-input OR gate.
pub struct Or;

impl Component for Or {
    open spec fn spec_pin_count(&self) -> usize {
        3
    }

    open spec fn evaluates_to(self, io: IO, next: Self, out: IO) -> bool {
        &&& next == self
        &&& session_write(io, out, 3, io.signals()[0].level() || io.signals()[1].level())
    }

    fn pin_count(&self) -> (n: usize) {
        3
    }

    fn update(&mut self, io: &mut IO) {
        let a = io.read(1);
        let b = io.read(2);
        io.write(3, a || b);
    }
}

/// A two-input NAND gate.
pub struct Nand;

impl Component for Nand {
    open spec fn spec_pin_count(&self) -> usize {
        3
    }

    open spec fn evaluates_to(self, io: IO, next: Self, out: IO) -> bool {
        &&& next == self
        &&& session_write(io, out, 3, !(io.signals()[0].level() && io.signals()[1].level()))
    }

    fn pin_count(&self) -> (n: usize) {
        3
    }

    fn update(&mut self, io: &mut IO) {
        let a = io.read(1);
        let b = io.read(2);
        io.write(3, !(a && b));
    }
}

/// A two-input NOR gate.
pub struct Nor;

impl Component for Nor {
    open spec fn spec_pin_count(&self) -> usize {
        3
    }

    open spec fn evaluates_to(self, io: IO, next: Self, out: IO) -> bool {
        &&& next == self
        &&& session_write(io, out, 3, !(io.signals()[0].level() || io.signals()[1].level()))
    }

    fn pin_count(&self) -> (n: usize) {
        3
    }

    fn update(&mut self, io: &mut IO) {
        let a = io.read(1);
        let b = io.read(2);
        io.write(3, !(a || b));
    }
}

/// A two-input XOR gate.
pub struct Xor;

impl Component for Xor {
    open spec fn spec_pin_count(&self) -> usize {
        3
    }

    open spec fn evaluates_to(self, io: IO, next: Self, out: IO) -> bool {
        &&& next == self
        &&& session_write(io, out, 3, io.signals()[0].level() != io.signals()[1].level())
    }

    fn pin_count(&self) -> (n: usize) {
        3
    }

    fn update(&mut self, io: &mut IO) {
        let a = io.read(1);
        let b = io.read(2);
        io.write(3, a != b);
    }
}

/// A two-input XNOR gate.
pub struct Xnor;

impl Component for Xnor {
    open spec fn spec_pin_count(&self) -> usize {
        3
    }

    open spec fn evaluates_to(self, io: IO, next: Self, out: IO) -> bool {
        &&& next == self
        &&& session_write(io, out, 3, io.signals()[0].level() == io.signals()[1].level())
    }

    fn pin_count(&self) -> (n: usize) {
        3
    }

    fn update(&mut self, io: &mut IO) {
        let a = io.read(1);
        let b = io.read(2);
        io.write(3, a == b);
    }
}

} // verus!
