//! The built-in component zoo: combinational gates, a word-addressed RAM and
//! a constant driver.

pub mod logic;
pub mod mem;

use vstd::prelude::*;

use crate::bits::bit_of;
use crate::component::{Component, IO};
use crate::components::logic::{And, Buffer, Nand, Nor, Not, Or, Xnor, Xor};
use crate::components::mem::Ram;

verus! {

/// A constant driver: holds a 32-bit word and drives its `N` pins with the
/// word's low `N` bits on every evaluation. Bits at or above 32 read as low.
pub struct Static<const N: usize>(pub u32);

impl<const N: usize> Component for Static<N> {
    open spec fn spec_pin_count(&self) -> usize {
        N
    }

    open spec fn evaluates_to(self, io: IO, next: Self, out: IO) -> bool {
        &&& next == self
        &&& out.pin_seq() == io.pin_seq()
        &&& out.signals().len() == io.signals().len()
        &&& forall|k: int|
            0 <= k < N ==> #[trigger] out.signals()[k] == io.signals()[k].next_spec(
                k < 32 && bit_of(self.0, k as u32),
            )
        &&& forall|k: int| N <= k < io.signals().len() ==> out.signals()[k] == io.signals()[k]
        &&& out.buffer() == io.buffer() + Seq::new(
            N as nat,
            |k: int| (io.pin_seq()[k], k < 32 && bit_of(self.0, k as u32)),
        )
    }

    fn pin_count(&self) -> (n: usize) {
        N
    }

    fn update(&mut self, io: &mut IO) {
        let ghost old_io = *io;
        let ghost entries = Seq::new(
            N as nat,
            |k: int| (old_io.pin_seq()[k], k < 32 && bit_of(self.0, k as u32)),
        );
        let mut k: usize = 0;
        while k < N
            invariant
                io.wf(),
                io.pin_seq() == old_io.pin_seq(),
                io.npins() == N,
                io.signals().len() == old_io.signals().len(),
                entries == Seq::new(
                    N as nat,
                    |j: int| (old_io.pin_seq()[j], j < 32 && bit_of(self.0, j as u32)),
                ),
                k <= N,
                forall|j: int|
                    0 <= j < k ==> #[trigger] io.signals()[j] == old_io.signals()[j].next_spec(
                        j < 32 && bit_of(self.0, j as u32),
                    ),
                forall|j: int| k <= j < io.signals().len() ==> io.signals()[j] == old_io.signals()[j],
                io.buffer() == old_io.buffer() + entries.take(k as int),
            decreases N - k,
        {
            let w = self.0;
            let b = if k < 32 {
                let bit = w & (1u32 << (k as u32)) != 0;
                proof {
                    let kk = k as u32;
                    assert((w & (1u32 << kk) != 0) == ((w >> kk) & 1u32 == 1u32)) by (bit_vector)
                        requires
                            kk < 32u32,
                    ;
                }
                bit
            } else {
                false
            };
            io.write(k + 1, b);
            k += 1;
            proof {
                assert(old_io.buffer() + entries.take(k as int) =~= (old_io.buffer()
                    + entries.take(k - 1)).push(entries[k - 1]));
            }
        }
        proof {
            assert(entries.take(N as int) =~= entries);
        }
    }
}

/// One type over the whole built-in zoo, so a host can register a mixed
/// circuit in a single simulator.
pub enum Chip {
    Buffer(Buffer),
    Not(Not),
    And(And),
    Or(Or),
    Nand(Nand),
    Nor(Nor),
    Xor(Xor),
    Xnor(Xnor),
    Ram(Ram),
}

impl Component for Chip {
    open spec fn spec_pin_count(&self) -> usize {
        match self {
            Chip::Buffer(c) => c.spec_pin_count(),
            Chip::Not(c) => c.spec_pin_count(),
            Chip::And(c) => c.spec_pin_count(),
            Chip::Or(c) => c.spec_pin_count(),
            Chip::Nand(c) => c.spec_pin_count(),
            Chip::Nor(c) => c.spec_pin_count(),
            Chip::Xor(c) => c.spec_pin_count(),
            Chip::Xnor(c) => c.spec_pin_count(),
            Chip::Ram(c) => c.spec_pin_count(),
        }
    }

    open spec fn evaluates_to(self, io: IO, next: Self, out: IO) -> bool {
        match self {
            Chip::Buffer(c) => next matches Chip::Buffer(n) && c.evaluates_to(io, n, out),
            Chip::Not(c) => next matches Chip::Not(n) && c.evaluates_to(io, n, out),
            Chip::And(c) => next matches Chip::And(n) && c.evaluates_to(io, n, out),
            Chip::Or(c) => next matches Chip::Or(n) && c.evaluates_to(io, n, out),
            Chip::Nand(c) => next matches Chip::Nand(n) && c.evaluates_to(io, n, out),
            Chip::Nor(c) => next matches Chip::Nor(n) && c.evaluates_to(io, n, out),
            Chip::Xor(c) => next matches Chip::Xor(n) && c.evaluates_to(io, n, out),
            Chip::Xnor(c) => next matches Chip::Xnor(n) && c.evaluates_to(io, n, out),
            Chip::Ram(c) => next matches Chip::Ram(n) && c.evaluates_to(io, n, out),
        }
    }

    fn pin_count(&self) -> (n: usize) {
        match self {
            Chip::Buffer(c) => c.pin_count(),
            Chip::Not(c) => c.pin_count(),
            Chip::And(c) => c.pin_count(),
            Chip::Or(c) => c.pin_count(),
            Chip::Nand(c) => c.pin_count(),
            Chip::Nor(c) => c.pin_count(),
            Chip::Xor(c) => c.pin_count(),
            Chip::Xnor(c) => c.pin_count(),
            Chip::Ram(c) => c.pin_count(),
        }
    }

    fn update(&mut self, io: &mut IO) {
        match self {
            Chip::Buffer(c) => c.update(io),
            Chip::Not(c) => c.update(io),
            Chip::And(c) => c.update(io),
            Chip::Or(c) => c.update(io),
            Chip::Nand(c) => c.update(io),
            Chip::Nor(c) => c.update(io),
            Chip::Xor(c) => c.update(io),
            Chip::Xnor(c) => c.update(io),
            Chip::Ram(c) => c.update(io),
        }
    }
}

} // verus!
