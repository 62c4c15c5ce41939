//! A word-addressed RAM component.
//!
//! Local pins: `1..=32` form the little-endian address window, `33..=64` the
//! data window, and pin `65` is the write-enable. With write-enable high an
//! evaluation stores the data window into memory; with it low the evaluation
//! drives the data window from memory. An address beyond the memory leaves
//! both the memory and the session untouched.

use vstd::prelude::*;

use crate::bits::{bit_of, word_of};
use crate::component::{window_levels, write_word_signals, Component, IO};

verus! {

/// The RAM's address window: local pins `1..=32`.
pub open spec fn addr_window() -> Seq<usize> {
    Seq::new(32, |k: int| (k + 1) as usize)
}

/// The RAM's data window: local pins `33..=64`.
pub open spec fn data_window() -> Seq<usize> {
    Seq::new(32, |k: int| (k + 33) as usize)
}

/// A RAM over 32-bit words.
pub struct Ram {
    data: Vec<u32>,
}

impl Ram {
    /// The stored words.
    pub closed spec fn mem(self) -> Seq<u32> {
        self.data@
    }

    /// Creates a RAM holding a copy of the given words.
    pub fn new(data: &[u32]) -> (r: Ram)
        ensures
            r.mem() == data@,
    {
        let mut copy: Vec<u32> = Vec::new();
        let mut i: usize = 0;
        while i < data.len()
            invariant
                i <= data@.len(),
                copy@ =~= data@.take(i as int),
            decreases data@.len() - i,
        {
            copy.push(data[i]);
            i += 1;
        }
        proof {
            assert(copy@ =~= data@);
        }
        Ram { data: copy }
    }

    /// Reads the word at `addr`.
    pub fn read(&self, addr: usize) -> (r: u32)
        requires
            addr < self.mem().len(),
        ensures
            r == self.mem()[addr as int],
    {
        self.data[addr]
    }
}

impl Component for Ram {
    open spec fn spec_pin_count(&self) -> usize {
        65
    }

    open spec fn evaluates_to(self, io: IO, next: Ram, out: IO) -> bool {
        let a = word_of(window_levels(io.signals(), addr_window()));
        let store = io.signals()[64].level();
        if store {
            &&& out == io
            &&& next.mem() == (if a < self.mem().len() {
                self.mem().update(
                    a as int,
                    word_of(window_levels(io.signals(), data_window())) as u32,
                )
            } else {
                self.mem()
            })
        } else {
            &&& next == self
            &&& (a < self.mem().len() ==> out.pin_seq() == io.pin_seq() && out.signals()
                == write_word_signals(io.signals(), data_window(), self.mem()[a as int])
                && out.buffer() == io.buffer() + Seq::new(
                32,
                |k: int| (io.pin_seq()[data_window()[k] - 1], bit_of(self.mem()[a as int], k as u32)),
            ))
            &&& (a >= self.mem().len() ==> out == io)
        }
    }

    fn pin_count(&self) -> (n: usize) {
        65
    }

    fn update(&mut self, io: &mut IO) {
        let mut addr_pins: Vec<usize> = Vec::new();
        let mut k: usize = 0;
        while k < 32
            invariant
                k <= 32,
                addr_pins@ =~= addr_window().take(k as int),
            decreases 32 - k,
        {
            addr_pins.push(k + 1);
            k += 1;
        }
        let mut data_pins: Vec<usize> = Vec::new();
        k = 0;
        while k < 32
            invariant
                k <= 32,
                data_pins@ =~= data_window().take(k as int),
            decreases 32 - k,
        {
            data_pins.push(k + 33);
            k += 1;
        }
        proof {
            assert(addr_pins@ =~= addr_window());
            assert(data_pins@ =~= data_window());
        }
        let addr = io.read_u32(addr_pins.as_slice()) as usize;
        if io.read(65) {
            if addr < self.data.len() {
                let w = io.read_u32(data_pins.as_slice());
                self.data[addr] = w;
            }
        } else {
            if addr < self.data.len() {
                let w = self.data[addr];
                io.write_u32(data_pins.as_slice(), w);
                proof {
                    assert(Seq::new(
                        data_pins@.len(),
                        |k: int| (old(io).pin_seq()[data_pins@[k] - 1], bit_of(w, k as u32)),
                    ) =~= Seq::new(
                        32,
                        |k: int| (old(io).pin_seq()[data_window()[k] - 1], bit_of(w, k as u32)),
                    ));
                }
            }
        }
    }
}

} // verus!
