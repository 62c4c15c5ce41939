//! Components and the evaluation session.
//!
//! A component is a logic block exposing a fixed number of pins, numbered
//! 1-based locally. During one evaluation the engine hands the component an
//! [`IO`] session: a snapshot of the component's input signals plus a change
//! buffer recording every pin the component wrote. The wrapper pairs a
//! component with its global pin ids and its persistent input-signal vector.

use vstd::prelude::*;

use crate::bits::{bit_of, pow2, word_of, lemma_shl_pow2, lemma_word_of_bound, lemma_word_of_push,
    lemma_word_of_bits_of};
use crate::signal::{Signal, lemma_next_level};

verus! {

/// The boolean levels of an ordered pin window, read from a signal vector;
/// entry `k` is the level of the window's `k`-th pin (1-based local ids).
pub open spec fn window_levels(vals: Seq<Signal>, window: Seq<usize>) -> Seq<bool> {
    Seq::new(window.len(), |k: int| vals[window[k] - 1].level())
}

/// The signal vector after writing word `w` through an ordered pin window,
/// one bit per pin in window order: pin `window[k]` receives bit `k` of `w`
/// through the signal transition table. A pin that appears twice is advanced
/// twice, so the later bit wins.
pub open spec fn write_word_signals(vals: Seq<Signal>, window: Seq<usize>, w: u32) -> Seq<Signal>
    decreases window.len(),
{
    if window.len() == 0 {
        vals
    } else {
        let prev = write_word_signals(vals, window.drop_last(), w);
        let i = window.last() - 1;
        prev.update(i, prev[i].next_spec(bit_of(w, (window.len() - 1) as u32)))
    }
}

/// Writing a word through a window of distinct in-range pins leaves each
/// window pin at the level of its bit and every other signal untouched.
pub proof fn lemma_write_word_distinct(vals: Seq<Signal>, window: Seq<usize>, w: u32)
    requires
        window.len() <= 32,
        forall|k: int| 0 <= k < window.len() ==> 1 <= #[trigger] window[k] <= vals.len(),
        forall|k1: int, k2: int|
            0 <= k1 < k2 < window.len() ==> window[k1] != window[k2],
    ensures
        write_word_signals(vals, window, w).len() == vals.len(),
        forall|k: int|
            0 <= k < window.len() ==> #[trigger] write_word_signals(vals, window, w)[window[k]
                - 1].level() == bit_of(w, k as u32),
        forall|i: int|
            0 <= i < vals.len() && (forall|k: int| 0 <= k < window.len() ==> window[k] - 1 != i)
                ==> write_word_signals(vals, window, w)[i] == vals[i],
    decreases window.len(),
{
    if window.len() > 0 {
        let rest = window.drop_last();
        lemma_write_word_distinct(vals, rest, w);
        let prev = write_word_signals(vals, rest, w);
        let n = window.len() - 1;
        lemma_next_level(prev[window[n] - 1], bit_of(w, n as u32));
        assert forall|k: int|
            0 <= k < window.len() implies #[trigger] write_word_signals(vals, window, w)[window[k]
            - 1].level() == bit_of(w, k as u32) by {
            if k < n {
                assert(rest[k] == window[k]);
                assert(window[k] != window[n]);
            }
        }
    }
}

/// The word-packing round trip: writing any word `w` below the
/// `|window|`-th power of two through a window of distinct in-range pins and
/// then reading the same window back yields `w`. Stated over the spec
/// functions used by [`IO::write_u32`] and [`IO::read_u32`].
pub proof fn lemma_word_round_trip(vals: Seq<Signal>, window: Seq<usize>, w: u32)
    requires
        window.len() <= 32,
        forall|k: int| 0 <= k < window.len() ==> 1 <= #[trigger] window[k] <= vals.len(),
        forall|k1: int, k2: int|
            0 <= k1 < k2 < window.len() ==> window[k1] != window[k2],
        w < pow2(window.len()),
    ensures
        word_of(window_levels(write_word_signals(vals, window, w), window)) == w,
{
    lemma_write_word_distinct(vals, window, w);
    assert(window_levels(write_word_signals(vals, window, w), window) =~= Seq::new(
        window.len(),
        |k: int| bit_of(w, k as u32),
    ));
    lemma_word_of_bits_of(w, window.len());
}

/// The last value a change buffer holds for `pin`: the value of the final
/// write to that pin, `None` when the buffer never names it. The commit step
/// makes this the value that wins on the pin's net.
pub open spec fn buf_last(buffer: Seq<(usize, bool)>, pin: usize) -> Option<bool>
    decreases buffer.len(),
{
    if buffer.len() == 0 {
        None
    } else if buffer.last().0 == pin {
        Some(buffer.last().1)
    } else {
        buf_last(buffer.drop_last(), pin)
    }
}

/// Whether `out` is the session `io` after exactly one write of `value` to
/// local pin `pin`: the effect of [`IO::write`].
pub open spec fn session_write(io: IO, out: IO, pin: int, value: bool) -> bool {
    &&& out.pin_seq() == io.pin_seq()
    &&& out.signals() == io.signals().update(pin - 1, io.signals()[pin - 1].next_spec(value))
    &&& out.buffer() == io.buffer().push((io.pin_seq()[pin - 1], value))
}

/// A change buffer that never names a pin holds no last value for it.
pub proof fn lemma_buf_last_absent(buffer: Seq<(usize, bool)>, pin: usize)
    requires
        forall|j: int| 0 <= j < buffer.len() ==> (#[trigger] buffer[j]).0 != pin,
    ensures
        buf_last(buffer, pin) is None,
    decreases buffer.len(),
{
    if buffer.len() > 0 {
        lemma_buf_last_absent(buffer.drop_last(), pin);
    }
}

/// An entry with no later write to its pin decides the buffer's last value
/// for that pin.
pub proof fn lemma_buf_last_from_last(buffer: Seq<(usize, bool)>, j: int)
    requires
        0 <= j < buffer.len(),
        forall|j2: int| j < j2 < buffer.len() ==> (#[trigger] buffer[j2]).0 != buffer[j].0,
    ensures
        buf_last(buffer, buffer[j].0) == Some(buffer[j].1),
    decreases buffer.len(),
{
    if j < buffer.len() - 1 {
        assert(buffer.last().0 != buffer[j].0);
        assert forall|j2: int|
            j < j2 < buffer.drop_last().len() implies (#[trigger] buffer.drop_last()[j2]).0
            != buffer.drop_last()[j].0 by {
            assert(buffer.drop_last()[j2] == buffer[j2]);
        }
        lemma_buf_last_from_last(buffer.drop_last(), j);
    }
}

/// A session freshly opened over the given pins and input signals: its
/// change buffer is still empty.
pub open spec fn seeded_session(io: IO, pins: Seq<usize>, signals: Seq<Signal>) -> bool {
    &&& io.pin_seq() == pins
    &&& io.signals() == signals
    &&& io.buffer() =~= Seq::<(usize, bool)>::empty()
}

/// One evaluation session: the component's global pin list, the snapshot of
/// its input signals (advanced locally by the session's own writes), and the
/// change buffer of intended pin writes, in write order.
pub struct IO {
    pins: Vec<usize>,
    values: Vec<Signal>,
    changes: Vec<(usize, bool)>,
}

impl IO {
    /// The global pin id of each local pin: local pin `i` is `pin_seq()[i-1]`.
    pub closed spec fn pin_seq(self) -> Seq<usize> {
        self.pins@
    }

    /// The session's current signal per local pin.
    pub closed spec fn signals(self) -> Seq<Signal> {
        self.values@
    }

    /// The change buffer: `(global pin, value)` pairs in write order.
    pub closed spec fn buffer(self) -> Seq<(usize, bool)> {
        self.changes@
    }

    pub open spec fn npins(self) -> nat {
        self.pin_seq().len()
    }

    /// One signal per pin, and every buffered change names one of the
    /// session's own global pins.
    pub open spec fn wf(self) -> bool {
        &&& self.signals().len() == self.npins()
        &&& forall|j: int|
            0 <= j < self.buffer().len() ==> self.pin_seq().contains(
                (#[trigger] self.buffer()[j]).0,
            )
    }

    /// Opens a session over the given pins and input-signal snapshot, with an
    /// empty change buffer.
    pub fn new(pins: Vec<usize>, values: Vec<Signal>) -> (io: IO)
        requires
            values@.len() == pins@.len(),
        ensures
            io.wf(),
            io.pin_seq() == pins@,
            io.signals() == values@,
            io.buffer() =~= Seq::<(usize, bool)>::empty(),
    {
        IO { pins, values, changes: Vec::new() }
    }

    /// Reads local pin `pin`: the boolean level of its current signal.
    pub fn read(&self, pin: usize) -> (r: bool)
        requires
            self.wf(),
            1 <= pin <= self.npins(),
        ensures
            r == self.signals()[pin - 1].level(),
    {
        self.values[pin - 1].into_bool()
    }

    /// Writes local pin `pin`: advances the pin's session signal by the
    /// transition table (so later reads in this session observe the written
    /// value) and records the intended write in the change buffer.
    pub fn write(&mut self, pin: usize, value: bool)
        requires
            old(self).wf(),
            1 <= pin <= old(self).npins(),
        ensures
            final(self).wf(),
            final(self).pin_seq() == old(self).pin_seq(),
            final(self).signals() == old(self).signals().update(
                pin - 1,
                old(self).signals()[pin - 1].next_spec(value),
            ),
            final(self).buffer() == old(self).buffer().push(
                (old(self).pin_seq()[pin - 1], value),
            ),
    {
        let s = self.values[pin - 1];
        self.values[pin - 1] = s.next_value(value);
        let g = self.pins[pin - 1];
        self.changes.push((g, value));
        proof {
            assert(self.pin_seq()[pin - 1] == g);
            assert(self.pin_seq().contains(g));
            assert forall|j: int|
                0 <= j < self.buffer().len() implies self.pin_seq().contains(
                (#[trigger] self.buffer()[j]).0,
            ) by {
                if j < self.buffer().len() - 1 {
                    assert(self.buffer()[j] == old(self).buffer()[j]);
                }
            }
        }
    }

    /// True exactly when the session signal of local pin `pin` is a rising
    /// edge.
    pub fn is_rising_edge(&self, pin: usize) -> (r: bool)
        requires
            self.wf(),
            1 <= pin <= self.npins(),
        ensures
            r == (self.signals()[pin - 1] == Signal::RisingEdge),
    {
        matches!(self.values[pin - 1], Signal::RisingEdge)
    }

    /// True exactly when the session signal of local pin `pin` is a falling
    /// edge.
    pub fn is_falling_edge(&self, pin: usize) -> (r: bool)
        requires
            self.wf(),
            1 <= pin <= self.npins(),
        ensures
            r == (self.signals()[pin - 1] == Signal::FallingEdge),
    {
        matches!(self.values[pin - 1], Signal::FallingEdge)
    }

    /// Reads an ordered pin window of at most 32 local pins as a
    /// little-endian word: bit `k` of the result is the level of pin
    /// `window[k]`.
    pub fn read_u32(&self, pins: &[usize]) -> (r: u32)
        requires
            self.wf(),
            pins@.len() <= 32,
            forall|k: int| 0 <= k < pins@.len() ==> 1 <= #[trigger] pins@[k] <= self.npins(),
        ensures
            r == word_of(window_levels(self.signals(), pins@)),
    {
        let ghost levels = window_levels(self.signals(), pins@);
        let len = pins.len();
        let mut acc: u32 = 0;
        let mut k: usize = 0;
        while k < len
            invariant
                self.wf(),
                len == pins@.len(),
                len <= 32,
                forall|j: int| 0 <= j < len ==> 1 <= #[trigger] pins@[j] <= self.npins(),
                levels == window_levels(self.signals(), pins@),
                k <= len,
                acc == word_of(levels.take(k as int)),
                acc < pow2(k as nat),
            decreases len - k,
        {
            let b = self.read(pins[k]);
            proof {
                assert(levels.take(k + 1) =~= levels.take(k as int).push(b));
                lemma_word_of_push(levels.take(k as int), b);
                lemma_shl_pow2(k as u32);
            }
            if b {
                proof {
                    let kk = k as u32;
                    assert(acc < (1u32 << kk) ==> acc + (1u32 << kk) < 0x1_0000_0000) by (bit_vector)
                        requires
                            kk < 32u32,
                    ;
                }
                acc = acc + (1u32 << (k as u32));
            }
            k += 1;
            proof {
                lemma_word_of_bound(levels.take(k as int));
                lemma_shl_pow2((k - 1) as u32);
            }
        }
        proof {
            assert(levels.take(len as int) =~= levels);
        }
        acc
    }

    /// Writes word `value` through an ordered pin window of at most 32 local
    /// pins, bit `k` to pin `window[k]`, each bit through [`IO::write`].
    pub fn write_u32(&mut self, pins: &[usize], value: u32)
        requires
            old(self).wf(),
            pins@.len() <= 32,
            forall|k: int| 0 <= k < pins@.len() ==> 1 <= #[trigger] pins@[k] <= old(self).npins(),
        ensures
            final(self).wf(),
            final(self).pin_seq() == old(self).pin_seq(),
            final(self).signals() == write_word_signals(old(self).signals(), pins@, value),
            final(self).buffer() == old(self).buffer() + Seq::new(
                pins@.len(),
                |k: int| (old(self).pin_seq()[pins@[k] - 1], bit_of(value, k as u32)),
            ),
    {
        let ghost old_sigs = self.signals();
        let ghost old_buf = self.buffer();
        let ghost entries = Seq::new(
            pins@.len(),
            |k: int| (self.pin_seq()[pins@[k] - 1], bit_of(value, k as u32)),
        );
        let len = pins.len();
        let mut k: usize = 0;
        while k < len
            invariant
                self.wf(),
                len == pins@.len(),
                len <= 32,
                forall|j: int| 0 <= j < len ==> 1 <= #[trigger] pins@[j] <= self.npins(),
                self.pin_seq() == old(self).pin_seq(),
                entries == Seq::new(
                    pins@.len(),
                    |j: int| (self.pin_seq()[pins@[j] - 1], bit_of(value, j as u32)),
                ),
                k <= len,
                self.signals() == write_word_signals(old_sigs, pins@.take(k as int), value),
                self.buffer() == old_buf + entries.take(k as int),
            decreases len - k,
        {
            let p = pins[k];
            let b = value & (1u32 << (k as u32)) != 0;
            proof {
                let kk = k as u32;
                assert((value & (1u32 << kk) != 0) == ((value >> kk) & 1u32 == 1u32)) by (bit_vector)
                    requires
                        kk < 32u32,
                ;
                assert(b == bit_of(value, kk));
            }
            self.write(p, b);
            k += 1;
            proof {
                assert(pins@.take(k as int).drop_last() =~= pins@.take(k - 1));
                assert(old_buf + entries.take(k as int) =~= (old_buf + entries.take(k - 1)).push(
                    entries[k - 1],
                ));
            }
        }
        proof {
            assert(pins@.take(len as int) =~= pins@);
            assert(entries.take(len as int) =~= entries);
        }
    }

    /// Closes the session and hands back the change buffer.
    pub fn changes(self) -> (r: Vec<(usize, bool)>)
        ensures
            r@ == self.buffer(),
    {
        self.changes
    }
}

/// The behavior a registered component contributes: a fixed pin count and an
/// evaluation function invoked with a session over exactly that many pins.
pub trait Component: Sized {
    /// The component's declared pin count, constant for its lifetime.
    spec fn spec_pin_count(&self) -> usize;

    /// The component's evaluation relation: whether one `update` on the
    /// session `io` may leave the component as `next` and the session as
    /// `out`. Each implementation states here what its evaluation does.
    spec fn evaluates_to(self, io: IO, next: Self, out: IO) -> bool;

    /// Returns the declared pin count.
    fn pin_count(&self) -> (n: usize)
        ensures
            n == self.spec_pin_count(),
    ;

    /// Evaluates the component against the session's input signals; the
    /// session's change buffer collects every write. The outcome is bound by
    /// the implementation's evaluation relation.
    fn update(&mut self, io: &mut IO)
        requires
            old(io).wf(),
            old(io).npins() == old(self).spec_pin_count(),
        ensures
            old(self).evaluates_to(*old(io), *final(self), *final(io)),
            final(io).wf(),
            final(io).pin_seq() == old(io).pin_seq(),
            final(self).spec_pin_count() == old(self).spec_pin_count(),
    ;
}

/// Copies a vector of plain values element by element.
fn copy_vec<T: Copy>(v: &Vec<T>) -> (r: Vec<T>)
    ensures
        r@ == v@,
{
    let mut r: Vec<T> = Vec::new();
    let mut i: usize = 0;
    while i < v.len()
        invariant
            i <= v@.len(),
            r@ =~= v@.take(i as int),
        decreases v@.len() - i,
    {
        r.push(v[i]);
        i += 1;
    }
    proof {
        assert(r@ =~= v@);
    }
    r
}

/// A registered component: its behavior, its global pin ids and the
/// persistent per-pin input signals carried from one evaluation to the next.
pub struct Wrapper<C: Component> {
    pins: Vec<usize>,
    input: Vec<Signal>,
    component: C,
}

impl<C: Component> Wrapper<C> {
    /// The component's global pin ids, local pin `i` at index `i - 1`.
    pub closed spec fn pin_seq(self) -> Seq<usize> {
        self.pins@
    }

    /// The persistent input signals, one per pin.
    pub closed spec fn input_seq(self) -> Seq<Signal> {
        self.input@
    }

    /// The wrapped behavior.
    pub closed spec fn behavior(self) -> C {
        self.component
    }

    pub open spec fn wf(self) -> bool {
        &&& self.input_seq().len() == self.pin_seq().len()
        &&& self.pin_seq().len() == self.behavior().spec_pin_count()
    }

    /// Wraps a component over its allocated global pins; every input signal
    /// starts at the steady low level.
    pub fn new(pins: Vec<usize>, component: C) -> (w: Wrapper<C>)
        requires
            pins@.len() == component.spec_pin_count(),
        ensures
            w.wf(),
            w.pin_seq() == pins@,
            w.input_seq() == Seq::new(pins@.len(), |i: int| Signal::Static(false)),
            w.behavior() == component,
    {
        let n = pins.len();
        let mut input: Vec<Signal> = Vec::new();
        let mut i: usize = 0;
        while i < n
            invariant
                i <= n,
                input@ =~= Seq::new(i as nat, |j: int| Signal::Static(false)),
            decreases n - i,
        {
            input.push(Signal::Static(false));
            i += 1;
        }
        proof {
            assert(input@ =~= Seq::new(pins@.len(), |j: int| Signal::Static(false)));
        }
        Wrapper { pins, input, component }
    }

    /// The component's global pin ids.
    pub fn pins(&self) -> (r: &Vec<usize>)
        ensures
            r@ == self.pin_seq(),
    {
        &self.pins
    }

    /// Assembles the next input: advances every persistent signal by the
    /// freshly read pin level, surfacing rising and falling edges.
    pub fn set_input(&mut self, input: Vec<bool>)
        requires
            old(self).wf(),
            input@.len() == old(self).pin_seq().len(),
        ensures
            final(self).wf(),
            final(self).pin_seq() == old(self).pin_seq(),
            final(self).behavior() == old(self).behavior(),
            final(self).input_seq() == Seq::new(
                old(self).input_seq().len(),
                |i: int| old(self).input_seq()[i].next_spec(input@[i]),
            ),
    {
        let ghost target = Seq::new(
            old(self).input_seq().len(),
            |i: int| old(self).input_seq()[i].next_spec(input@[i]),
        );
        let n = self.input.len();
        let mut i: usize = 0;
        while i < n
            invariant
                n == old(self).input_seq().len(),
                input@.len() == n,
                self.input@.len() == n,
                self.pins == old(self).pins,
                self.component == old(self).component,
                target == Seq::new(n as nat, |j: int| old(self).input_seq()[j].next_spec(input@[j])),
                i <= n,
                forall|j: int| 0 <= j < i ==> self.input@[j] == target[j],
                forall|j: int| i <= j < n ==> self.input@[j] == old(self).input_seq()[j],
            decreases n - i,
        {
            let s = self.input[i];
            self.input[i] = s.next_value(input[i]);
            i += 1;
        }
        proof {
            assert(self.input@ =~= target);
        }
    }

    /// Runs one evaluation: opens a session over a snapshot of the input
    /// signals, lets the component write through it, and returns the change
    /// buffer. Every buffered change names one of the wrapper's own pins,
    /// and the buffer is exactly what one evaluation of the component on the
    /// freshly seeded session produced.
    pub fn update(&mut self) -> (changes: Vec<(usize, bool)>)
        requires
            old(self).wf(),
        ensures
            final(self).wf(),
            final(self).pin_seq() == old(self).pin_seq(),
            final(self).input_seq() == old(self).input_seq(),
            forall|j: int|
                0 <= j < changes@.len() ==> old(self).pin_seq().contains(
                    (#[trigger] changes@[j]).0,
                ),
            exists|io0: IO, out: IO|
                {
                    &&& seeded_session(io0, old(self).pin_seq(), old(self).input_seq())
                    &&& #[trigger] old(self).behavior().evaluates_to(
                        io0,
                        final(self).behavior(),
                        out,
                    )
                    &&& changes@ == out.buffer()
                },
    {
        let pins_copy = copy_vec(&self.pins);
        let input_copy = copy_vec(&self.input);
        let mut io = IO::new(pins_copy, input_copy);
        let ghost io0 = io;
        self.component.update(&mut io);
        let ghost out = io;
        let changes = io.changes();
        proof {
            assert(seeded_session(io0, old(self).pin_seq(), old(self).input_seq()));
            assert(old(self).behavior().evaluates_to(io0, self.behavior(), out));
            assert(changes@ == out.buffer());
        }
        changes
    }
}

/// A named group of component pins: pairs of `(component key, local pin)`,
/// addressed 1-based like component pins themselves.
pub struct MetaComponent {
    pins: Vec<(usize, usize)>,
}

impl MetaComponent {
    /// The grouped `(component key, local pin)` pairs.
    pub closed spec fn pin_pairs(self) -> Seq<(usize, usize)> {
        self.pins@
    }

    /// Builds a group from a flat list alternating component keys and local
    /// pins.
    pub fn new(pins: &[usize]) -> (m: MetaComponent)
        requires
            pins@.len() % 2 == 0,
        ensures
            m.pin_pairs().len() == pins@.len() / 2,
            forall|j: int|
                0 <= j < m.pin_pairs().len() ==> #[trigger] m.pin_pairs()[j] == (
                pins@[2 * j],
                pins@[2 * j + 1],
            ),
    {
        let half = pins.len() / 2;
        proof {
            assert(pins@.len() == 2 * (pins@.len() / 2) + pins@.len() % 2);
        }
        let mut pairs: Vec<(usize, usize)> = Vec::new();
        let mut i: usize = 0;
        while i < half
            invariant
                half == pins@.len() / 2,
                2 * half == pins@.len(),
                pins@.len() <= usize::MAX,
                i <= half,
                pairs@.len() == i,
                forall|j: int|
                    0 <= j < i ==> #[trigger] pairs@[j] == (pins@[2 * j], pins@[2 * j + 1]),
            decreases half - i,
        {
            pairs.push((pins[2 * i], pins[2 * i + 1]));
            i += 1;
        }
        MetaComponent { pins: pairs }
    }

    /// The `(component key, local pin)` pair at 1-based position `pin`.
    pub fn pin(&self, pin: usize) -> (r: (usize, usize))
        requires
            1 <= pin <= self.pin_pairs().len(),
        ensures
            r == self.pin_pairs()[pin - 1],
    {
        self.pins[pin - 1]
    }
}

} // verus!
