use sim_rs::components::logic::{And, Buffer, Not, Or, Xor};
use sim_rs::components::mem::Ram;
use sim_rs::components::{Chip, Static};
use sim_rs::{Component, EngineError, Graph, Sim, IO};

/// The test circuit's component type: the built-in zoo plus two probes.
/// `PulseToggle` flips its output on every rising edge of its input;
/// `SelfWriter` drives its own input pin during evaluation.
enum TestChip {
    Chip(Chip),
    PulseToggle(bool),
    SelfWriter,
    DoubleWriter,
}

impl Component for TestChip {
    // Stands in for the erased specification member; never called at run
    // time.
    fn evaluates_to(self, _io: IO, _next: Self, _out: IO) -> bool {
        true
    }

    fn spec_pin_count(&self) -> usize {
        match self {
            TestChip::Chip(c) => c.spec_pin_count(),
            TestChip::PulseToggle(_) => 2,
            TestChip::SelfWriter => 2,
            TestChip::DoubleWriter => 2,
        }
    }

    fn pin_count(&self) -> usize {
        match self {
            TestChip::Chip(c) => c.pin_count(),
            TestChip::PulseToggle(_) => 2,
            TestChip::SelfWriter => 2,
            TestChip::DoubleWriter => 2,
        }
    }

    fn update(&mut self, io: &mut IO) {
        match self {
            TestChip::Chip(c) => c.update(io),
            TestChip::PulseToggle(state) => {
                if io.is_rising_edge(1) {
                    *state = !*state;
                }
                let v = *state;
                io.write(2, v);
            }
            TestChip::SelfWriter => {
                let v = io.read(1);
                io.write(1, !v);
                io.write(2, v);
            }
            TestChip::DoubleWriter => {
                io.write(2, true);
                io.write(2, false);
            }
        }
    }
}

#[test]
fn not_through_a_wire() {
    let mut s: Sim<Chip> = Sim::new();
    let not = s.add_component(Chip::Not(Not));
    s.write(not, 1, true).unwrap();
    assert!(!s.read(not, 2));
    s.write(not, 1, false).unwrap();
    assert!(s.read(not, 2));
}

#[test]
fn clock_counting_through_an_inverter() {
    let mut s: Sim<Chip> = Sim::new();
    let not = s.add_component(Chip::Not(Not));
    s.connect_to_clk(not, 1);
    let mut expected = true;
    for _ in 0..4 {
        s.tick().unwrap();
        // The inverter's output toggles on every tick, tracking !clk.
        expected = !expected;
        assert_eq!(s.read(not, 2), expected);
        assert_eq!(s.read(not, 2), !s.read_clk());
    }
}

#[test]
fn and_fan_in() {
    let mut s: Sim<Chip> = Sim::new();
    let and = s.add_component(Chip::And(And));
    s.write(and, 1, true).unwrap();
    s.write(and, 2, true).unwrap();
    assert!(s.read(and, 3));
    s.write(and, 2, false).unwrap();
    assert!(!s.read(and, 3));
}

#[test]
fn or_and_xor_settle() {
    let mut s: Sim<Chip> = Sim::new();
    let or = s.add_component(Chip::Or(Or));
    let xor = s.add_component(Chip::Xor(Xor));
    s.write(or, 1, true).unwrap();
    assert!(s.read(or, 3));
    s.write(xor, 1, true).unwrap();
    s.write(xor, 2, true).unwrap();
    assert!(!s.read(xor, 3));
    s.write(xor, 2, false).unwrap();
    assert!(s.read(xor, 3));
}

#[test]
fn net_merge_preserves_level() {
    let mut s: Sim<Chip> = Sim::new();
    let b1 = s.add_component(Chip::Buffer(Buffer));
    let b2 = s.add_component(Chip::Buffer(Buffer));
    s.write(b1, 1, false).unwrap();
    s.connect(b1, 1, b2, 1);
    // The driven level survived the net recompute.
    s.write(b1, 1, true).unwrap();
    assert!(s.read(b2, 1));
    assert!(s.read(b2, 2));
    // Both outputs drive true; merging them keeps the agreed level.
    assert!(s.read(b1, 2));
    s.connect(b1, 2, b2, 2);
    assert!(s.read(b1, 2));
    assert!(s.read(b2, 2));
}

#[test]
fn quiescence_after_tick() {
    let mut s: Sim<Chip> = Sim::new();
    let not = s.add_component(Chip::Not(Not));
    let and = s.add_component(Chip::And(And));
    s.connect_to_clk(not, 1);
    s.connect(not, 2, and, 1);
    s.write(and, 2, true).unwrap();
    for _ in 0..4 {
        s.tick().unwrap();
        // Re-evaluating each gate against current levels changes nothing.
        assert_eq!(s.read(not, 2), !s.read(not, 1));
        assert_eq!(s.read(and, 3), s.read(and, 1) && s.read(and, 2));
    }
}

#[test]
fn clock_parity_over_many_ticks() {
    let mut s: Sim<Chip> = Sim::new();
    assert!(!s.read_clk());
    for n in 1..=8 {
        s.tick().unwrap();
        assert_eq!(s.read_clk(), n % 2 == 1);
    }
}

#[test]
fn peers_equal_weakly_connected_pins() {
    let mut s: Sim<Chip> = Sim::new();
    let b1 = s.add_component(Chip::Buffer(Buffer)); // global pins 1, 2
    let b2 = s.add_component(Chip::Buffer(Buffer)); // global pins 3, 4
    let b3 = s.add_component(Chip::Buffer(Buffer)); // global pins 5, 6
    s.connect(b1, 2, b2, 1); // 2 - 3
    s.connect(b2, 1, b3, 1); // 3 - 5: transitively {2, 3, 5}
    assert_eq!(s.peers(2), vec![2, 3, 5]);
    assert_eq!(s.peers(3), vec![2, 3, 5]);
    assert_eq!(s.peers(5), vec![2, 3, 5]);
    assert_eq!(s.peers(0), vec![0]);
    assert_eq!(s.peers(4), vec![4]);
    s.connect_to_clk(b3, 2); // 6 - 0
    assert_eq!(s.peers(0), vec![0, 6]);
}

#[test]
fn non_convergent_ring_reports_engine_error() {
    let mut s: Sim<Chip> = Sim::new();
    let b = s.add_component(Chip::Buffer(Buffer));
    let n = s.add_component(Chip::Not(Not));
    s.connect(b, 2, n, 1);
    s.connect(n, 2, b, 1);
    // A buffer feeding an inverter feeding the buffer has no stable state:
    // propagation oscillates until the recursion bound runs out.
    let r = s.write(b, 1, false);
    assert!(matches!(r, Err(EngineError::NonConvergent)));
}

#[test]
fn self_writing_component_terminates() {
    let mut s: Sim<TestChip> = Sim::new();
    let sw = s.add_component(TestChip::SelfWriter);
    // The initial evaluation read a low input and drove the input pin high.
    assert!(s.read(sw, 1));
    // The self-exclusion rule keeps a component's own write from
    // re-triggering it, so propagation converges.
    assert!(s.write(sw, 1, false).is_ok());
    // The component inverted its own input again, and was not re-run.
    assert!(s.read(sw, 1));
    assert!(s.tick().is_ok());
}

#[test]
fn edge_gated_pulse_reaches_downstream_consumer() {
    let mut s: Sim<TestChip> = Sim::new();
    // Register the AND first so it is re-evaluated before the inverter and
    // still observes the inverter's pre-tick output: AND(clk, !clk_delayed)
    // pulses on each rising clock edge.
    let and = s.add_component(TestChip::Chip(Chip::And(And)));
    let not = s.add_component(TestChip::Chip(Chip::Not(Not)));
    let probe = s.add_component(TestChip::PulseToggle(false));
    s.connect_to_clk(and, 1);
    s.connect_to_clk(not, 1);
    s.connect(and, 2, not, 2);
    s.connect(and, 3, probe, 1);
    s.tick().unwrap(); // clk rises: one pulse
    assert!(s.read(probe, 2));
    assert!(!s.read(and, 3)); // the pulse has decayed by quiescence
    s.tick().unwrap(); // clk falls: no pulse
    assert!(s.read(probe, 2));
    s.tick().unwrap(); // clk rises: second pulse
    assert!(!s.read(probe, 2));
    s.tick().unwrap();
    assert!(!s.read(probe, 2));
}

#[test]
fn write_to_clock_net_is_refused() {
    let mut s: Sim<Chip> = Sim::new();
    let not = s.add_component(Chip::Not(Not));
    s.connect_to_clk(not, 1);
    s.tick().unwrap();
    assert!(s.read_clk());
    // The clock net is owned by the tick driver: an external write aimed at
    // it changes nothing.
    s.write(not, 1, false).unwrap();
    assert!(s.read_clk());
    assert!(s.read(not, 1));
}

#[test]
fn ram_drives_and_stores_words() {
    let mut s: Sim<Chip> = Sim::new();
    let ram = s.add_component(Chip::Ram(Ram::new(&[5, 6])));
    // Address 0, write-enable low: the data window drives 5 = 0b101.
    assert!(s.read(ram, 33));
    assert!(!s.read(ram, 34));
    assert!(s.read(ram, 35));
    // Address 1: the data window drives 6 = 0b110.
    s.write(ram, 1, true).unwrap();
    assert!(!s.read(ram, 33));
    assert!(s.read(ram, 34));
    assert!(s.read(ram, 35));
    // Raise write-enable, then raise data bit 0: the RAM stores 7.
    s.write(ram, 65, true).unwrap();
    s.write(ram, 33, true).unwrap();
    s.write(ram, 65, false).unwrap();
    assert!(s.read(ram, 33));
    assert!(s.read(ram, 34));
    assert!(s.read(ram, 35));
}

#[test]
fn static_component_drives_its_word() {
    let mut s: Sim<Static<3>> = Sim::new();
    let w = s.add_component(Static::<3>(0b101));
    assert!(s.read(w, 1));
    assert!(!s.read(w, 2));
    assert!(s.read(w, 3));
}

#[test]
fn graph_components_label_weakly_connected_classes() {
    let mut g = Graph::new();
    for _ in 0..4 {
        g.add_node();
    }
    assert_eq!(g.nodes(), vec![0, 1, 2, 3]);
    g.add_edge(0, 1);
    g.add_edge(2, 3);
    let l = g.components();
    assert_eq!(l.len(), 4);
    assert_eq!(l[0], l[1]);
    assert_eq!(l[2], l[3]);
    assert_ne!(l[0], l[2]);
    g.add_edge(1, 2);
    let l = g.components();
    assert_eq!(l[0], l[1]);
    assert_eq!(l[1], l[2]);
    assert_eq!(l[2], l[3]);
}

#[test]
fn graph_self_edge_changes_nothing() {
    let mut g = Graph::new();
    g.add_node();
    g.add_node();
    g.add_edge(0, 0);
    let l = g.components();
    assert_ne!(l[0], l[1]);
}

#[test]
fn duplicate_connections_are_no_ops() {
    let mut s: Sim<Chip> = Sim::new();
    let b1 = s.add_component(Chip::Buffer(Buffer));
    let b2 = s.add_component(Chip::Buffer(Buffer));
    s.connect(b1, 2, b2, 1);
    s.connect(b1, 2, b2, 1);
    s.connect(b2, 1, b1, 2);
    s.write(b1, 1, true).unwrap();
    assert!(s.read(b2, 2));
    assert_eq!(s.peers(2), vec![2, 3]);
}

#[test]
fn connect_bulk_pairs_windows() {
    let mut s: Sim<Chip> = Sim::new();
    let x1 = s.add_component(Chip::Xor(Xor)); // pins 1, 2, 3
    let x2 = s.add_component(Chip::Xor(Xor)); // pins 4, 5, 6
    s.connect_bulk(x1, &[1, 2], x2, &[1, 2]);
    assert_eq!(s.peers(1), vec![1, 4]);
    assert_eq!(s.peers(2), vec![2, 5]);
    s.write(x1, 1, true).unwrap();
    assert!(s.read(x1, 3));
    assert!(s.read(x2, 3));
}

#[test]
fn connect_bulk_with_empty_windows_is_a_no_op() {
    let mut s: Sim<Chip> = Sim::new();
    let b1 = s.add_component(Chip::Buffer(Buffer));
    let b2 = s.add_component(Chip::Buffer(Buffer));
    s.connect_bulk(b1, &[], b2, &[]);
    assert_eq!(s.peers(1), vec![1]);
    assert_eq!(s.peers(3), vec![3]);
}

#[test]
fn transient_double_write_is_not_committed() {
    let mut s: Sim<TestChip> = Sim::new();
    let dw = s.add_component(TestChip::DoubleWriter);
    let probe = s.add_component(TestChip::PulseToggle(false));
    s.connect(dw, 2, probe, 1);
    assert!(!s.read(probe, 2));
    // The change buffer is a mapping: only the last write per pin commits,
    // so the high transient never reaches the probe as an edge.
    s.write(dw, 1, true).unwrap();
    assert!(!s.read(dw, 2));
    assert!(!s.read(probe, 2));
}
