use sim_rs::components::logic::{And, Buffer, Nand, Nor, Not, Or, Xnor, Xor};
use sim_rs::components::mem::Ram;
use sim_rs::{Component, MetaComponent, Signal, Wrapper, IO};

fn fresh_io(npins: usize) -> IO {
    let pins: Vec<usize> = (1..=npins).collect();
    let values = vec![Signal::Static(false); npins];
    IO::new(pins, values)
}

#[test]
fn read_observes_write_in_same_session() {
    let mut io = fresh_io(2);
    assert!(!io.read(1));
    io.write(1, true);
    assert!(io.read(1));
    io.write(1, false);
    assert!(!io.read(1));
}

#[test]
fn session_edges_are_one_shot() {
    let mut io = fresh_io(1);
    assert!(!io.is_rising_edge(1));
    io.write(1, true);
    assert!(io.is_rising_edge(1));
    assert!(!io.is_falling_edge(1));
    io.write(1, true);
    assert!(!io.is_rising_edge(1));
    io.write(1, false);
    assert!(io.is_falling_edge(1));
    io.write(1, false);
    assert!(!io.is_falling_edge(1));
}

#[test]
fn change_buffer_records_last_write_per_pin() {
    let mut io = fresh_io(3);
    io.write(2, true);
    io.write(2, false);
    io.write(3, true);
    let changes = io.changes();
    // Write order is kept; a later write to the same pin wins at commit.
    assert_eq!(changes, vec![(2, true), (2, false), (3, true)]);
}

#[test]
fn word_round_trip_full_window() {
    let mut io = fresh_io(8);
    let window: Vec<usize> = (1..=8).collect();
    io.write_u32(&window, 0xA5);
    assert_eq!(io.read_u32(&window), 0xA5);
    assert!(io.read(1)); // bit 0 of 0xA5
    assert!(!io.read(2)); // bit 1
    assert!(io.read(3)); // bit 2
    assert!(!io.read(4)); // bit 3
}

#[test]
fn word_round_trip_shuffled_window() {
    let mut io = fresh_io(4);
    let window = vec![3usize, 1, 4];
    io.write_u32(&window, 0b101);
    assert_eq!(io.read_u32(&window), 0b101);
    assert!(io.read(3));
    assert!(!io.read(1));
    assert!(io.read(4));
    assert!(!io.read(2));
}

#[test]
fn word_round_trip_max_width() {
    let mut io = fresh_io(32);
    let window: Vec<usize> = (1..=32).collect();
    io.write_u32(&window, 0xDEAD_BEEF);
    assert_eq!(io.read_u32(&window), 0xDEAD_BEEF);
    io.write_u32(&window, u32::MAX);
    assert_eq!(io.read_u32(&window), u32::MAX);
    io.write_u32(&window, 0);
    assert_eq!(io.read_u32(&window), 0);
}

#[test]
fn word_write_narrow_window_keeps_other_pins() {
    let mut io = fresh_io(6);
    io.write(6, true);
    io.write_u32(&[2usize, 3], 0b11);
    assert!(!io.read(1));
    assert!(io.read(2));
    assert!(io.read(3));
    assert!(!io.read(4));
    assert!(io.read(6));
}

#[test]
fn wrapper_runs_component_against_input_snapshot() {
    let mut w = Wrapper::new(vec![10usize, 11], Not);
    // All inputs start low: the inverter drives its output high.
    let changes = w.update();
    assert_eq!(changes, vec![(11, true)]);
    // Assemble a high input: the next evaluation drives the output low.
    w.set_input(vec![true, false]);
    let changes = w.update();
    assert_eq!(changes, vec![(11, false)]);
    assert_eq!(w.pins().clone(), vec![10, 11]);
}

#[test]
fn wrapper_update_leaves_persistent_input_alone() {
    let mut w = Wrapper::new(vec![7usize, 8], Not);
    w.set_input(vec![true, false]);
    // In-session signal advances are discarded with the session.
    let first = w.update();
    let second = w.update();
    assert_eq!(first, second);
}

#[test]
fn meta_component_groups_pin_pairs() {
    let m = MetaComponent::new(&[4usize, 1, 9, 2, 0, 3]);
    assert_eq!(m.pin(1), (4, 1));
    assert_eq!(m.pin(2), (9, 2));
    assert_eq!(m.pin(3), (0, 3));
}

#[test]
fn component_pin_counts() {
    assert_eq!(Buffer.pin_count(), 2);
    assert_eq!(Not.pin_count(), 2);
    assert_eq!(And.pin_count(), 3);
    assert_eq!(Or.pin_count(), 3);
    assert_eq!(Nand.pin_count(), 3);
    assert_eq!(Nor.pin_count(), 3);
    assert_eq!(Xor.pin_count(), 3);
    assert_eq!(Xnor.pin_count(), 3);
    assert_eq!(Ram::new(&[0]).pin_count(), 65);
}

#[test]
fn ram_reads_stored_words() {
    let ram = Ram::new(&[9, 8, 7]);
    assert_eq!(ram.read(0), 9);
    assert_eq!(ram.read(1), 8);
    assert_eq!(ram.read(2), 7);
}

#[test]
fn meta_component_accepts_an_empty_group() {
    let m = MetaComponent::new(&[]);
    let _ = m;
}

#[test]
fn empty_word_window_reads_zero() {
    let io = fresh_io(4);
    assert_eq!(io.read_u32(&[]), 0);
}
