use sim_rs::Signal;

#[test]
fn transition_table_from_static() {
    assert_eq!(Signal::Static(true).next_value(true), Signal::Static(true));
    assert_eq!(Signal::Static(true).next_value(false), Signal::FallingEdge);
    assert_eq!(Signal::Static(false).next_value(true), Signal::RisingEdge);
    assert_eq!(Signal::Static(false).next_value(false), Signal::Static(false));
}

#[test]
fn transition_table_from_edges() {
    assert_eq!(Signal::RisingEdge.next_value(true), Signal::Static(true));
    assert_eq!(Signal::RisingEdge.next_value(false), Signal::FallingEdge);
    assert_eq!(Signal::FallingEdge.next_value(true), Signal::RisingEdge);
    assert_eq!(Signal::FallingEdge.next_value(false), Signal::Static(false));
}

#[test]
fn level_of_each_state() {
    assert!(Signal::RisingEdge.into_bool());
    assert!(!Signal::FallingEdge.into_bool());
    assert!(Signal::Static(true).into_bool());
    assert!(!Signal::Static(false).into_bool());
}

#[test]
fn edge_is_one_shot() {
    // A transition surfaces as an edge for exactly one round.
    let s = Signal::Static(false).next_value(true);
    assert_eq!(s, Signal::RisingEdge);
    let s = s.next_value(true);
    assert_eq!(s, Signal::Static(true));
    let s = s.next_value(false);
    assert_eq!(s, Signal::FallingEdge);
    let s = s.next_value(false);
    assert_eq!(s, Signal::Static(false));
}
