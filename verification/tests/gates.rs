use logik_simulation::component::{
    Component, ComponentId, InputStates, PortType, StateChange,
};
use logik_simulation::edge::EdgeDirection;
use logik_simulation::subnet::SubnetState;

use SubnetState::{Error, Floating, Off, On};

/// An input snapshot where every listed port sits at a steady level.
fn steady(pairs: &[(usize, SubnetState)]) -> InputStates {
    let mut m = InputStates::new();
    for (p, v) in pairs {
        m.insert(*p, StateChange::new(*v, *v));
    }
    m
}

fn eval(mut c: Component, data: &InputStates) -> Vec<(usize, SubnetState)> {
    c.evaluate(data)
}

fn gate2(c: Component, a: SubnetState, b: SubnetState) -> SubnetState {
    let out = eval(c, &steady(&[(0, a), (1, b)]));
    assert_eq!(out.len(), 1);
    assert_eq!(out[0].0, 2);
    out[0].1
}

#[test]
fn not_gate_truth_table() {
    for (input, expect) in [(Off, On), (On, Off), (Floating, Error), (Error, Error)] {
        let out = eval(Component::Not, &steady(&[(0, input)]));
        assert_eq!(out, vec![(1, expect)]);
    }
    // an unconnected input counts as floating
    assert_eq!(eval(Component::Not, &steady(&[])), vec![(1, Error)]);
}

#[test]
fn buffer_follows_input() {
    for v in [Off, On, Floating, Error] {
        assert_eq!(eval(Component::Buffer, &steady(&[(0, v)])), vec![(1, v)]);
    }
    assert_eq!(eval(Component::Buffer, &steady(&[])), vec![(1, Floating)]);
}

#[test]
fn and_gate_truth_table() {
    assert_eq!(gate2(Component::And, On, On), On);
    assert_eq!(gate2(Component::And, On, Off), Off);
    assert_eq!(gate2(Component::And, Off, On), Off);
    assert_eq!(gate2(Component::And, Off, Off), Off);
    // both operands must be driven before the result is defined
    assert_eq!(gate2(Component::And, Floating, Off), Error);
    assert_eq!(gate2(Component::And, On, Floating), Error);
    assert_eq!(gate2(Component::And, Error, On), Error);
}

#[test]
fn nand_nor_xnor_invert_their_base_gates() {
    for a in [Off, On, Floating, Error] {
        for b in [Off, On, Floating, Error] {
            let and = gate2(Component::And, a, b);
            let nand = gate2(Component::Nand, a, b);
            let or = gate2(Component::Or, a, b);
            let nor = gate2(Component::Nor, a, b);
            let xor = gate2(Component::Xor, a, b);
            let xnor = gate2(Component::Xnor, a, b);
            let flip = |v: SubnetState| match v {
                On => Off,
                Off => On,
                _ => Error,
            };
            assert_eq!(nand, flip(and));
            assert_eq!(nor, flip(or));
            assert_eq!(xnor, flip(xor));
        }
    }
}

#[test]
fn or_and_xor_truth_tables() {
    assert_eq!(gate2(Component::Or, Off, Off), Off);
    assert_eq!(gate2(Component::Or, On, Off), On);
    assert_eq!(gate2(Component::Or, Off, On), On);
    assert_eq!(gate2(Component::Or, On, On), On);
    assert_eq!(gate2(Component::Or, Floating, On), Error);

    assert_eq!(gate2(Component::Xor, Off, Off), Off);
    assert_eq!(gate2(Component::Xor, On, Off), On);
    assert_eq!(gate2(Component::Xor, Off, On), On);
    assert_eq!(gate2(Component::Xor, On, On), Off);
    assert_eq!(gate2(Component::Xor, Error, Off), Error);
}

#[test]
fn tri_state_gates() {
    // enabled: follow (or invert) the data input
    assert_eq!(gate2(Component::TriBuffer, Off, On), Off);
    assert_eq!(gate2(Component::TriBuffer, On, On), On);
    assert_eq!(gate2(Component::TriInverter, Off, On), On);
    assert_eq!(gate2(Component::TriInverter, On, On), Off);
    assert_eq!(gate2(Component::TriInverter, Floating, On), Error);
    // anything but a truthy enable floats the output
    for enable in [Off, Floating, Error] {
        assert_eq!(gate2(Component::TriBuffer, On, enable), Floating);
        assert_eq!(gate2(Component::TriInverter, On, enable), Floating);
    }
}

#[test]
fn sources_and_sinks() {
    assert_eq!(eval(Component::InputGate, &steady(&[])), vec![(0, On)]);
    assert_eq!(eval(Component::OutputGate, &steady(&[(0, On)])), vec![]);
    assert_eq!(eval(Component::Probe, &steady(&[(0, Off)])), vec![]);
    assert_eq!(eval(Component::LED, &steady(&[(0, Off)])), vec![]);
    assert_eq!(
        eval(Component::Constant { state: false }, &steady(&[])),
        vec![(0, Off)]
    );
    assert_eq!(
        eval(Component::Constant { state: true }, &steady(&[])),
        vec![(0, On)]
    );
    assert_eq!(
        eval(Component::Switch { state: true }, &steady(&[])),
        vec![(0, On)]
    );
    assert_eq!(
        eval(Component::Button { state: false }, &steady(&[])),
        vec![(0, Off)]
    );
}

#[test]
fn clock_emits_then_toggles() {
    let mut c = Component::Clock { state: false };
    assert_eq!(c.evaluate(&steady(&[])), vec![(0, Off)]);
    assert_eq!(c, Component::Clock { state: true });
    assert_eq!(c.evaluate(&steady(&[])), vec![(0, On)]);
    assert_eq!(c, Component::Clock { state: false });
}

/// A snapshot with a rising clock on `clock_port` and steady levels on the
/// other listed ports.
fn rising_clock(clock_port: usize, pairs: &[(usize, SubnetState)]) -> InputStates {
    let mut m = steady(pairs);
    m.insert(clock_port, StateChange::new(Off, On));
    m
}

#[test]
fn d_flip_flop_law() {
    // no clock edge: the latch holds, outputs re-assert it
    let mut ff = Component::DFlipFlop { state: false };
    assert_eq!(
        ff.evaluate(&steady(&[(0, On), (1, On)])),
        vec![(3, Off), (4, On)]
    );
    assert_eq!(ff, Component::DFlipFlop { state: false });

    // rising edge: follow the data input
    assert_eq!(
        ff.evaluate(&rising_clock(1, &[(0, On)])),
        vec![(3, On), (4, Off)]
    );
    assert_eq!(ff, Component::DFlipFlop { state: true });

    // rising edge while disabled: hold
    assert_eq!(
        ff.evaluate(&rising_clock(1, &[(0, Off), (2, On)])),
        vec![(3, On), (4, Off)]
    );
    assert_eq!(ff, Component::DFlipFlop { state: true });

    // rising edge with an undriven data input: hold
    assert_eq!(
        ff.evaluate(&rising_clock(1, &[])),
        vec![(3, On), (4, Off)]
    );
}

#[test]
fn t_flip_flop_law() {
    let mut ff = Component::TFlipFlop { state: false };
    // t held low: no toggle on the edge
    assert_eq!(
        ff.evaluate(&rising_clock(1, &[(0, Off)])),
        vec![(3, Off), (4, On)]
    );
    // t truthy: toggle on the edge
    assert_eq!(
        ff.evaluate(&rising_clock(1, &[(0, On)])),
        vec![(3, On), (4, Off)]
    );
    assert_eq!(
        ff.evaluate(&rising_clock(1, &[(0, On)])),
        vec![(3, Off), (4, On)]
    );
    // no edge: no toggle
    assert_eq!(
        ff.evaluate(&steady(&[(0, On), (1, On)])),
        vec![(3, Off), (4, On)]
    );
}

#[test]
fn jk_flip_flop_law() {
    let mut ff = Component::JKFlipFlop { state: false };
    // j set
    assert_eq!(
        ff.evaluate(&rising_clock(2, &[(0, On), (1, Off)])),
        vec![(4, On), (5, Off)]
    );
    // k reset
    assert_eq!(
        ff.evaluate(&rising_clock(2, &[(0, Off), (1, On)])),
        vec![(4, Off), (5, On)]
    );
    // both: toggle
    assert_eq!(
        ff.evaluate(&rising_clock(2, &[(0, On), (1, On)])),
        vec![(4, On), (5, Off)]
    );
    // neither: hold
    assert_eq!(
        ff.evaluate(&rising_clock(2, &[(0, Off), (1, Off)])),
        vec![(4, On), (5, Off)]
    );
    // disabled: hold even with j and k set
    assert_eq!(
        ff.evaluate(&rising_clock(2, &[(0, On), (1, On), (3, On)])),
        vec![(4, On), (5, Off)]
    );
}

#[test]
fn sr_flip_flop_law() {
    let mut ff = Component::SRFlipFlop { state: false };
    // set
    assert_eq!(
        ff.evaluate(&rising_clock(2, &[(0, On), (1, Off)])),
        vec![(4, On), (5, Off)]
    );
    // reset
    assert_eq!(
        ff.evaluate(&rising_clock(2, &[(0, Off), (1, On)])),
        vec![(4, Off), (5, On)]
    );
    // both set and reset: an illegal hold, the latch keeps its value
    assert_eq!(
        ff.evaluate(&rising_clock(2, &[(0, On), (1, On)])),
        vec![(4, Off), (5, On)]
    );
}

#[test]
fn port_layout_of_catalog() {
    let and = Component::from_id(ComponentId::And);
    assert_eq!(and.ports(), 3);
    assert_eq!(and.port_type(0), Some(PortType::Input));
    assert_eq!(and.port_type(1), Some(PortType::Input));
    assert_eq!(and.port_type(2), Some(PortType::Output));
    assert_eq!(and.port_type(3), None);

    let dff = Component::from_id(ComponentId::DFlipFlop);
    assert_eq!(dff.ports(), 5);
    assert_eq!(dff.port_type(2), Some(PortType::Input));
    assert_eq!(dff.port_type(3), Some(PortType::Output));
    assert_eq!(dff.port_type(4), Some(PortType::Output));

    let probe = Component::from_id(ComponentId::Probe);
    assert_eq!(probe.ports(), 1);
    assert_eq!(probe.port_type(0), Some(PortType::Input));

    assert_eq!(PortType::Input.to_edge_direction(), EdgeDirection::ToComponent);
    assert_eq!(PortType::Output.to_edge_direction(), EdgeDirection::ToSubnet);
    assert_eq!(
        PortType::Bidirectional.to_edge_direction(),
        EdgeDirection::Bidirectional
    );
}

#[test]
fn state_change_edges() {
    assert!(StateChange::new(Off, On).rising());
    assert!(!StateChange::new(Off, On).falling());
    assert!(StateChange::new(On, Off).falling());
    assert!(!StateChange::new(Floating, On).rising());
    assert!(!StateChange::new(On, On).rising());
}

#[test]
fn toggling_latched_components() {
    let mut b = Component::Button { state: false };
    b.toggle();
    assert_eq!(b, Component::Button { state: true });
    b.toggle();
    assert_eq!(b, Component::Button { state: false });

    let mut gate = Component::And;
    gate.toggle();
    assert_eq!(gate, Component::And);

    let mut sw = Component::Switch { state: false };
    assert_eq!(sw.pressed(), On);
    assert_eq!(sw, Component::Switch { state: true });
    assert_eq!(sw.released(), Off);
    assert_eq!(sw, Component::Switch { state: false });
}
