use logik_simulation::component::{Component, ComponentId};
use logik_simulation::data::Data;
use logik_simulation::subnet::SubnetState;

fn add_component_of(data: &mut Data, kind: ComponentId) -> i32 {
    let comp = Component::from_id(kind);
    let p = comp.ports();
    let res = data.add_component(comp, vec![None; p]).unwrap();
    if kind == ComponentId::Clock {
        data.clock(res);
    }
    res
}

#[test]
fn test_simulation() {
    let mut data = Data::new();

    assert!(data.add_subnet(0));
    assert!(data.add_subnet(1));

    assert!(data
        .add_component(Component::Not, vec![Some(0), Some(1)])
        .is_ok());

    data.update_subnet(0, SubnetState::Off);

    assert_eq!(data.simulation.dirty_subnets, vec![vec![0]]);
    assert_eq!(data.subnet_state(0), Some(SubnetState::Off));
    assert_eq!(data.subnet_state(1), Some(SubnetState::Floating));

    data.advance_time();

    assert_eq!(data.simulation.dirty_subnets, vec![vec![1]]);
    assert_eq!(data.subnet_state(0), Some(SubnetState::Off));
    assert_eq!(data.subnet_state(1), Some(SubnetState::On));

    data.advance_time();

    assert_eq!(data.simulation.dirty_subnets, Vec::<Vec<i32>>::new());
    assert_eq!(data.subnet_state(0), Some(SubnetState::Off));
    assert_eq!(data.subnet_state(1), Some(SubnetState::On));
}

#[test]
fn test_simulation_2() {
    let mut data = Data::new();

    assert!(data.add_subnet(1));
    assert!(data.add_subnet(2));
    assert!(data.add_subnet(5));
    assert!(data.add_subnet(7));

    assert!(data
        .add_component(Component::And, vec![Some(1), Some(2), Some(5)])
        .is_ok());
    assert!(data
        .add_component(Component::Not, vec![Some(7), Some(1)])
        .is_ok());

    data.update_subnet(7, SubnetState::Off);
    data.update_silent(2, SubnetState::On);

    assert_eq!(data.simulation.dirty_subnets, vec![vec![7]]);
    assert_eq!(data.subnet_state(1), Some(SubnetState::Floating));
    assert_eq!(data.subnet_state(2), Some(SubnetState::On));
    assert_eq!(data.subnet_state(5), Some(SubnetState::Floating));
    assert_eq!(data.subnet_state(7), Some(SubnetState::Off));

    data.advance_time();

    assert_eq!(data.simulation.dirty_subnets, vec![vec![1]]);
    assert_eq!(data.subnet_state(1), Some(SubnetState::On));
    assert_eq!(data.subnet_state(2), Some(SubnetState::On));
    assert_eq!(data.subnet_state(5), Some(SubnetState::Floating));
    assert_eq!(data.subnet_state(7), Some(SubnetState::Off));

    data.advance_time();

    assert_eq!(data.simulation.dirty_subnets, vec![vec![5]]);
    assert_eq!(data.subnet_state(1), Some(SubnetState::On));
    assert_eq!(data.subnet_state(2), Some(SubnetState::On));
    assert_eq!(data.subnet_state(5), Some(SubnetState::On));
    assert_eq!(data.subnet_state(7), Some(SubnetState::Off));

    data.advance_time();

    assert_eq!(data.simulation.dirty_subnets, Vec::<Vec<i32>>::new());
    assert_eq!(data.subnet_state(1), Some(SubnetState::On));
    assert_eq!(data.subnet_state(2), Some(SubnetState::On));
    assert_eq!(data.subnet_state(5), Some(SubnetState::On));
    assert_eq!(data.subnet_state(7), Some(SubnetState::Off));
}

#[test]
fn test_simulation_3() {
    let mut data = Data::new();

    for i in 1..=6 {
        assert!(data.add_subnet(i));
    }

    assert!(data
        .add_component(Component::And, vec![Some(3), Some(3), Some(4)])
        .is_ok());
    assert!(data
        .add_component(Component::And, vec![Some(1), Some(2), Some(3)])
        .is_ok());
    assert!(data
        .add_component(Component::Not, vec![Some(5), Some(1)])
        .is_ok());
    assert!(data
        .add_component(Component::Not, vec![Some(6), Some(2)])
        .is_ok());

    data.update_subnet(5, SubnetState::Off);
    data.update_subnet(6, SubnetState::Off);

    assert_eq!(data.simulation.dirty_subnets, vec![vec![5, 6]]);
    let expect = |data: &Data, states: [SubnetState; 6]| {
        for (i, s) in states.iter().enumerate() {
            assert_eq!(data.subnet_state(i as i32 + 1), Some(*s));
        }
    };
    let f = SubnetState::Floating;
    let off = SubnetState::Off;
    let on = SubnetState::On;
    expect(&data, [f, f, f, f, off, off]);

    data.advance_time();

    assert_eq!(data.simulation.dirty_subnets, vec![vec![1, 2]]);
    expect(&data, [on, on, f, f, off, off]);

    data.advance_time();

    assert_eq!(data.simulation.dirty_subnets, vec![vec![3]]);
    expect(&data, [on, on, on, f, off, off]);

    data.advance_time();

    assert_eq!(data.simulation.dirty_subnets, vec![vec![4]]);
    expect(&data, [on, on, on, on, off, off]);
}

#[test]
fn test_linking_looped() {
    let mut data = Data::new();

    assert!(data.add_subnet(1));

    let not = add_component_of(&mut data, ComponentId::Not);
    let constant = add_component_of(&mut data, ComponentId::Constant);

    assert!(data.link(constant, 0, 1));
    assert!(data.link(not, 0, 1));
    assert!(data.link(not, 1, 1));

    assert_eq!(data.subnet_state(1), Some(SubnetState::Error));
}

#[test]
fn settle_is_idempotent() {
    let mut data = Data::new();
    assert!(data.add_subnet(0));
    assert!(data.add_subnet(1));
    assert!(data
        .add_component(Component::Not, vec![Some(0), Some(1)])
        .is_ok());

    data.update_subnet(0, SubnetState::Off);
    while !data.simulation.dirty_subnets.is_empty() {
        data.advance_time();
    }
    let settled: Vec<_> = (0..2).map(|i| data.subnet_state(i)).collect();

    // the queue is empty: advancing again performs no work at all
    data.advance_time();
    data.advance_time();
    assert!(data.simulation.dirty_subnets.is_empty());
    let again: Vec<_> = (0..2).map(|i| data.subnet_state(i)).collect();
    assert_eq!(settled, again);
}

#[test]
fn link_unlink_round_trip_on_sink() {
    let mut data = Data::new();
    assert!(data.add_subnet(4));
    data.update_subnet(4, SubnetState::On);
    while !data.simulation.dirty_subnets.is_empty() {
        data.advance_time();
    }
    let probe = add_component_of(&mut data, ComponentId::Probe);

    let before = data.subnet_state(4);
    let edges_before = data.edges.len();
    assert!(data.link(probe, 0, 4));
    assert_eq!(data.port_state(probe, 0), Some(SubnetState::On));
    assert!(data.unlink(probe, 0, 4));
    assert_eq!(data.subnet_state(4), before);
    assert_eq!(data.edges.len(), edges_before);
    assert_eq!(data.port_state(probe, 0), None);
}

#[test]
fn tri_state_drivers_share_a_net() {
    let mut data = Data::new();
    // nets: 1 data a, 2 enable a, 3 data b, 4 enable b, 5 shared output
    for i in 1..=5 {
        assert!(data.add_subnet(i));
    }
    let a = data
        .add_component(Component::TriBuffer, vec![Some(1), Some(2), Some(5)])
        .unwrap();
    let b = data
        .add_component(Component::TriBuffer, vec![Some(3), Some(4), Some(5)])
        .unwrap();
    assert!(a != b);

    data.update_silent(1, SubnetState::On);
    data.update_silent(3, SubnetState::Off);

    // only driver a enabled: the shared net follows its data input
    data.update_subnet(2, SubnetState::On);
    while !data.simulation.dirty_subnets.is_empty() {
        data.advance_time();
    }
    assert_eq!(data.subnet_state(5), Some(SubnetState::On));

    // both enabled and disagreeing: a live conflict
    data.update_subnet(4, SubnetState::On);
    while !data.simulation.dirty_subnets.is_empty() {
        data.advance_time();
    }
    assert_eq!(data.subnet_state(5), Some(SubnetState::Error));
}

#[test]
fn press_and_release_drive_the_net() {
    let mut data = Data::new();
    assert!(data.add_subnet(1));
    let button = add_component_of(&mut data, ComponentId::Button);
    assert!(data.link(button, 0, 1));
    // a fresh button drives low
    assert_eq!(data.subnet_state(1), Some(SubnetState::Off));

    assert_eq!(data.press_component(button), Some(SubnetState::On));
    assert_eq!(data.subnet_state(1), Some(SubnetState::On));

    assert_eq!(data.release_component(button), Some(SubnetState::Off));
    assert_eq!(data.subnet_state(1), Some(SubnetState::Off));

    // pressing something that is not a manual source reports a float
    let probe = add_component_of(&mut data, ComponentId::Probe);
    assert_eq!(data.press_component(probe), Some(SubnetState::Floating));
}

#[test]
fn clock_ticks_toggle_the_net() {
    let mut data = Data::new();
    assert!(data.add_subnet(1));
    let clock = add_component_of(&mut data, ComponentId::Clock);
    assert!(data.link(clock, 0, 1));
    // wiring the clock evaluates it once: it emits its first level
    assert_eq!(data.subnet_state(1), Some(SubnetState::Off));

    data.time_step();
    assert_eq!(data.subnet_state(1), Some(SubnetState::On));

    data.time_step();
    assert_eq!(data.subnet_state(1), Some(SubnetState::Off));
}

#[test]
fn d_flip_flop_latches_on_rising_edge() {
    let mut data = Data::new();
    // nets: 1 data, 2 clock, 3 q, 4 q-bar
    for i in 1..=4 {
        assert!(data.add_subnet(i));
    }
    let ff = data
        .add_component(
            Component::DFlipFlop { state: false },
            vec![Some(1), Some(2), None, Some(3), Some(4)],
        )
        .unwrap();
    assert!(ff > 0);

    data.update_silent(1, SubnetState::On);
    data.update_subnet(2, SubnetState::Off);
    while !data.simulation.dirty_subnets.is_empty() {
        data.advance_time();
    }

    // the rising clock edge latches the data input
    data.update_subnet(2, SubnetState::On);
    while !data.simulation.dirty_subnets.is_empty() {
        data.advance_time();
    }
    assert_eq!(data.subnet_state(3), Some(SubnetState::On));
    assert_eq!(data.subnet_state(4), Some(SubnetState::Off));

    // lowering the data line without a clock edge changes nothing
    data.update_silent(1, SubnetState::Off);
    data.update_subnet(2, SubnetState::Off);
    while !data.simulation.dirty_subnets.is_empty() {
        data.advance_time();
    }
    assert_eq!(data.subnet_state(3), Some(SubnetState::On));
    assert_eq!(data.subnet_state(4), Some(SubnetState::Off));
}

#[test]
fn wave_holds_a_subnet_once_and_remembers_the_first_old_value() {
    let mut data = Data::new();
    assert!(data.add_subnet(0));
    assert!(data.add_subnet(1));
    assert!(data
        .add_component(Component::Buffer, vec![Some(0), Some(1)])
        .is_ok());

    // two changes to one subnet while the wave is assembled: the wave keeps
    // the subnet once, and the recorded previous value is the one before
    // the latest change
    data.update_subnet(0, SubnetState::Off);
    data.update_subnet(0, SubnetState::On);
    assert_eq!(data.simulation.dirty_subnets, vec![vec![0]]);

    data.advance_time();
    assert_eq!(data.subnet_state(1), Some(SubnetState::On));
}

#[test]
fn half_adder_settles() {
    let mut data = Data::new();
    // nets: 1 and 2 the addends, 3 the sum, 4 the carry
    for i in 1..=4 {
        assert!(data.add_subnet(i));
    }
    assert!(data
        .add_component(Component::Xor, vec![Some(1), Some(2), Some(3)])
        .is_ok());
    assert!(data
        .add_component(Component::And, vec![Some(1), Some(2), Some(4)])
        .is_ok());

    data.update_subnet(1, SubnetState::On);
    data.update_subnet(2, SubnetState::Off);
    while !data.simulation.dirty_subnets.is_empty() {
        data.advance_time();
    }
    assert_eq!(data.subnet_state(3), Some(SubnetState::On));
    assert_eq!(data.subnet_state(4), Some(SubnetState::Off));

    data.update_subnet(2, SubnetState::On);
    while !data.simulation.dirty_subnets.is_empty() {
        data.advance_time();
    }
    assert_eq!(data.subnet_state(3), Some(SubnetState::Off));
    assert_eq!(data.subnet_state(4), Some(SubnetState::On));
}

#[test]
fn input_pin_drives_high() {
    let mut data = Data::new();
    assert!(data.add_subnet(1));
    let pin = add_component_of(&mut data, ComponentId::Input);
    assert!(data.link(pin, 0, 1));
    assert_eq!(data.subnet_state(1), Some(SubnetState::On));
}
