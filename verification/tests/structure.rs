use logik_simulation::component::{Component, ComponentId};
use logik_simulation::data::Data;
use logik_simulation::edge::{Edge, EdgeDirection};

/// Builds a fresh component of the given catalog kind with all ports
/// unwired, registering clocks, as a host would.
fn add_component_of(data: &mut Data, kind: ComponentId) -> i32 {
    let comp = Component::from_id(kind);
    let p = comp.ports();
    let res = data.add_component(comp, vec![None; p]).unwrap();
    if kind == ComponentId::Clock {
        data.clock(res);
    }
    res
}

fn has_edge(data: &Data, subnet: i32, component: i32, port: usize, direction: EdgeDirection) -> bool {
    data.edges
        .contains(&Edge::new(subnet, component, port, direction))
}

#[test]
fn test_adding_components() {
    let mut data = Data::new();

    assert!(data.add_subnet(0));

    assert!(data
        .add_component(Component::OutputGate, vec![Some(0)])
        .is_ok());

    assert!(data.add_subnet(1));
    assert!(data.add_subnet(5));

    assert!(data
        .add_component(Component::And, vec![Some(1), Some(5), Some(0)])
        .is_ok());

    assert!(data
        .add_component(Component::OutputGate, vec![Some(0)])
        .is_ok());

    assert_eq!(data.edges.len(), 5);
    assert!(has_edge(&data, 0, 1, 0, EdgeDirection::ToComponent));
    assert!(has_edge(&data, 1, 2, 0, EdgeDirection::ToComponent));
    assert!(has_edge(&data, 5, 2, 1, EdgeDirection::ToComponent));
    assert!(has_edge(&data, 0, 2, 2, EdgeDirection::ToSubnet));
    assert!(has_edge(&data, 0, 3, 0, EdgeDirection::ToComponent));

    assert!(data.add_component(Component::And, vec![]).is_err());
}

#[test]
fn test_removing_subnets() {
    let mut data = Data::new();

    assert!(data.add_subnet(0));
    assert!(data.add_subnet(1));

    assert_eq!(data.edges.len(), 0);

    assert!(data
        .add_component(Component::OutputGate, vec![Some(0)])
        .is_ok());

    assert_eq!(data.edges.len(), 1);
    assert!(has_edge(&data, 0, 1, 0, EdgeDirection::ToComponent));

    assert!(data.remove_subnet(0));

    assert_eq!(data.edges.len(), 0);

    assert!(data.remove_subnet(1));

    assert_eq!(data.edges.len(), 0);

    assert!(!data.remove_subnet(0));
    assert!(!data.remove_subnet(3));
}

#[test]
fn test_unlinking_unlinked() {
    let mut data = Data::new();

    assert!(data.add_subnet(0));
    let comp = add_component_of(&mut data, ComponentId::Buffer);

    assert!(!data.unlink(comp, 0, 0));
}

#[test]
fn test_removing_all_links() {
    let mut data = Data::new();

    assert!(data.add_subnet(1));
    assert!(data.add_subnet(2));
    assert!(data.add_subnet(3));

    let id = add_component_of(&mut data, ComponentId::And);

    assert!(data.link(id, 0, 1));
    assert!(data.link(id, 1, 2));
    assert!(data.link(id, 2, 3));

    assert!(data.unlink(id, 0, 1));
    assert!(data.unlink(id, 1, 2));
    assert!(data.unlink(id, 2, 3));
}

#[test]
fn test_relinking() {
    let mut data = Data::new();

    assert!(data.add_subnet(1));
    assert!(data.add_subnet(2));

    let constant = add_component_of(&mut data, ComponentId::Constant);

    assert!(data.link(constant, 0, 1));
    assert!(data.link(constant, 0, 2));
}

#[test]
fn one_net_per_port_keeps_most_recent() {
    let mut data = Data::new();
    assert!(data.add_subnet(1));
    assert!(data.add_subnet(2));
    assert!(data.add_subnet(3));

    let buffer = add_component_of(&mut data, ComponentId::Buffer);

    // relink the same input port three times: only the last edge survives
    assert!(data.link(buffer, 0, 1));
    assert!(data.link(buffer, 0, 2));
    assert!(data.link(buffer, 0, 3));

    let on_port: Vec<&Edge> = data
        .edges
        .iter()
        .filter(|e| e.component == buffer && e.port == 0)
        .collect();
    assert_eq!(on_port.len(), 1);
    assert_eq!(on_port[0].subnet, 3);
}

#[test]
fn add_component_rejects_wrong_port_count() {
    let mut data = Data::new();
    assert!(data.add_subnet(0));
    assert!(data.add_component(Component::Not, vec![Some(0)]).is_err());
    assert!(data
        .add_component(Component::Not, vec![Some(0), None, None])
        .is_err());
    assert!(data.add_component(Component::Not, vec![Some(0), None]).is_ok());
}

#[test]
fn component_ids_recycle_smallest_first() {
    let mut data = Data::new();
    let a = add_component_of(&mut data, ComponentId::Buffer);
    let b = add_component_of(&mut data, ComponentId::Buffer);
    let c = add_component_of(&mut data, ComponentId::Buffer);
    assert_eq!((a, b, c), (1, 2, 3));

    assert!(data.remove_component(b));
    assert!(data.remove_component(a));
    assert!(!data.remove_component(a));

    // the smallest freed id comes back first, then the next, then a new one
    assert_eq!(add_component_of(&mut data, ComponentId::Buffer), 1);
    assert_eq!(add_component_of(&mut data, ComponentId::Buffer), 2);
    assert_eq!(add_component_of(&mut data, ComponentId::Buffer), 4);
}

#[test]
fn removing_component_severs_its_edges() {
    let mut data = Data::new();
    assert!(data.add_subnet(1));
    assert!(data.add_subnet(2));
    let not = data
        .add_component(Component::Not, vec![Some(1), Some(2)])
        .unwrap();
    assert_eq!(data.edges.len(), 2);
    assert!(data.remove_component(not));
    assert_eq!(data.edges.len(), 0);
}

#[test]
fn queries_on_unknown_ids() {
    let mut data = Data::new();
    assert_eq!(data.subnet_state(7), None);
    assert_eq!(data.port_state(1, 0), None);
    assert!(!data.link(1, 0, 7));
    assert!(!data.unlink(1, 0, 7));
    assert!(data.press_component(3).is_none());
    assert!(data.release_component(3).is_none());

    assert!(data.add_subnet(7));
    let probe = add_component_of(&mut data, ComponentId::Probe);
    // a port beyond the component's last is rejected
    assert!(!data.link(probe, 1, 7));
    // an unwired port reads as absent
    assert_eq!(data.port_state(probe, 0), None);
}

#[test]
fn edge_helpers() {
    let e = Edge::new(3, 1, 0, EdgeDirection::ToComponent);
    let f = Edge::new(3, 1, 0, EdgeDirection::ToSubnet);
    let g = Edge::new(4, 1, 0, EdgeDirection::ToComponent);
    assert!(e.same_nodes(&f));
    assert!(!e.same_nodes(&g));
    // merging the same direction keeps the edge; a second direction widens it
    assert_eq!(e.add_direction(EdgeDirection::ToComponent), e);
    assert_eq!(
        e.add_direction(EdgeDirection::ToSubnet).direction,
        EdgeDirection::Bidirectional
    );
}

#[test]
fn add_subnet_on_taken_id_changes_nothing() {
    let mut data = Data::new();
    assert!(data.add_subnet(5));
    data.update_silent(5, logik_simulation::subnet::SubnetState::On);

    // adding under a taken id fails all-or-nothing: the net keeps its value
    assert!(!data.add_subnet(5));
    assert_eq!(
        data.subnet_state(5),
        Some(logik_simulation::subnet::SubnetState::On)
    );
}

#[test]
fn add_component_rejects_unknown_subnet() {
    let mut data = Data::new();
    assert!(data.add_subnet(1));
    // port 1 names a subnet that does not exist: rejected, nothing changes
    assert!(data
        .add_component(Component::Not, vec![Some(1), Some(9)])
        .is_err());
    assert_eq!(data.edges.len(), 0);
    assert!(data.add_component(Component::Not, vec![Some(1), None]).is_ok());
}
