use logik_simulation::subnet::{Subnet, SubnetState};

#[test]
fn test_working_out_subnet_diff() {
    let d1 = vec![SubnetState::Floating, SubnetState::On];
    assert_eq!(SubnetState::work_out_diff(&d1), SubnetState::On);

    let d2 = vec![SubnetState::Floating, SubnetState::Floating];
    assert_eq!(SubnetState::work_out_diff(&d2), SubnetState::Floating);

    let d3 = vec![SubnetState::On, SubnetState::Off, SubnetState::Floating];
    assert_eq!(SubnetState::work_out_diff(&d3), SubnetState::Error);

    let d4 = vec![SubnetState::On, SubnetState::On];
    assert_eq!(SubnetState::work_out_diff(&d4), SubnetState::On);

    let d5 = vec![SubnetState::Off, SubnetState::Off, SubnetState::Floating];
    assert_eq!(SubnetState::work_out_diff(&d5), SubnetState::Off);

    let d6 = vec![SubnetState::Off, SubnetState::On];
    assert_eq!(SubnetState::work_out_diff(&d6), SubnetState::Error);
}

#[test]
fn resolve_scenarios() {
    assert_eq!(
        SubnetState::work_out_diff(&vec![
            SubnetState::On,
            SubnetState::Off,
            SubnetState::Floating
        ]),
        SubnetState::Error
    );
    assert_eq!(
        SubnetState::work_out_diff(&vec![SubnetState::On, SubnetState::On]),
        SubnetState::On
    );
    assert_eq!(
        SubnetState::work_out_diff(&vec![SubnetState::Floating, SubnetState::Floating]),
        SubnetState::Floating
    );
}

#[test]
fn resolve_edge_cases() {
    // no proposals at all: the subnet floats
    assert_eq!(SubnetState::work_out_diff(&Vec::new()), SubnetState::Floating);
    // a proposed Error propagates as data
    assert_eq!(
        SubnetState::work_out_diff(&vec![SubnetState::Error]),
        SubnetState::Error
    );
    assert_eq!(
        SubnetState::work_out_diff(&vec![SubnetState::Error, SubnetState::On]),
        SubnetState::Error
    );
    // a single driver wins over any number of floats
    assert_eq!(
        SubnetState::work_out_diff(&vec![
            SubnetState::Floating,
            SubnetState::Off,
            SubnetState::Floating
        ]),
        SubnetState::Off
    );
}

#[test]
fn truthy_and_falsy() {
    assert!(SubnetState::On.truthy());
    assert!(!SubnetState::Off.truthy());
    assert!(!SubnetState::Floating.truthy());
    assert!(!SubnetState::Error.truthy());

    assert!(SubnetState::Off.falsy());
    assert!(SubnetState::Floating.falsy());
    assert!(!SubnetState::On.falsy());
    assert!(!SubnetState::Error.falsy());
}

#[test]
fn subnet_update_reports_change() {
    let mut s = Subnet::new();
    assert_eq!(s.val(), SubnetState::Floating);
    assert!(s.update(SubnetState::On));
    assert_eq!(s.val(), SubnetState::On);
    assert!(!s.update(SubnetState::On));
    assert!(s.update(SubnetState::Error));
    assert_eq!(s.val(), SubnetState::Error);
}
