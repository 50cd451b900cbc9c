use mdnsd::filter::InterfaceFilter;
use mdnsd::monitor::{fqdn_name, Monitor, TickAction};
use mdnsd::snapshot::{collect_snapshot, snapshots_equal, IpAddress, RawInterface};

fn v4(a: u8, b: u8, c: u8, d: u8) -> IpAddress {
    IpAddress::V4(u32::from_be_bytes([a, b, c, d]))
}

fn raw(name: &str, ip: IpAddress, index: Option<u32>, loopback: bool) -> RawInterface {
    RawInterface { name: name.to_string(), ip, index, loopback }
}

fn first_listing() -> Vec<RawInterface> {
    vec![
        raw("eth0", v4(10, 0, 0, 5), Some(2), false),
        raw("lo", v4(127, 0, 0, 1), Some(1), true),
    ]
}

fn second_listing() -> Vec<RawInterface> {
    vec![
        raw("eth0", v4(10, 0, 0, 6), Some(2), false),
        raw("lo", v4(127, 0, 0, 1), Some(1), true),
    ]
}

fn only_eth0() -> InterfaceFilter {
    InterfaceFilter::from_values(&vec!["eth0".to_string()])
}

fn started(filter: InterfaceFilter, listing: &Vec<RawInterface>) -> Monitor {
    let snap = collect_snapshot(&filter, listing);
    Monitor::new(filter, snap)
}

#[test]
fn fqdn_appends_local() {
    assert_eq!(fqdn_name("host"), "host.local");
    assert_eq!(fqdn_name(""), ".local");
    assert_eq!(fqdn_name("local"), "local.local");
}

#[test]
fn fqdn_keeps_existing_suffix() {
    assert_eq!(fqdn_name("host.local"), "host.local");
    assert_eq!(fqdn_name(".local"), ".local");
}

#[test]
fn fqdn_suffix_check_is_case_sensitive() {
    assert_eq!(fqdn_name("host.LOCAL"), "host.LOCAL.local");
}

#[test]
fn equal_ticks_do_not_restart() {
    let mut m = started(InterfaceFilter::All, &first_listing());
    let mut permuted = first_listing();
    permuted.reverse();
    assert!(matches!(m.on_tick(Some(permuted)), TickAction::Keep));
    assert!(matches!(m.on_tick(Some(first_listing())), TickAction::Keep));
    assert!(m.live);
}

#[test]
fn failed_listing_keeps_held_snapshot() {
    let mut m = started(InterfaceFilter::All, &first_listing());
    let before = collect_snapshot(&InterfaceFilter::All, &first_listing());
    assert!(matches!(m.on_tick(None), TickAction::Keep));
    assert!(snapshots_equal(&m.held, &before));
    assert!(m.live);
}

#[test]
fn change_restarts_once_and_replaces_snapshot() {
    let mut m = started(only_eth0(), &first_listing());
    match m.on_tick(Some(second_listing())) {
        TickAction::Restart { stop_previous, addresses } => {
            assert!(stop_previous);
            assert_eq!(addresses, vec![v4(10, 0, 0, 6)]);
        }
        TickAction::Keep => panic!("expected a restart"),
    }
    assert!(!m.live);
    m.on_restart_result(true);
    assert!(m.live);
    let expected = collect_snapshot(&only_eth0(), &second_listing());
    assert!(snapshots_equal(&m.held, &expected));
    assert!(matches!(m.on_tick(Some(second_listing())), TickAction::Keep));
}

#[test]
fn restart_under_all_asks_for_no_restriction() {
    let mut m = started(InterfaceFilter::All, &first_listing());
    match m.on_tick(Some(second_listing())) {
        TickAction::Restart { stop_previous, addresses } => {
            assert!(stop_previous);
            assert!(addresses.is_empty());
        }
        TickAction::Keep => panic!("expected a restart"),
    }
}

#[test]
fn failed_restart_is_not_retried_on_same_snapshot() {
    let mut m = started(InterfaceFilter::All, &first_listing());
    assert!(matches!(m.on_tick(Some(second_listing())), TickAction::Restart { .. }));
    m.on_restart_result(false);
    assert!(!m.live);
    let expected = collect_snapshot(&InterfaceFilter::All, &second_listing());
    assert!(snapshots_equal(&m.held, &expected));
    assert!(matches!(m.on_tick(Some(second_listing())), TickAction::Keep));
    assert!(!m.live);
    match m.on_tick(Some(first_listing())) {
        TickAction::Restart { stop_previous, .. } => assert!(!stop_previous),
        TickAction::Keep => panic!("expected a restart"),
    }
}

#[test]
fn shutdown_stops_the_service_once() {
    let mut m = started(InterfaceFilter::All, &first_listing());
    assert!(m.on_shutdown());
    assert!(!m.on_shutdown());
    assert!(m.stopped);
    assert!(matches!(m.on_tick(Some(second_listing())), TickAction::Keep));
}

#[test]
fn shutdown_without_service_stops_nothing() {
    let mut m = started(InterfaceFilter::All, &first_listing());
    assert!(matches!(m.on_tick(Some(second_listing())), TickAction::Restart { .. }));
    m.on_restart_result(false);
    assert!(!m.on_shutdown());
}
