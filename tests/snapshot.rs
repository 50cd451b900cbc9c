use mdnsd::filter::InterfaceFilter;
use mdnsd::snapshot::{
    collect_missing_interfaces, collect_snapshot, selected_ips, snapshots_equal, InterfaceSnapshot,
    IpAddress, RawInterface,
};

fn v4(a: u8, b: u8, c: u8, d: u8) -> IpAddress {
    IpAddress::V4(u32::from_be_bytes([a, b, c, d]))
}

fn raw(name: &str, ip: IpAddress, index: Option<u32>, loopback: bool) -> RawInterface {
    RawInterface { name: name.to_string(), ip, index, loopback }
}

fn only(names: &[&str]) -> InterfaceFilter {
    let values: Vec<String> = names.iter().map(|s| s.to_string()).collect();
    InterfaceFilter::from_values(&values)
}

fn summary(s: &[InterfaceSnapshot]) -> Vec<(String, IpAddress, Option<u32>)> {
    s.iter().map(|e| (e.name.clone(), e.ip, e.index)).collect()
}

#[test]
fn loopback_is_excluded_and_all_restricts_nothing() {
    let listed = vec![
        raw("eth0", v4(10, 0, 0, 5), Some(2), false),
        raw("lo", v4(127, 0, 0, 1), Some(1), true),
    ];
    let filter = InterfaceFilter::All;
    let snap = collect_snapshot(&filter, &listed);
    assert_eq!(summary(&snap), vec![("eth0".to_string(), v4(10, 0, 0, 5), Some(2))]);
    assert!(selected_ips(&filter, &snap).is_empty());
}

#[test]
fn missing_requested_interface_is_reported() {
    let listed = vec![
        raw("eth0", v4(10, 0, 0, 5), Some(2), false),
        raw("lo", v4(127, 0, 0, 1), Some(1), true),
    ];
    let filter = only(&["wlan0"]);
    assert_eq!(collect_missing_interfaces(&filter, &listed), vec!["wlan0".to_string()]);
    let snap = collect_snapshot(&filter, &listed);
    assert!(snap.is_empty());
    assert!(selected_ips(&filter, &snap).is_empty());
}

#[test]
fn missing_keeps_filter_order_and_counts_loopback_as_present() {
    let listed = vec![raw("lo", v4(127, 0, 0, 1), Some(1), true)];
    let filter = only(&["wlan0", "lo", "eth0"]);
    assert_eq!(
        collect_missing_interfaces(&filter, &listed),
        vec!["eth0".to_string(), "wlan0".to_string()]
    );
}

#[test]
fn nothing_is_missing_under_all() {
    let filter = InterfaceFilter::All;
    assert!(collect_missing_interfaces(&filter, &vec![]).is_empty());
    let listed = vec![raw("eth0", v4(10, 0, 0, 5), None, false)];
    assert!(collect_missing_interfaces(&filter, &listed).is_empty());
}

#[test]
fn snapshot_is_sorted_and_deduplicated() {
    let listed = vec![
        raw("wlan0", v4(192, 168, 1, 9), Some(3), false),
        raw("eth0", IpAddress::V6(1), Some(2), false),
        raw("eth0", v4(10, 0, 0, 5), Some(2), false),
        raw("eth0", v4(10, 0, 0, 5), Some(2), false),
        raw("eth0", v4(10, 0, 0, 5), None, false),
    ];
    let snap = collect_snapshot(&InterfaceFilter::All, &listed);
    assert_eq!(
        summary(&snap),
        vec![
            ("eth0".to_string(), v4(10, 0, 0, 5), None),
            ("eth0".to_string(), v4(10, 0, 0, 5), Some(2)),
            ("eth0".to_string(), IpAddress::V6(1), Some(2)),
            ("wlan0".to_string(), v4(192, 168, 1, 9), Some(3)),
        ]
    );
}

#[test]
fn snapshot_applies_named_filter() {
    let listed = vec![
        raw("wlan0", v4(192, 168, 1, 9), Some(3), false),
        raw("eth0", v4(10, 0, 0, 5), Some(2), false),
    ];
    let snap = collect_snapshot(&only(&["wlan0"]), &listed);
    assert_eq!(summary(&snap), vec![("wlan0".to_string(), v4(192, 168, 1, 9), Some(3))]);
}

#[test]
fn snapshots_of_permuted_listings_are_equal() {
    let a = vec![
        raw("eth0", v4(10, 0, 0, 5), Some(2), false),
        raw("wlan0", v4(192, 168, 1, 9), Some(3), false),
        raw("lo", v4(127, 0, 0, 1), Some(1), true),
    ];
    let b = vec![
        raw("lo", v4(127, 0, 0, 1), Some(1), true),
        raw("wlan0", v4(192, 168, 1, 9), Some(3), false),
        raw("eth0", v4(10, 0, 0, 5), Some(2), false),
    ];
    let sa = collect_snapshot(&InterfaceFilter::All, &a);
    let sb = collect_snapshot(&InterfaceFilter::All, &b);
    assert!(snapshots_equal(&sa, &sb));
    assert!(snapshots_equal(&sb, &sa));
    assert!(snapshots_equal(&sa, &sa));
}

#[test]
fn different_snapshots_are_not_equal() {
    let a = vec![raw("eth0", v4(10, 0, 0, 5), Some(2), false)];
    let b = vec![raw("eth0", v4(10, 0, 0, 6), Some(2), false)];
    let sa = collect_snapshot(&InterfaceFilter::All, &a);
    let sb = collect_snapshot(&InterfaceFilter::All, &b);
    assert!(!snapshots_equal(&sa, &sb));
    assert!(!snapshots_equal(&sa, &vec![]));
}

#[test]
fn all_selects_no_addresses_even_with_entries() {
    let listed = vec![
        raw("eth0", v4(10, 0, 0, 5), Some(2), false),
        raw("wlan0", v4(192, 168, 1, 9), Some(3), false),
    ];
    let snap = collect_snapshot(&InterfaceFilter::All, &listed);
    assert_eq!(snap.len(), 2);
    assert!(selected_ips(&InterfaceFilter::All, &snap).is_empty());
}

#[test]
fn named_subset_selects_sorted_distinct_addresses() {
    let listed = vec![
        raw("wlan0", IpAddress::V6(7), Some(3), false),
        raw("wlan0", v4(192, 168, 1, 9), Some(3), false),
        raw("eth0", v4(192, 168, 1, 9), Some(2), false),
        raw("eth0", v4(10, 0, 0, 5), Some(2), false),
    ];
    let filter = only(&["eth0", "wlan0"]);
    let snap = collect_snapshot(&filter, &listed);
    assert_eq!(
        selected_ips(&filter, &snap),
        vec![v4(10, 0, 0, 5), v4(192, 168, 1, 9), IpAddress::V6(7)]
    );
}
