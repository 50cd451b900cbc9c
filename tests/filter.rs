use mdnsd::filter::InterfaceFilter;

fn values(items: &[&str]) -> Vec<String> {
    items.iter().map(|s| s.to_string()).collect()
}

fn only_names(f: &InterfaceFilter) -> Vec<String> {
    match f {
        InterfaceFilter::All => panic!("expected a named subset"),
        InterfaceFilter::Only(names) => names.clone(),
    }
}

#[test]
fn wildcard_anywhere_selects_all() {
    let f = InterfaceFilter::from_values(&values(&["eth0", "wlan0, *"]));
    assert!(matches!(f, InterfaceFilter::All));
    assert!(f.matches("anything"));
    let f = InterfaceFilter::from_values(&values(&[" * "]));
    assert!(matches!(f, InterfaceFilter::All));
}

#[test]
fn empty_values_select_all() {
    let f = InterfaceFilter::from_values(&values(&[]));
    assert!(matches!(f, InterfaceFilter::All));
    assert!(f.matches("eth0"));
}

#[test]
fn blank_values_select_all() {
    let f = InterfaceFilter::from_values(&values(&["", " , ", ",,", "\t"]));
    assert!(matches!(f, InterfaceFilter::All));
}

#[test]
fn named_subset_matches_exactly_listed_names() {
    let f = InterfaceFilter::from_values(&values(&[" eth0 , wlan0", "eth0"]));
    assert!(f.matches("eth0"));
    assert!(f.matches("wlan0"));
    assert!(!f.matches("ETH0"));
    assert!(!f.matches("eth1"));
    assert!(!f.matches(" eth0"));
    assert!(!f.matches(""));
}

#[test]
fn named_subset_is_sorted_and_deduplicated() {
    let f = InterfaceFilter::from_values(&values(&["wlan0,eth0", " eth0", "br0,,"]));
    assert_eq!(only_names(&f), values(&["br0", "eth0", "wlan0"]));
}

#[test]
fn trims_tabs_and_newlines() {
    let f = InterfaceFilter::from_values(&values(&["\teth0\n"]));
    assert_eq!(only_names(&f), values(&["eth0"]));
}

#[test]
fn log_value_of_all_is_star() {
    let f = InterfaceFilter::from_values(&values(&["*"]));
    assert_eq!(f.as_log_value(), "*");
}

#[test]
fn log_value_joins_sorted_names() {
    let f = InterfaceFilter::from_values(&values(&["wlan0", "eth0"]));
    assert_eq!(f.as_log_value(), "eth0,wlan0");
    let f = InterfaceFilter::from_values(&values(&["eth0"]));
    assert_eq!(f.as_log_value(), "eth0");
}
