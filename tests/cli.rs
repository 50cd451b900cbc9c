use mdnsd::cli::{parse_args, ArgsError, CliOptions, Command};

fn args(items: &[&str]) -> Vec<String> {
    items.iter().map(|s| s.to_string()).collect()
}

fn run(items: &[&str]) -> CliOptions {
    match parse_args(&args(items)) {
        Ok(Command::Run(o)) => o,
        Ok(Command::Help) => panic!("expected options, got help"),
        Err(_) => panic!("expected options, got an error"),
    }
}

fn error(items: &[&str]) -> ArgsError {
    match parse_args(&args(items)) {
        Err(e) => e,
        Ok(_) => panic!("expected an error"),
    }
}

#[test]
fn positional_name_defaults_to_every_interface() {
    let o = run(&["mdnsd", "printer"]);
    assert_eq!(o.name, "printer");
    assert_eq!(o.interfaces, args(&["*"]));
}

#[test]
fn name_and_interface_options() {
    let o = run(&["mdnsd", "-n", " box ", "-i", "eth0", "--interface", "wlan0,br0"]);
    assert_eq!(o.name, "box");
    assert_eq!(o.interfaces, args(&["eth0", "wlan0,br0"]));
    let o = run(&["mdnsd", "--name", "box"]);
    assert_eq!(o.name, "box");
}

#[test]
fn assignment_forms_are_trimmed() {
    let o = run(&["mdnsd", "--name= box ", "--interface= eth0 "]);
    assert_eq!(o.name, "box");
    assert_eq!(o.interfaces, args(&["eth0"]));
    let o = run(&["mdnsd", "--name=--name=box"]);
    assert_eq!(o.name, "box");
}

#[test]
fn help_wins_wherever_it_stands() {
    assert!(matches!(parse_args(&args(&["mdnsd", "x", "-h"])), Ok(Command::Help)));
    assert!(matches!(parse_args(&args(&["mdnsd", "--help"])), Ok(Command::Help)));
}

#[test]
fn option_without_value_is_refused() {
    assert!(matches!(error(&["mdnsd", "-n"]), ArgsError::MissingNameValue));
    assert!(matches!(error(&["mdnsd", "x", "--interface"]), ArgsError::MissingInterfaceValue));
    assert!(matches!(error(&["mdnsd", "--name=  "]), ArgsError::EmptyNameValue));
    assert!(matches!(error(&["mdnsd", "x", "--interface="]), ArgsError::EmptyInterfaceValue));
}

#[test]
fn unknown_option_is_refused() {
    match error(&["mdnsd", "x", "--verbose"]) {
        ArgsError::UnknownOption(a) => assert_eq!(a, "--verbose"),
        _ => panic!("expected an unknown option"),
    }
}

#[test]
fn positional_arguments_are_checked() {
    match error(&["mdnsd", "a", "b"]) {
        ArgsError::TooManyPositional(p) => assert_eq!(p, args(&["a", "b"])),
        _ => panic!("expected too many positional arguments"),
    }
    match error(&["mdnsd", "-n", "x", "b"]) {
        ArgsError::UnexpectedPositional(p) => assert_eq!(p, args(&["b"])),
        _ => panic!("expected unexpected positional arguments"),
    }
}

#[test]
fn name_is_required_and_not_blank() {
    assert!(matches!(error(&["mdnsd"]), ArgsError::MissingName));
    assert!(matches!(error(&[]), ArgsError::MissingName));
    assert!(matches!(error(&["mdnsd", "-n", "   "]), ArgsError::EmptyName));
}
