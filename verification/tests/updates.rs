use vectors::update_cli::{invoke, parse, Options};

fn args(values: &[&str]) -> Vec<String> {
    values.iter().map(|value| (*value).into()).collect()
}

#[test]
fn update_options_preserve_paths_without_shell_interpolation() {
    let options = parse(&args(&[
        "--watch",
        "--interval",
        "3600",
        "--install-dir",
        "a path/$(literal)",
        "--no-start",
    ]))
    .unwrap()
    .unwrap();
    assert!(options.watch && options.no_start);
    assert_eq!(options.interval, Some(3600));
    assert_eq!(options.install_dir, Some("a path/$(literal)".to_string()));
    assert_eq!(
        invoke(&options),
        args(&["-s", "--", "--watch", "--no-start", "--interval", "3600", "--install-dir", "a path/$(literal)"])
    );
}

#[test]
fn invalid_update_options_are_rejected_before_starting_a_process() {
    for values in [
        vec!["--check", "--watch"],
        vec!["--interval"],
        vec!["--interval", "59"],
        vec!["--interval", "604801"],
        vec!["--interval", "NaN"],
        vec!["--install-dir"],
        vec!["--unknown"],
    ] {
        assert!(parse(&args(&values)).is_err(), "{values:?}");
    }
    assert_eq!(parse(&args(&["--help"])).unwrap(), None);
}

#[test]
fn refused_options_state_their_reason() {
    let reason = |values: &[&str]| parse(&args(values)).unwrap_err().message;
    assert_eq!(reason(&["--interval"]), "--interval needs seconds");
    assert_eq!(reason(&["--interval", "-60"]), "--interval must be an integer from 60 to 604800");
    assert_eq!(reason(&["--install-dir", ""]), "--install-dir needs a path");
    assert_eq!(reason(&["--watch", "--check"]), "--check and --watch cannot be combined");
    assert_eq!(reason(&["now"]), "unknown update option; run 'vectors update --help'");
}

#[test]
fn bounds_of_the_interval_are_taken() {
    assert_eq!(parse(&args(&["--interval", "60"])).unwrap().unwrap().interval, Some(60));
    assert_eq!(parse(&args(&["--interval", "+604800"])).unwrap().unwrap().interval, Some(604800));
    assert_eq!(parse(&args(&[])).unwrap().unwrap(), Options::default());
    assert_eq!(parse(&args(&["-h", "--unknown"])).unwrap(), None);
    assert_eq!(invoke(&Options::default()), args(&["-s", "--"]));
    assert_eq!(invoke(&Options { check: true, ..Options::default() }), args(&["-s", "--", "--check"]));
}
