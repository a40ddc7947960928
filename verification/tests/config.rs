use kitcat::runtimeconfig::{
    add_trailing_slash, parse_u8, process_args, process_token, read_buffer, setup_default_config,
    target_name, ConfigError,
};

fn args(list: &[&str]) -> Vec<String> {
    list.iter().map(|s| s.to_string()).collect()
}

#[test]
fn defaults_are_inert() {
    let c = setup_default_config();
    assert!(!c.help && !c.dry && !c.verbose && !c.soft && !c.copy);
    assert_eq!(c.trunc, 0);
    assert_eq!(c.kits.len(), 0);
    assert_eq!(c.rules, "");
    assert_eq!(c.output_path, "*_remapped");
}

#[test]
fn parse_u8_accepts_bytes_only() {
    assert_eq!(parse_u8("0"), Some(0));
    assert_eq!(parse_u8("42"), Some(42));
    assert_eq!(parse_u8("+42"), Some(42));
    assert_eq!(parse_u8("255"), Some(255));
    assert_eq!(parse_u8("256"), None);
    assert_eq!(parse_u8(""), None);
    assert_eq!(parse_u8("+"), None);
    assert_eq!(parse_u8("4a"), None);
    assert_eq!(parse_u8("-1"), None);
    assert_eq!(parse_u8("007"), Some(7));
}

#[test]
fn trailing_slash_added_once() {
    assert_eq!(add_trailing_slash("/a/b"), "/a/b/");
    assert_eq!(add_trailing_slash("/a/b/"), "/a/b/");
    assert_eq!(add_trailing_slash("c:\\x\\"), "c:\\x\\");
}

#[test]
fn target_name_replaces_star_with_base_name() {
    assert_eq!(
        target_name(&"*_remapped".to_string(), "/home/me/samples/"),
        "samples_remapped"
    );
    assert_eq!(
        target_name(&"/out/fixed".to_string(), "/home/me/samples"),
        "/out/fixed"
    );
    assert_eq!(
        target_name(&"*_*".to_string(), "kits"),
        "kits_kits"
    );
}

#[test]
fn read_buffer_demands_enough_values() {
    let buf = args(&["one", "two"]);
    let got = read_buffer("k", &buf, 1).unwrap();
    assert_eq!(got, buf);
    assert_eq!(
        read_buffer("k", &args(&[]), 1),
        Err(ConfigError::MissingParameterValue)
    );
}

#[test]
fn tokens_set_their_fields() {
    let mut c = setup_default_config();
    process_token("v", &mut c, &args(&[])).unwrap();
    process_token("t", &mut c, &args(&["9"])).unwrap();
    process_token("k", &mut c, &args(&["A1", "B2"])).unwrap();
    process_token("r", &mut c, &args(&["rules.ini"])).unwrap();
    assert!(c.verbose);
    assert_eq!(c.trunc, 9);
    assert_eq!(c.kits, args(&["A1", "B2"]));
    assert_eq!(c.rules, "rules.ini");
    // an unknown token changes nothing
    let before_trunc = c.trunc;
    process_token("z", &mut c, &args(&["x"])).unwrap();
    assert_eq!(c.trunc, before_trunc);
}

#[test]
fn token_errors_surface() {
    let mut c = setup_default_config();
    assert_eq!(
        process_token("t", &mut c, &args(&[])),
        Err(ConfigError::MissingParameterValue)
    );
    assert_eq!(
        process_token("t", &mut c, &args(&["999"])),
        Err(ConfigError::BadNumber)
    );
}

#[test]
fn argument_scan_builds_configuration() {
    let c = process_args(args(&[
        "kitcat", "-d", "-t", "3", "-k", "A1", "B2", "-i", "/tmp/x", "-o", "out",
    ]))
    .unwrap();
    assert_eq!(c.me, "kitcat");
    assert!(c.dry);
    assert_eq!(c.trunc, 3);
    assert_eq!(c.kits, args(&["A1", "B2"]));
    assert_eq!(c.input_path, "/tmp/x");
    assert_eq!(c.output_path, "out");
}

#[test]
fn argument_scan_reports_bad_values() {
    match process_args(args(&["kitcat", "-t"])) {
        Err(e) => assert_eq!(e, ConfigError::MissingParameterValue),
        Ok(_) => panic!("a value-less -t must be rejected"),
    }
    match process_args(args(&["kitcat", "-t", "banana"])) {
        Err(e) => assert_eq!(e, ConfigError::BadNumber),
        Ok(_) => panic!("a non-numeric -t must be rejected"),
    }
}

#[test]
fn bare_dash_flushes_but_keeps_collecting() {
    // the pending token is applied when `-` is seen; a bare `-` starts no new one
    let c = process_args(args(&["kitcat", "-d", "-", "-v"])).unwrap();
    assert!(c.dry);
    assert!(c.verbose);
}
