use tpmt::cli::parse_build_options;

fn args(values: &[&str]) -> Vec<String> {
    values.iter().map(|s| s.to_string()).collect()
}

// Verifies the build parser accepts the documented positional arguments.
#[test]
fn parse_build_options_accepts_required_arguments() {
    assert!(parse_build_options(&args(&["iso.iso", "mod_dir"])).is_some());
}

// Verifies optional output and ISO output flags are captured in order.
#[test]
fn parse_build_options_parses_optional_outputs() {
    let binding = args(&["iso.iso", "mod_dir", "out", "--iso-output", "patched.iso"]);
    let parsed = parse_build_options(&binding).map(|o| (o.output_dir, o.iso_output));
    assert_eq!(parsed, Some((Some("out"), Some("patched.iso"))));
}

// Verifies help flags short-circuit the build parser instead of treating them as paths.
#[test]
fn parse_build_options_rejects_help_flag() {
    assert!(parse_build_options(&args(&["iso.iso", "mod_dir", "--help"])).is_none());
}

// Verifies missing required arguments return no build configuration.
#[test]
fn parse_build_options_rejects_missing_paths() {
    assert!(parse_build_options(&args(&["iso.iso"])).is_none());
}

#[test]
fn parse_build_options_keeps_required_paths() {
    let binding = args(&["game.iso", "mods"]);
    let parsed = parse_build_options(&binding).unwrap();
    assert_eq!(parsed.iso_path, "game.iso");
    assert_eq!(parsed.mod_dir, "mods");
    assert_eq!(parsed.output_dir, None);
    assert_eq!(parsed.iso_output, None);
}

#[test]
fn parse_build_options_takes_second_positional_as_iso_output() {
    let binding = args(&["game.iso", "mods", "out", "patched.iso"]);
    let parsed = parse_build_options(&binding).unwrap();
    assert_eq!(parsed.output_dir, Some("out"));
    assert_eq!(parsed.iso_output, Some("patched.iso"));
}

#[test]
fn parse_build_options_rejects_a_third_positional() {
    assert!(parse_build_options(&args(&["game.iso", "mods", "a", "b", "c"])).is_none());
}

#[test]
fn parse_build_options_rejects_dangling_iso_output_flag() {
    assert!(parse_build_options(&args(&["game.iso", "mods", "--iso-output"])).is_none());
}

#[test]
fn parse_build_options_rejects_short_help_flag() {
    assert!(parse_build_options(&args(&["game.iso", "mods", "-h"])).is_none());
}
