use terragen::args::{parse_level, parse_u32, Args, ArgsError, LogLevel};

fn parse(words: &[&str]) -> Result<Args, ArgsError> {
    let mut argv: Vec<String> = vec!["terragen".to_string()];
    for w in words {
        argv.push(w.to_string());
    }
    Args::parse_(&argv)
}

#[test]
fn defaults_fill_absent_options() {
    let a = parse(&["--scene-spec", "scene.yaml"]).unwrap();
    assert_eq!(a.scene_spec_path, "scene.yaml");
    assert_eq!(a.log_level, LogLevel::Info);
    assert_eq!(a.width, 1920);
    assert_eq!(a.height, 1080);
    assert!(!a.debug_gpu);
}

#[test]
fn every_option_in_long_and_short_forms() {
    let a = parse(&["-s", "a.yaml", "-l", "debug", "-W", "640", "-H", "480", "--debug-gpu"]).unwrap();
    assert_eq!(a.scene_spec_path, "a.yaml");
    assert_eq!(a.log_level, LogLevel::Debug);
    assert_eq!((a.width, a.height), (640, 480));
    assert!(a.debug_gpu);

    let b = parse(&["--log-level=TRACE", "--width=1", "--height", "2", "--scene-spec=b.yaml"]).unwrap();
    assert_eq!(b.log_level, LogLevel::Trace);
    assert_eq!((b.width, b.height), (1, 2));
    assert_eq!(b.scene_spec_path, "b.yaml");
}

#[test]
fn attached_short_values() {
    let a = parse(&["-sscene.yaml", "-W=800", "-H600", "-lWarn"]).unwrap();
    assert_eq!(a.scene_spec_path, "scene.yaml");
    assert_eq!((a.width, a.height), (800, 600));
    assert_eq!(a.log_level, LogLevel::Warn);
}

#[test]
fn empty_and_dash_values_are_paths() {
    assert_eq!(parse(&["--scene-spec="]).unwrap().scene_spec_path, "");
    assert_eq!(parse(&["-s", "-"]).unwrap().scene_spec_path, "-");
    assert_eq!(parse(&["-s="]).unwrap().scene_spec_path, "");
}

#[test]
fn help_and_version() {
    assert_eq!(parse(&["--help"]).err(), Some(ArgsError::Help));
    assert_eq!(parse(&["-h"]).err(), Some(ArgsError::Help));
    assert_eq!(parse(&["-V"]).err(), Some(ArgsError::Version));
    assert_eq!(parse(&["--version", "--bogus"]).err(), Some(ArgsError::Version));
    assert_eq!(parse(&["--bogus", "--help"]).err(), Some(ArgsError::Usage));
    assert_eq!(parse(&["-s", "x", "-h"]).err(), Some(ArgsError::Help));
    assert_eq!(parse(&["--help=yes"]).err(), Some(ArgsError::Usage));
}

#[test]
fn grammar_errors() {
    assert_eq!(parse(&[]).err(), Some(ArgsError::Usage), "scene is required");
    assert_eq!(parse(&["-s"]).err(), Some(ArgsError::Usage), "value missing");
    assert_eq!(parse(&["-s", "a", "-s", "b"]).err(), Some(ArgsError::Usage), "repeated option");
    assert_eq!(parse(&["-s", "a", "--debug-gpu", "--debug-gpu"]).err(), Some(ArgsError::Usage));
    assert_eq!(parse(&["-s", "a", "--debug-gpu=true"]).err(), Some(ArgsError::Usage));
    assert_eq!(parse(&["-s", "a", "stray"]).err(), Some(ArgsError::Usage));
    assert_eq!(parse(&["-s", "a", "--"]).map(|a| a.scene_spec_path).ok(), Some("a".to_string()));
    assert_eq!(parse(&["-s", "a", "--", "x"]).err(), Some(ArgsError::Usage));
    assert_eq!(parse(&["-s", "--"]).err(), Some(ArgsError::Usage));
    assert_eq!(parse(&["-s", "a", "-W", "-5"]).err(), Some(ArgsError::Usage));
    assert_eq!(parse(&["-s", "a", "-W", "abc"]).err(), Some(ArgsError::Usage));
    assert_eq!(parse(&["-s", "a", "-l", "off"]).err(), Some(ArgsError::Usage));
    assert_eq!(parse(&["-s", "a", "-x"]).err(), Some(ArgsError::Usage));
    assert_eq!(parse(&["-s", "a", "--Width=3"]).err(), Some(ArgsError::Usage));
}

#[test]
fn program_name_is_skipped() {
    assert_eq!(Args::parse_(&vec![]).err(), Some(ArgsError::Usage));
    let a = Args::parse_(&vec!["-h".to_string(), "-s".to_string(), "x".to_string()]).unwrap();
    assert_eq!(a.scene_spec_path, "x");
}

#[test]
fn u32_values() {
    assert_eq!(parse_u32("0"), Some(0));
    assert_eq!(parse_u32("+17"), Some(17));
    assert_eq!(parse_u32("007"), Some(7));
    assert_eq!(parse_u32("-0"), Some(0));
    assert_eq!(parse_u32("-1"), None);
    assert_eq!(parse_u32("4294967295"), Some(u32::MAX));
    assert_eq!(parse_u32("4294967296"), None);
    assert_eq!(parse_u32("99999999999999999999999"), None);
    assert_eq!(parse_u32(""), None);
    assert_eq!(parse_u32("+"), None);
    assert_eq!(parse_u32("1_000"), None);
    assert_eq!(parse_u32(" 1"), None);
}

#[test]
fn level_names() {
    assert_eq!(parse_level("error"), Some(LogLevel::Error));
    assert_eq!(parse_level("WARN"), Some(LogLevel::Warn));
    assert_eq!(parse_level("Info"), Some(LogLevel::Info));
    assert_eq!(parse_level("dEbUg"), Some(LogLevel::Debug));
    assert_eq!(parse_level("trace"), Some(LogLevel::Trace));
    assert_eq!(parse_level("off"), None);
    assert_eq!(parse_level("information"), None);
    assert_eq!(parse_level(""), None);
}

#[test]
fn width_sign_attached() {
    let a = parse(&["-s", "a", "-W-0", "--height=+9"]).unwrap();
    assert_eq!((a.width, a.height), (0, 9));
}
