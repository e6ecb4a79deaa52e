use fan::cli::{devices, parse, resolve, select_command, Command, Spec, USAGE};
use fan::{DeviceInfo, DeviceKind};

fn args(raw: &[&str]) -> Vec<String> {
    raw.iter().map(|s| s.to_string()).collect()
}

fn device(id: &str, name: &str) -> DeviceInfo {
    DeviceInfo {
        id: id.into(),
        name: name.into(),
        is_default: false,
        kind: DeviceKind::Other,
    }
}

#[test]
fn offset_binds_to_preceding_to() {
    let spec = parse(&args(&[
        "--to",
        "a",
        "--to",
        "b",
        "--offset-ms",
        "-85",
        "--source",
        "s",
    ]))
    .unwrap();
    assert_eq!(
        spec,
        Spec {
            outputs: vec![("a".into(), 0), ("b".into(), -85)],
            source: Some("s".into())
        }
    );
}

#[test]
fn rejects_bad_flags_and_empty_runs() {
    assert!(parse(&args(&["--to"])).is_err());
    assert!(parse(&args(&["--nope", "x"])).is_err());
    assert!(parse(&args(&["--to", "a", "--offset-ms", "x"])).is_err());
    assert!(parse(&args(&["--offset-ms", "10"])).is_err());
    assert!(parse(&args(&[])).is_err());
}

#[test]
fn exact_id_beats_name_substring() {
    let devices = vec![
        device("{0.0.0}.speakers", "Speakers"),
        device("headset", "Headset (USB)"),
    ];
    assert_eq!(resolve(&devices, "headset").unwrap(), "headset");
    assert_eq!(resolve(&devices, "SPEAK").unwrap(), "{0.0.0}.speakers");
    assert!(resolve(&devices, "nope").is_err());
    assert!(resolve(
        &[device("1", "Speakers A"), device("2", "Speakers B")],
        "speakers"
    )
    .is_err());
}

#[test]
fn parse_error_messages_name_the_problem() {
    assert_eq!(parse(&args(&["--to"])).unwrap_err(), "--to needs a value");
    assert_eq!(
        parse(&args(&["--nope", "x"])).unwrap_err(),
        format!("unknown flag \"--nope\"\n\n{USAGE}")
    );
    assert_eq!(
        parse(&args(&["--to", "a", "--offset-ms", "x"])).unwrap_err(),
        "--offset-ms wants an integer, got \"x\""
    );
    assert_eq!(
        parse(&args(&["--offset-ms", "10"])).unwrap_err(),
        "--offset-ms must follow a --to"
    );
    assert_eq!(
        parse(&args(&[])).unwrap_err(),
        format!("run needs at least one --to\n\n{USAGE}")
    );
}

#[test]
fn later_flags_override_and_offsets_stay_with_their_output() {
    let spec = parse(&args(&[
        "--to", "a", "--offset-ms", "5", "--offset-ms", "+7", "--source", "x", "--source", "y",
        "--to", "b",
    ]))
    .unwrap();
    assert_eq!(
        spec,
        Spec {
            outputs: vec![("a".into(), 7), ("b".into(), 0)],
            source: Some("y".into())
        }
    );
}

#[test]
fn offsets_stay_within_the_documented_range() {
    let spec = parse(&args(&["--to", "a", "--offset-ms", "-200", "--to", "b", "--offset-ms", "200"])).unwrap();
    assert_eq!(spec.outputs, vec![("a".to_string(), -200), ("b".to_string(), 200)]);
    assert_eq!(
        parse(&args(&["--to", "a", "--offset-ms", "500"])).unwrap_err(),
        "--offset-ms must lie in -200..=200, got \"500\""
    );
    assert!(parse(&args(&["--to", "a", "--offset-ms", "-201"])).is_err());
    assert!(parse(&args(&["--to", "a", "--offset-ms", "-2147483648"])).is_err());
    assert!(parse(&args(&["--to", "a", "--offset-ms", "2147483648"])).is_err());
    assert!(parse(&args(&["--to", "a", "--offset-ms", "-"])).is_err());
    assert!(parse(&args(&["--to", "a", "--offset-ms", " 1"])).is_err());
}

#[test]
fn resolve_reports_ambiguity_and_misses() {
    let devices = vec![device("1", "Speakers A"), device("2", "Speakers B"), device("3", "HDMI")];
    assert_eq!(
        resolve(&devices, "speakers").unwrap_err(),
        "\"speakers\" matches Speakers A, Speakers B"
    );
    assert_eq!(resolve(&devices, "nope").unwrap_err(), "no device matches \"nope\"");
    assert_eq!(resolve(&devices, "hdmi").unwrap(), "3");
    assert_eq!(resolve(&devices, "2").unwrap(), "2");
    assert!(resolve(&[], "x").is_err());
}

#[test]
fn commands_are_picked_from_the_first_argument() {
    assert_eq!(select_command(&args(&[])).unwrap(), Command::Help);
    assert_eq!(select_command(&args(&["-h"])).unwrap(), Command::Help);
    assert_eq!(select_command(&args(&["--help"])).unwrap(), Command::Help);
    assert_eq!(select_command(&args(&["list"])).unwrap(), Command::List);
    assert_eq!(select_command(&args(&["run", "--to", "a"])).unwrap(), Command::Run);
    assert_eq!(
        select_command(&args(&["play"])).unwrap_err(),
        format!("unknown command \"play\"\n\n{USAGE}")
    );
}

#[test]
fn devices_are_unavailable_without_wasapi() {
    assert_eq!(
        devices().unwrap_err(),
        "unsupported platform: FAN requires Windows"
    );
}
