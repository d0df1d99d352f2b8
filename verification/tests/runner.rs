use bashprof::ps4::bootstrap;
use bashprof::runner::{command_args, end_record, has_end_record, probe_error, RunSpec};
use bashprof::trace::parse;

fn spec() -> RunSpec {
    RunSpec {
        shell: "bash".into(),
        script: "/tmp/x.sh".into(),
        args: vec!["--flag".into(), "value with space".into()],
        trace_path: "/tmp/x.trace".into(),
    }
}

#[test]
fn command_passes_script_as_dollar_zero_then_args() {
    let args = command_args(&spec());
    assert_eq!(args[0], "--norc");
    assert_eq!(args[1], "-c");
    assert_eq!(args[3], "/tmp/x.sh");
    assert_eq!(args[4], "--flag");
    assert_eq!(args[5], "value with space");
}

// ---------------------------------------------------------------------

#[test]
fn command_args_are_exact() {
    let mut s = spec();
    s.args.clear();
    assert_eq!(command_args(&s), vec!["--norc".to_string(), "-c".to_string(), bootstrap(), "/tmp/x.sh".to_string()]);
}

#[test]
fn probe_error_names_what_was_found() {
    assert_eq!(
        probe_error("/bin/sh", "  4.4.20(1)-release \n"),
        "'/bin/sh' does not provide EPOCHREALTIME (need bash >= 5.0, found: 4.4.20(1)-release)"
    );
    assert_eq!(
        probe_error("zsh", " \t\n"),
        "'zsh' does not provide EPOCHREALTIME (need bash >= 5.0, found: unknown)"
    );
    assert!(probe_error("dash", "not bash").contains("found: not bash"));
}

#[test]
fn end_record_is_detected_only_at_line_start() {
    assert!(has_end_record("\u{1f}START\u{1f}1.0\u{1f}x\n\u{1f}END\u{1f}2.0\u{1f}0\n"));
    assert!(has_end_record("\u{1f}ENDING"));
    assert!(has_end_record("a\r\n\u{1f}END\r\n"));
    assert!(!has_end_record(""));
    assert!(!has_end_record("x\u{1f}END\n"));
    assert!(!has_end_record("\u{1f}EN\nD\n"));
    assert!(!has_end_record("+\u{1f}1.0\u{1f}x.sh\u{1f}1\u{1f}\u{1f}\u{1f}echo END\n"));
}

#[test]
fn end_record_format_is_exact() {
    assert_eq!(end_record(1_752_000_042_000_007, 5), "\u{1f}END\u{1f}1752000042.000007\u{1f}5\n");
    assert_eq!(end_record(999_999, -1), "\u{1f}END\u{1f}0.999999\u{1f}-1\n");
    assert_eq!(end_record(0, i32::MIN), "\u{1f}END\u{1f}0.000000\u{1f}-2147483648\n");
}

#[test]
fn appended_end_record_is_read_back() {
    let base = "\u{1f}START\u{1f}10.0\u{1f}./job.sh\n+\u{1f}10.5\u{1f}./job.sh\u{1f}1\u{1f}\u{1f}\u{1f}true\n";
    assert!(!has_end_record(base));
    let full = format!("{base}{}", end_record(12_345_678, 7));
    assert!(has_end_record(&full));
    let before = parse(base);
    let after = parse(&full);
    assert_eq!(after.end_us, Some(12_345_678));
    assert_eq!(after.exit_code, Some(7));
    assert_eq!(after.events, before.events);
    assert_eq!(after.start_us, before.start_us);
    assert_eq!(after.skipped, before.skipped);
}
