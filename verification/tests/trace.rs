use bashprof::ps4::FIELD_SEP;
use bashprof::trace::{parse, parse_epochrealtime};

const US: char = FIELD_SEP;

/// Build one well-formed trace line the way bash and the PS4 would.
fn line(plus: usize, ts: &str, src: &str, ln: u32, func: &str, fd: u32, cmd: &str) -> String {
    format!(
        "{}{US}{ts}{US}{src}{US}{ln}{US}{func}{US}{fd}{US}{cmd}",
        "+".repeat(plus)
    )
}

#[test]
fn epochrealtime_parses_both_locale_radixes_and_normalizes_fractions() {
    assert_eq!(parse_epochrealtime("1752.000042"), Some(1_752_000_042));
    assert_eq!(parse_epochrealtime("1752,000042"), Some(1_752_000_042));
    assert_eq!(parse_epochrealtime("1.5"), Some(1_500_000));
    assert_eq!(parse_epochrealtime("1.1234567"), Some(1_123_456));
}

#[test]
fn epochrealtime_rejects_garbage() {
    assert_eq!(parse_epochrealtime("abc"), None);
    assert_eq!(parse_epochrealtime("1.2x"), None);
    assert_eq!(parse_epochrealtime(""), None);
}

#[test]
fn parses_a_minimal_event() {
    let t = parse(&line(1, "10.000001", "./x.sh", 3, "", 1, "echo hi"));
    assert_eq!(t.events.len(), 1);
    let ev = &t.events[0];
    assert_eq!(ev.subshell, 1);
    assert_eq!(ev.ts_us, 10_000_001);
    assert_eq!(ev.source, "./x.sh");
    assert_eq!(ev.line, 3);
    assert_eq!(ev.func, "");
    assert_eq!(ev.func_depth, 1);
    assert_eq!(ev.command, "echo hi");
}

#[test]
fn empty_depth_field_means_top_level_code() {
    let input = format!("+{US}10.0{US}x.sh{US}1{US}{US}{US}echo hi");
    let t = parse(&input);
    assert_eq!(t.events.len(), 1);
    assert_eq!(t.events[0].func_depth, 0);
    assert_eq!(t.events[0].func, "");
}

#[test]
fn leading_plus_count_is_the_subshell_depth() {
    let t = parse(&line(3, "10.0", "x.sh", 1, "", 1, "true"));
    assert_eq!(t.events[0].subshell, 3);
}

#[test]
fn command_may_contain_the_field_separator() {
    let cmd = format!("printf '{US}weird{US}'");
    let t = parse(&line(1, "10.0", "x.sh", 1, "", 1, &cmd));
    assert_eq!(t.events[0].command, cmd);
}

#[test]
fn continuation_lines_attach_to_the_previous_command() {
    let input = format!(
        "{}\nsecond half'\n{}",
        line(1, "10.0", "x.sh", 1, "", 1, "echo $'first"),
        line(1, "11.0", "x.sh", 2, "", 1, "true")
    );
    let t = parse(&input);
    assert_eq!(t.events.len(), 2);
    assert_eq!(t.events[0].command, "echo $'first\nsecond half'");
    assert_eq!(t.skipped, 0);
}

#[test]
fn start_and_end_control_records_are_extracted() {
    let input = format!(
        "{US}START{US}10.0{US}./job.sh\n{}\n{US}END{US}12.5{US}3",
        line(1, "10.5", "./job.sh", 1, "", 1, "true")
    );
    let t = parse(&input);
    assert_eq!(t.start_us, Some(10_000_000));
    assert_eq!(t.end_us, Some(12_500_000));
    assert_eq!(t.exit_code, Some(3));
    assert_eq!(t.script.as_deref(), Some("./job.sh"));

    let t = parse(&line(1, "10.0", "x.sh", 1, "", 1, "true"));
    assert_eq!(t.end_us, None);
    assert_eq!(t.exit_code, None);
}

#[test]
fn bootstrap_internal_events_are_filtered() {
    let input = [
        line(1, "10.0", "x.sh", 1, "", 1, "real"),
        line(1, "11.0", "x.sh", 9, "", 1, "__bashprof_finish"),
        line(1, "11.1", "x.sh", 9, "__bashprof_finish", 2, "set +x"),
        line(1, "9.9", "", 0, "", 0, ". ./x.sh"),
    ]
    .join("\n");
    let t = parse(&input);
    assert_eq!(t.events.len(), 1);
    assert_eq!(t.events[0].command, "real");
}

#[test]
fn garbled_and_foreign_lines_are_counted_not_fatal() {
    let input = format!(
        "random noise first\n{}\n+{US}notatime{US}x.sh{US}1{US}{US}1{US}cmd\n{}",
        line(1, "10.0", "x.sh", 1, "", 1, "a"),
        line(1, "11.0", "x.sh", 2, "", 1, "b")
    );
    let t = parse(&input);
    assert_eq!(t.events.len(), 2);
    assert_eq!(t.events[0].command, "a");
    assert_eq!(t.skipped, 2);
}

#[test]
fn empty_input_yields_an_empty_trace() {
    let t = parse("");
    assert!(t.events.is_empty());
    assert_eq!(t.skipped, 0);
}

// ---------------------------------------------------------------------

#[test]
fn epochrealtime_edges() {
    assert_eq!(parse_epochrealtime(" 7 "), Some(7_000_000));
    assert_eq!(parse_epochrealtime("+7."), Some(7_000_000));
    assert_eq!(parse_epochrealtime("0.000001"), Some(1));
    assert_eq!(parse_epochrealtime("18446744073709.551615"), Some(u64::MAX));
    assert_eq!(parse_epochrealtime("18446744073709.551616"), None);
    assert_eq!(parse_epochrealtime("1.+5"), None);
    assert_eq!(parse_epochrealtime("-1.5"), None);
    assert_eq!(parse_epochrealtime(".5"), None);
}

#[test]
fn crlf_lines_and_control_record_details() {
    let input = format!(
        "{US}START{US}1.0{US}\r\n{}\r\n{US}END{US}2.0{US} 4 \r\n{US}BOGUS{US}1\n{US}nosep",
        line(2, "1.5", "a.sh", 1, "f", 2, "x")
    );
    let t = parse(&input);
    assert_eq!(t.start_us, Some(1_000_000));
    assert_eq!(t.script, None);
    assert_eq!(t.end_us, Some(2_000_000));
    assert_eq!(t.exit_code, Some(4));
    assert_eq!(t.events.len(), 1);
    assert_eq!(t.events[0].command, "x");
    assert_eq!(t.events[0].subshell, 2);
    assert_eq!(t.skipped, 2);
}

#[test]
fn parsed_events_never_include_bootstrap_noise() {
    let input = [
        line(1, "1.0", "x.sh", 1, "", 1, "__bashprof_x"),
        line(1, "1.1", "", 1, "", 1, "anything"),
        line(1, "1.2", "x.sh", 1, "__bashprof_finish", 2, "y"),
        line(1, "1.3", "x.sh", 2, "__bashprofile", 2, "kept? no"),
        line(1, "1.4", "x.sh", 3, "_bashprof", 2, "kept"),
    ]
    .join("\n");
    let t = parse(&input);
    assert_eq!(t.events.len(), 1);
    assert_eq!(t.events[0].command, "kept");
}

#[test]
fn either_radix_reads_the_same_anywhere() {
    for (a, b) in [
        ("1752.000042", "1752,000042"),
        ("1.5.3", "1.5,3"),
        ("1,2345678.9", "1.2345678.9"),
        (" 3. ", " 3, "),
        ("x.1", "x,1"),
    ] {
        assert_eq!(parse_epochrealtime(a), parse_epochrealtime(b), "{a} vs {b}");
    }
    assert_eq!(parse_epochrealtime("1,2345678.9"), Some(1_234_567));
}

#[test]
fn a_line_written_under_the_prompt_reads_back_as_its_event() {
    let base = format!("{US}START{US}1.0{US}a.sh\n");
    let line = format!("++{US}1752000042.000007{US}/a/b.sh{US}12{US}f{US}3{US}x{US}y");
    let before = parse(&base);
    let after = parse(&format!("{base}{line}\n"));
    assert_eq!(after.events.len(), before.events.len() + 1);
    let ev = &after.events[0];
    assert_eq!(ev.subshell, 2);
    assert_eq!(ev.ts_us, 1_752_000_042_000_007);
    assert_eq!(ev.source, "/a/b.sh");
    assert_eq!(ev.line, 12);
    assert_eq!(ev.func, "f");
    assert_eq!(ev.func_depth, 3);
    assert_eq!(ev.command, format!("x{US}y"));
    assert_eq!(after.start_us, before.start_us);
    assert_eq!(after.skipped, before.skipped);
}

#[test]
fn kept_events_stay_in_file_order() {
    let input = [
        line(1, "1.0", "x.sh", 1, "", 1, "a"),
        line(1, "1.1", "x.sh", 2, "", 1, "__bashprof_noise"),
        line(1, "1.2", "x.sh", 3, "", 1, "b"),
        line(1, "1.3", "", 4, "", 1, "c?"),
        line(1, "1.4", "x.sh", 5, "", 1, "c"),
    ]
    .join("\n");
    let t = parse(&input);
    let cmds: Vec<&str> = t.events.iter().map(|e| e.command.as_str()).collect();
    assert_eq!(cmds, vec!["a", "b", "c"]);
}

#[test]
fn epochrealtime_seconds_fraction_padding_and_overflow() {
    assert_eq!(parse_epochrealtime("5"), Some(5_000_000));
    assert_eq!(parse_epochrealtime("\t12,34 \n"), Some(12_340_000));
    assert_eq!(parse_epochrealtime("12.0000009"), Some(12_000_000));
    assert_eq!(parse_epochrealtime("0.999999999"), Some(999_999));
    assert_eq!(parse_epochrealtime("18446744073710"), None);
    assert_eq!(parse_epochrealtime("18446744073709.551616"), None);
    assert_eq!(parse_epochrealtime("007.5"), Some(7_500_000));
}
