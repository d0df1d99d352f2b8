use bashprof::cli::{annotate_target, check_trace, parse, profile_text, Action, USAGE};
use bashprof::profile::Profile;
use bashprof::report::{Options, SortKey};

fn p(args: &[&str]) -> Result<Action, String> {
    parse(&args.iter().map(|s| s.to_string()).collect::<Vec<_>>())
}

#[test]
fn bare_invocation_and_flags_map_to_help_and_version() {
    assert_eq!(p(&[]), Ok(Action::Help));
    assert_eq!(p(&["--help"]), Ok(Action::Help));
    assert_eq!(p(&["-h"]), Ok(Action::Help));
    assert_eq!(p(&["--version"]), Ok(Action::Version));
    assert_eq!(p(&["-V"]), Ok(Action::Version));
}

#[test]
fn unknown_command_is_a_usage_error() {
    let err = p(&["flame"]).unwrap_err();
    assert!(err.contains("unknown command 'flame'"));
}

#[test]
fn run_parses_defaults() {
    match p(&["run", "job.sh"]).unwrap() {
        Action::Run {
            shell,
            out,
            opts,
            json,
            script,
            args,
        } => {
            assert_eq!(shell, "bash");
            assert_eq!(out, None);
            assert_eq!(opts.top, 15);
            assert_eq!(opts.sort, SortKey::SelfTime);
            assert!(!json);
            assert_eq!(script, "job.sh");
            assert!(args.is_empty());
        }
        other => panic!("unexpected {other:?}"),
    }
}

#[test]
fn run_everything_after_the_script_goes_to_the_script() {
    // `--json` here belongs to job.sh, not to bashprof.
    match p(&["run", "job.sh", "--json", "-x"]).unwrap() {
        Action::Run { json, args, .. } => {
            assert!(!json);
            assert_eq!(args, vec!["--json", "-x"]);
        }
        other => panic!("unexpected {other:?}"),
    }
}

#[test]
fn run_double_dash_separates_script_from_options() {
    match p(&["run", "--top", "5", "--", "--weird-name.sh", "arg"]).unwrap() {
        Action::Run {
            opts, script, args, ..
        } => {
            assert_eq!(opts.top, 5);
            assert_eq!(script, "--weird-name.sh");
            assert_eq!(args, vec!["arg"]);
        }
        other => panic!("unexpected {other:?}"),
    }
}

#[test]
fn run_accepts_shell_out_sort_min_us_json() {
    match p(&[
        "run",
        "--shell",
        "/opt/bash",
        "--out",
        "t.trace",
        "--sort",
        "count",
        "--min-us",
        "250",
        "--json",
        "job.sh",
    ])
    .unwrap()
    {
        Action::Run {
            shell,
            out,
            opts,
            json,
            ..
        } => {
            assert_eq!(shell, "/opt/bash");
            assert_eq!(out, Some("t.trace".to_string()));
            assert_eq!(opts.sort, SortKey::Count);
            assert_eq!(opts.min_us, 250);
            assert!(json);
        }
        other => panic!("unexpected {other:?}"),
    }
}

#[test]
fn run_usage_errors_are_specific() {
    assert!(p(&["run"]).unwrap_err().contains("missing <script>"));
    assert!(p(&["run", "--frobnicate", "job.sh"])
        .unwrap_err()
        .contains("unknown option '--frobnicate'"));
    assert!(p(&["run", "--sort", "speed", "job.sh"])
        .unwrap_err()
        .contains("self|count|line"));
    assert!(p(&["run", "--top", "many", "job.sh"])
        .unwrap_err()
        .contains("not a number"));
    assert!(p(&["run", "--out"])
        .unwrap_err()
        .contains("--out requires a value"));
    assert!(p(&["run", "--"])
        .unwrap_err()
        .contains("missing <script> after --"));
}

#[test]
fn report_parses_trace_options_and_arity() {
    match p(&["report", "--top", "0", "t.trace"]).unwrap() {
        Action::Report { trace, opts, json } => {
            assert_eq!(trace, "t.trace");
            assert_eq!(opts.top, 0);
            assert!(!json);
        }
        other => panic!("unexpected {other:?}"),
    }
    assert!(p(&["report"]).unwrap_err().contains("missing <trace>"));
    assert!(p(&["report", "a", "b"])
        .unwrap_err()
        .contains("exactly one"));
}

#[test]
fn collapse_parses_a_single_trace() {
    assert_eq!(
        p(&["collapse", "t.trace"]),
        Ok(Action::Collapse {
            trace: "t.trace".to_string()
        })
    );
    assert!(p(&["collapse"]).unwrap_err().contains("missing <trace>"));
}

#[test]
fn annotate_parses_trace_and_optional_script() {
    assert_eq!(
        p(&["annotate", "t.trace"]),
        Ok(Action::Annotate {
            trace: "t.trace".to_string(),
            script: None
        })
    );
    assert_eq!(
        p(&["annotate", "--script", "lib.sh", "t.trace"]),
        Ok(Action::Annotate {
            trace: "t.trace".to_string(),
            script: Some("lib.sh".to_string())
        })
    );
}

#[test]
fn usage_text_documents_every_command() {
    for cmd in ["run", "report", "collapse", "annotate"] {
        assert!(USAGE.contains(cmd), "USAGE must mention {cmd}");
    }
    assert!(USAGE.contains("exit code"));
}

// ---------------------------------------------------------------------

#[test]
fn every_usage_error_message_is_exact() {
    assert_eq!(p(&["run", "--top"]), Err("--top requires a value".to_string()));
    assert_eq!(p(&["report", "--sort"]), Err("--sort requires a value".to_string()));
    assert_eq!(p(&["run", "--min-us"]), Err("--min-us requires a value".to_string()));
    assert_eq!(p(&["run", "--shell"]), Err("--shell requires a value".to_string()));
    assert_eq!(p(&["annotate", "--script"]), Err("--script requires a value".to_string()));
    assert_eq!(
        p(&["run", "--min-us", "-1", "x.sh"]),
        Err("--min-us: '-1' is not a number".to_string())
    );
    assert_eq!(
        p(&["report", "--sort", "time", "t"]),
        Err("--sort: 'time' is not one of self|count|line".to_string())
    );
    assert_eq!(p(&["report", "-q"]), Err("report: unknown option '-q'".to_string()));
    assert_eq!(p(&["annotate", "-q"]), Err("annotate: unknown option '-q'".to_string()));
    assert_eq!(p(&["annotate", "a", "b"]), Err("annotate: takes exactly one <trace>".to_string()));
    assert_eq!(p(&["annotate"]), Err("annotate: missing <trace>".to_string()));
    assert_eq!(p(&["collapse", "-x"]), Err("collapse: unknown option '-x'".to_string()));
    assert_eq!(p(&["collapse", "a", "b"]), Err("collapse: takes exactly one <trace>".to_string()));
    assert_eq!(p(&["collapse"]), Err("collapse: missing <trace>".to_string()));
    assert_eq!(
        p(&["run"]),
        Err("run: missing <script> (usage: bashprof run [OPTIONS] [--] <script> [args...])".to_string())
    );
    assert_eq!(
        p(&["frob"]),
        Err("unknown command 'frob' (see bashprof --help)".to_string())
    );
}

#[test]
fn help_and_version_words_and_later_options() {
    assert_eq!(p(&["help"]), Ok(Action::Help));
    assert_eq!(p(&["version", "ignored"]), Ok(Action::Version));
    match p(&["report", "t", "--json", "--min-us", "+7", "--sort", "line"]).unwrap() {
        Action::Report { trace, opts, json } => {
            assert_eq!(trace, "t");
            assert!(json);
            assert_eq!(opts.min_us, 7);
            assert_eq!(opts.sort, SortKey::Line);
        }
        other => panic!("unexpected {other:?}"),
    }
    // The last of a repeated option wins.
    match p(&["run", "--top", "3", "--top", "4", "s.sh"]).unwrap() {
        Action::Run { opts, .. } => assert_eq!(opts.top, 4),
        other => panic!("unexpected {other:?}"),
    }
}

#[test]
fn a_file_without_events_or_start_is_not_a_trace() {
    let t = bashprof::trace::parse("just some text\nno markers here\n");
    assert_eq!(
        check_trace("notes.txt", &t),
        Err("notes.txt does not look like a bashprof trace (no events, no START record)".to_string())
    );
    let only_start = bashprof::trace::parse("\u{1f}START\u{1f}1.0\u{1f}x.sh\n");
    assert_eq!(check_trace("t", &only_start), Ok(()));
    let only_event = bashprof::trace::parse("+\u{1f}1.0\u{1f}x.sh\u{1f}1\u{1f}\u{1f}\u{1f}true\n");
    assert_eq!(check_trace("t", &only_event), Ok(()));
}

#[test]
fn annotate_target_prefers_the_flag_then_the_recorded_script() {
    let mut p = Profile::default();
    assert_eq!(
        annotate_target(None, &p),
        Err("trace has no recorded script path; pass --script <FILE>".to_string())
    );
    p.script = Some("./job.sh".into());
    assert_eq!(annotate_target(None, &p), Ok("./job.sh".to_string()));
    assert_eq!(annotate_target(Some("lib.sh".into()), &p), Ok("lib.sh".to_string()));
}

#[test]
fn profile_text_is_the_table_or_the_json() {
    let p = Profile::default();
    let opts = Options::default();
    assert_eq!(profile_text(&p, &opts, true), bashprof::jsonout::render(&p));
    assert_eq!(profile_text(&p, &opts, false), bashprof::report::render(&p, &opts));
    assert!(profile_text(&p, &opts, true).starts_with("{\n  \"tool\": \"bashprof\""));
}
