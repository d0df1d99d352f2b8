use bashprof::profile::{FuncStat, LineStat, Profile};
use bashprof::report::{
    fmt_duration, fmt_percent, render, render_annotate, select_lines, source_matches, Options, SortKey,
};

#[test]
fn duration_formatting_across_magnitudes() {
    assert_eq!(fmt_duration(0), "0us");
    assert_eq!(fmt_duration(842), "842us");
    assert_eq!(fmt_duration(12_300), "12.3ms");
    assert_eq!(fmt_duration(999_499), "999ms");
    assert_eq!(fmt_duration(999_500), "1.000s");
    assert_eq!(fmt_duration(1_204_000), "1.204s");
    assert_eq!(fmt_duration(59_999_000), "59.999s");
    assert_eq!(fmt_duration(126_000_000), "2m06s");
}

#[test]
fn percent_is_safe_for_zero_total() {
    assert_eq!(fmt_percent(5, 0), "0.0%");
    assert_eq!(fmt_percent(1, 2), "50.0%");
}

fn float_duration(us: u64) -> String {
    if us < 1_000 {
        format!("{us}us")
    } else if us < 999_500 {
        let ms = us as f64 / 1_000.0;
        if ms < 100.0 {
            format!("{ms:.1}ms")
        } else {
            format!("{ms:.0}ms")
        }
    } else if us < 60_000_000 {
        format!("{:.3}s", us as f64 / 1_000_000.0)
    } else {
        let total_secs = us / 1_000_000;
        format!("{}m{:02}s", total_secs / 60, total_secs % 60)
    }
}

fn float_percent(part: u64, whole: u64) -> String {
    if whole == 0 {
        return "0.0%".to_owned();
    }
    format!("{:.1}%", part as f64 * 100.0 / whole as f64)
}

#[test]
fn duration_matches_binary64_rendering() {
    for us in 0..120_000u64 {
        assert_eq!(fmt_duration(us), float_duration(us), "us = {us}");
    }
    let mut x: u64 = 120_000;
    while x < 1_300_000 {
        assert_eq!(fmt_duration(x), float_duration(x), "us = {x}");
        x += 7;
    }
    while x < 70_000_000 {
        assert_eq!(fmt_duration(x), float_duration(x), "us = {x}");
        x += 997;
    }
}

#[test]
fn percent_matches_binary64_rendering() {
    for whole in 1..120u64 {
        for part in 0..400u64 {
            assert_eq!(fmt_percent(part, whole), float_percent(part, whole), "{part}/{whole}");
        }
    }
    let mut seed: u64 = 0x9e37_79b9_7f4a_7c15;
    for _ in 0..60_000 {
        seed ^= seed << 13;
        seed ^= seed >> 7;
        seed ^= seed << 17;
        let part = seed >> (seed % 64);
        let whole = (seed.rotate_left(17)) >> ((seed >> 8) % 64);
        assert_eq!(fmt_percent(part, whole), float_percent(part, whole), "{part}/{whole}");
    }
    for (p, w) in [(u64::MAX, 1), (u64::MAX, u64::MAX), (1, u64::MAX), (u64::MAX, 3), (7, 3), (1, 3), (2, 3)] {
        assert_eq!(fmt_percent(p, w), float_percent(p, w), "{p}/{w}");
    }
}

fn line(file: &str, n: u32, count: u64, self_us: u64, cmd: &str) -> LineStat {
    LineStat {
        file: file.into(),
        line: n,
        count,
        self_us,
        max_us: self_us,
        command: cmd.into(),
    }
}

fn profile() -> Profile {
    Profile {
        script: Some("./job.sh".into()),
        exit_code: Some(0),
        total_us: 2_000_000,
        commands: 6,
        files: vec!["job.sh".into()],
        lines: vec![
            line("job.sh", 3, 1, 1_500_000, "sleep 1.5"),
            line("job.sh", 5, 50, 400_000, "echo tick"),
            line("job.sh", 9, 1, 100_000, "date"),
        ],
        funcs: vec![
            FuncStat {
                name: "main".into(),
                calls: 0,
                commands: 4,
                self_us: 1_600_000,
            },
            FuncStat {
                name: "work".into(),
                calls: 2,
                commands: 2,
                self_us: 400_000,
            },
        ],
        samples: vec![],
        skipped: 0,
    }
}

#[test]
fn sort_key_parses_known_values_only() {
    assert_eq!(SortKey::parse("self"), Some(SortKey::SelfTime));
    assert_eq!(SortKey::parse("count"), Some(SortKey::Count));
    assert_eq!(SortKey::parse("line"), Some(SortKey::Line));
    assert_eq!(SortKey::parse("time"), None);
}

#[test]
fn sort_modes_order_slowest_hottest_or_source_order() {
    let p = profile();
    let rows = select_lines(&p, &Options::default());
    assert_eq!(rows[0].line, 3, "default: slowest first");

    let by_count = Options {
        sort: SortKey::Count,
        ..Options::default()
    };
    assert_eq!(select_lines(&p, &by_count)[0].line, 5, "hottest loop first");

    let by_line = Options {
        sort: SortKey::Line,
        ..Options::default()
    };
    let nums: Vec<u32> = select_lines(&p, &by_line).iter().map(|l| l.line).collect();
    assert_eq!(nums, vec![3, 5, 9], "source order");
}

#[test]
fn top_truncates_and_zero_means_all() {
    let p = profile();
    let top1 = Options {
        top: 1,
        ..Options::default()
    };
    assert_eq!(select_lines(&p, &top1).len(), 1);
    let all = Options {
        top: 0,
        ..Options::default()
    };
    assert_eq!(select_lines(&p, &all).len(), 3);
}

#[test]
fn min_us_filters_fast_lines() {
    let p = profile();
    let opts = Options {
        min_us: 200_000,
        ..Options::default()
    };
    let rows = select_lines(&p, &opts);
    assert!(rows.iter().all(|l| l.self_us >= 200_000));
    assert_eq!(rows.len(), 2);
}

#[test]
fn ties_break_deterministically_by_file_and_line() {
    let mut p = profile();
    p.lines = vec![
        line("b.sh", 2, 1, 100, "x"),
        line("a.sh", 9, 1, 100, "y"),
        line("a.sh", 1, 1, 100, "z"),
    ];
    let rows = select_lines(&p, &Options::default());
    let keys: Vec<(String, u32)> = rows.iter().map(|l| (l.file.clone(), l.line)).collect();
    assert_eq!(
        keys,
        vec![("a.sh".into(), 1), ("a.sh".into(), 9), ("b.sh".into(), 2)]
    );
}

#[test]
fn report_shows_header_rows_and_truncation_notice() {
    let out = render(&profile(), &Options::default());
    assert!(out.contains("./job.sh (exit 0)"));
    assert!(out.contains("total 2.000s wall, 6 commands traced, 1 source file"));
    assert!(!out.contains("file(s)"));
    assert!(out.contains("1.500s"));
    assert!(out.contains("75.0%"));
    assert!(out.contains("job.sh:3"));
    assert!(out.contains("sleep 1.5"));

    let truncated = render(
        &profile(),
        &Options {
            top: 1,
            ..Options::default()
        },
    );
    assert!(truncated.contains("... 2 more lines; --top 0 shows all"));
    let truncated_to_one = render(
        &profile(),
        &Options {
            top: 2,
            ..Options::default()
        },
    );
    assert!(truncated_to_one.contains("... 1 more line; --top 0 shows all"));
    let filtered = render(
        &profile(),
        &Options {
            min_us: 200_000,
            ..Options::default()
        },
    );
    assert!(filtered.contains("... 1 more line; --top 0 --min-us 0 shows all"));
}

#[test]
fn report_lists_functions_with_calls_but_omits_section_for_flat_scripts() {
    let out = render(&profile(), &Options::default());
    assert!(out.contains("FUNCTIONS (self-time)"));
    assert!(out.contains("2x  work"));
    assert!(out.contains("-  main"));

    let mut flat = profile();
    flat.funcs.truncate(1);
    assert!(!render(&flat, &Options::default()).contains("FUNCTIONS"));
}

#[test]
fn report_notes_skipped_lines_only_when_present() {
    let mut p = profile();
    assert!(!render(&p, &Options::default()).contains("skipped"));
    p.skipped = 2;
    assert!(render(&p, &Options::default()).contains("2 unparseable trace lines skipped"));
    p.skipped = 1;
    assert!(render(&p, &Options::default()).contains("1 unparseable trace line skipped"));
}

#[test]
fn multiline_commands_are_flattened_in_the_table() {
    let mut p = profile();
    p.lines[0].command = "echo $'a\nb'".into();
    let out = render(&p, &Options::default());
    assert!(out.contains("echo $'a ..."));
    assert!(!out.contains("echo $'a\nb'"));
}

#[test]
fn annotate_marks_executed_and_untouched_lines() {
    let p = profile();
    let src = "#!/usr/bin/env bash\n# comment\nsleep 1.5\n";
    let out = render_annotate(&p, "job.sh", src);
    let rows: Vec<&str> = out.lines().collect();
    assert!(rows[1].trim_start().starts_with("- "));
    assert!(rows[3].contains("1.500s"));
    assert!(rows[3].contains("sleep 1.5"));
}

#[test]
fn source_matching_is_exact_or_by_basename() {
    assert!(source_matches("./job.sh", "job.sh"));
    assert!(source_matches("/ci/job.sh", "job.sh"));
    assert!(source_matches("job.sh", "job.sh"));
    assert!(!source_matches("other.sh", "job.sh"));
    let p = profile();
    let out = render_annotate(&p, "./examples/job.sh", "a\nb\nsleep 1.5\n");
    assert!(out.contains("1.500s"));
}

// ---------------------------------------------------------------------

#[test]
fn selected_rows_respect_every_filter_together() {
    let mut p = profile();
    p.lines.push(line("job.sh", 11, 7, 1_500_000, "sleep again"));
    let opts = Options {
        top: 2,
        sort: SortKey::SelfTime,
        min_us: 150_000,
    };
    let rows = select_lines(&p, &opts);
    let keys: Vec<u32> = rows.iter().map(|l| l.line).collect();
    assert_eq!(keys, vec![3, 11]);
    let by_count = Options {
        top: 0,
        sort: SortKey::Count,
        min_us: 0,
    };
    let keys: Vec<u32> = select_lines(&p, &by_count).iter().map(|l| l.line).collect();
    assert_eq!(keys, vec![5, 11, 3, 9]);
}

#[test]
fn duration_boundaries() {
    assert_eq!(fmt_duration(999), "999us");
    assert_eq!(fmt_duration(1_000), "1.0ms");
    assert_eq!(fmt_duration(99_949), "99.9ms");
    assert_eq!(fmt_duration(99_950), "100.0ms");
    assert_eq!(fmt_duration(100_000), "100ms");
    assert_eq!(fmt_duration(60_000_000), "1m00s");
    assert_eq!(fmt_duration(u64::MAX), "307445734561m49s");
    assert_eq!(fmt_percent(1, 3), "33.3%");
    assert_eq!(fmt_percent(2, 3), "66.7%");
}

#[test]
fn millisecond_form_never_reaches_a_second() {
    let mut us: u64 = 100_000;
    while us < 999_500 {
        let s = fmt_duration(us);
        let ms: u64 = s.strip_suffix("ms").unwrap().parse().unwrap();
        assert!(ms <= 999, "{us} -> {s}");
        us += 3;
    }
    assert_eq!(fmt_duration(999_499), "999ms");
}

#[test]
fn duration_forms_at_their_edges() {
    assert_eq!(fmt_duration(999_999), "1.000s");
    assert_eq!(fmt_duration(999_500), "1.000s");
    assert_eq!(fmt_duration(1_000_000), "1.000s");
    assert_eq!(fmt_duration(119_999_999), "1m59s");
    assert_eq!(fmt_duration(3_599_000_000), "59m59s");
    for us in [0u64, 1, 999, 999_499, 999_500, 999_999, 60_000_000] {
        assert_ne!(fmt_duration(us), "1000ms");
    }
}
