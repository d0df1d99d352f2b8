use bashprof::profile::{build, try_build, ROOT_FRAME};
use bashprof::trace::{Event, Trace};

/// Event factory. Real raw depths: 0 = top level (FUNCNAME unset),
/// 2 = first function level (includes the implicit `source` frame).
fn ev(ts_us: u64, line: u32, func: &str, func_depth: u32, cmd: &str) -> Event {
    Event {
        subshell: 1,
        ts_us,
        source: "job.sh".into(),
        line,
        func: func.into(),
        func_depth,
        command: cmd.into(),
    }
}

fn trace_of(events: Vec<Event>, end_us: Option<u64>) -> Trace {
    let start_us = events.first().map(|e| e.ts_us);
    Trace {
        events,
        start_us,
        end_us,
        exit_code: end_us.map(|_| 0),
        script: Some("job.sh".into()),
        skipped: 0,
    }
}

#[test]
fn self_time_is_the_gap_to_the_next_event() {
    let t = trace_of(
        vec![ev(1_000, 1, "", 0, "a"), ev(4_000, 2, "", 0, "b")],
        Some(4_500),
    );
    let p = build(&t);
    assert_eq!(p.lines[0].self_us, 3_000);
    assert_eq!(p.lines[1].self_us, 500);

    let t = trace_of(vec![ev(1_000, 1, "", 0, "a")], None);
    assert_eq!(build(&t).lines[0].self_us, 0);
}

#[test]
fn negative_gaps_from_interleaved_subshells_are_clamped() {
    let t = trace_of(
        vec![ev(5_000, 1, "", 0, "a"), ev(2_000, 2, "", 0, "bg")],
        Some(6_000),
    );
    let p = build(&t);
    assert_eq!(p.lines[0].self_us, 0);
    assert_eq!(p.lines[1].self_us, 4_000);
}

#[test]
fn repeated_lines_accumulate_count_max_and_latest_command() {
    let t = trace_of(
        vec![
            ev(0, 7, "", 0, "step 1"),
            ev(100, 7, "", 0, "step 2"),
            ev(5_100, 7, "", 0, "step 3"),
        ],
        Some(5_200),
    );
    let p = build(&t);
    assert_eq!(p.lines.len(), 1);
    let l = &p.lines[0];
    assert_eq!(l.count, 3);
    assert_eq!(l.self_us, 100 + 5_000 + 100);
    assert_eq!(l.max_us, 5_000);
    assert_eq!(l.command, "step 3");
}

#[test]
fn total_prefers_start_end_records_and_falls_back_to_event_span() {
    let mut t = trace_of(vec![ev(2_000, 1, "", 0, "a")], Some(9_000));
    t.start_us = Some(1_000);
    assert_eq!(build(&t).total_us, 8_000);

    let mut t = trace_of(
        vec![ev(1_000, 1, "", 0, "a"), ev(4_000, 2, "", 0, "b")],
        None,
    );
    t.start_us = None;
    assert_eq!(build(&t).total_us, 3_000);
}

#[test]
fn top_level_code_is_attributed_to_main() {
    let t = trace_of(vec![ev(0, 1, "", 0, "a")], Some(10));
    let p = build(&t);
    assert_eq!(p.funcs.len(), 1);
    assert_eq!(p.funcs[0].name, ROOT_FRAME);
    assert_eq!(p.samples[0].stack, vec![ROOT_FRAME.to_owned()]);
}

#[test]
fn function_entry_and_return_reconstruct_the_stack() {
    let t = trace_of(
        vec![
            ev(0, 10, "", 0, "work"),
            ev(10, 3, "work", 2, "step1"),
            ev(20, 4, "work", 2, "step2"),
            ev(30, 11, "", 0, "echo done"),
        ],
        Some(40),
    );
    let p = build(&t);
    assert_eq!(p.samples[0].stack, vec!["main"]);
    assert_eq!(p.samples[1].stack, vec!["main", "work"]);
    assert_eq!(p.samples[2].stack, vec!["main", "work"]);
    assert_eq!(p.samples[3].stack, vec!["main"]);
    let work = p.funcs.iter().find(|f| f.name == "work").unwrap();
    assert_eq!(work.calls, 1);
    assert_eq!(work.commands, 2);
    assert_eq!(work.self_us, 10 + 10);
}

#[test]
fn nested_calls_stack_frames_outermost_first() {
    let t = trace_of(
        vec![
            ev(0, 20, "", 0, "outer"),
            ev(1, 5, "outer", 2, "inner"),
            ev(2, 2, "inner", 3, "true"),
        ],
        Some(3),
    );
    let p = build(&t);
    assert_eq!(p.samples[2].stack, vec!["main", "outer", "inner"]);
}

#[test]
fn sibling_call_at_same_depth_replaces_the_top_frame() {
    let t = trace_of(
        vec![
            ev(0, 8, "", 0, "f"),
            ev(1, 1, "f", 2, ":"),
            ev(2, 2, "g", 2, ":"),
        ],
        Some(3),
    );
    let p = build(&t);
    assert_eq!(p.samples[1].stack, vec!["main", "f"]);
    assert_eq!(p.samples[2].stack, vec!["main", "g"]);
    let g = p.funcs.iter().find(|f| f.name == "g").unwrap();
    assert_eq!(g.calls, 1);
}

#[test]
fn recursive_calls_count_each_entry() {
    let t = trace_of(
        vec![
            ev(0, 6, "", 0, "fact 3"),
            ev(1, 2, "fact", 2, "fact 2"),
            ev(2, 2, "fact", 3, "fact 1"),
            ev(3, 3, "fact", 4, "echo 1"),
        ],
        Some(4),
    );
    let p = build(&t);
    let f = p.funcs.iter().find(|f| f.name == "fact").unwrap();
    assert_eq!(f.calls, 3);
    assert_eq!(p.samples[3].stack, vec!["main", "fact", "fact", "fact"]);
}

#[test]
fn depth_jump_inserts_placeholder_frames() {
    let t = trace_of(
        vec![ev(0, 1, "", 0, "a"), ev(1, 9, "deep", 4, "b")],
        Some(2),
    );
    let p = build(&t);
    assert_eq!(p.samples[1].stack, vec!["main", "?", "?", "deep"]);
}

#[test]
fn subshell_depth_does_not_disturb_function_attribution() {
    let mut sub = ev(2, 4, "work", 2, "date");
    sub.subshell = 2;
    let t = trace_of(
        vec![ev(0, 9, "", 0, "work"), ev(1, 3, "work", 2, "x=1"), sub],
        Some(3),
    );
    let p = build(&t);
    assert_eq!(p.samples[2].stack, vec!["main", "work"]);
}

#[test]
fn files_deduplicated_and_lines_sorted_by_file_then_number() {
    let mut lib = ev(1, 2, "", 0, "b");
    lib.source = "lib/util.sh".into();
    let t = trace_of(
        vec![
            ev(0, 9, "", 0, "z"),
            lib,
            ev(2, 2, "", 0, "a"),
            ev(3, 5, "", 0, "m"),
        ],
        Some(4),
    );
    let p = build(&t);
    assert_eq!(p.files, vec!["job.sh", "lib/util.sh"]);
    let keys: Vec<(&str, u32)> = p.lines.iter().map(|l| (l.file.as_str(), l.line)).collect();
    assert_eq!(
        keys,
        vec![
            ("job.sh", 2),
            ("job.sh", 5),
            ("job.sh", 9),
            ("lib/util.sh", 2)
        ]
    );
}

#[test]
fn funcs_are_sorted_by_self_time_descending() {
    let t = trace_of(
        vec![
            ev(0, 9, "", 0, "fast"),
            ev(1, 1, "fast", 2, "a"),
            ev(2, 2, "slow", 2, "b"),
        ],
        Some(100),
    );
    let p = build(&t);
    assert_eq!(p.funcs[0].name, "slow");
    assert_eq!(p.funcs[1].name, "fast");
    assert_eq!(p.funcs[2].name, ROOT_FRAME);
}

#[test]
fn empty_trace_builds_an_empty_profile() {
    let t = Trace::default();
    let p = build(&t);
    assert_eq!(p.commands, 0);
    assert!(p.lines.is_empty());
    assert!(p.funcs.is_empty());
    assert_eq!(p.total_us, 0);
}

// ---------------------------------------------------------------------

#[test]
fn line_and_function_totals_add_up_to_the_sample_total() {
    let t = trace_of(
        vec![
            ev(0, 10, "", 0, "work"),
            ev(7, 3, "work", 2, "step1"),
            ev(20, 4, "work", 2, "step2"),
            ev(31, 3, "work", 2, "step1"),
            ev(45, 11, "", 0, "echo done"),
        ],
        Some(60),
    );
    let p = build(&t);
    let samples: u64 = p.samples.iter().map(|s| s.self_us).sum();
    let lines: u64 = p.lines.iter().map(|l| l.self_us).sum();
    let funcs: u64 = p.funcs.iter().map(|f| f.self_us).sum();
    assert_eq!(samples, 60);
    assert_eq!(lines, samples);
    assert_eq!(funcs, samples);
    assert_eq!(p.commands, 5);
    let counts: u64 = p.lines.iter().map(|l| l.count).sum();
    assert_eq!(counts, 5);
}

#[test]
fn totals_that_overflow_are_refused() {
    let t = trace_of(
        vec![ev(0, 1, "", 0, "a"), ev(u64::MAX, 2, "", 0, "b"), ev(0, 1, "", 0, "a")],
        Some(u64::MAX),
    );
    assert!(try_build(&t).is_none());
    let ok = trace_of(vec![ev(0, 1, "", 0, "a"), ev(u64::MAX, 1, "", 0, "a")], Some(u64::MAX));
    let p = try_build(&ok).expect("fits");
    assert_eq!(p.lines[0].self_us, u64::MAX);
    assert_eq!(p.lines[0].count, 2);
}
