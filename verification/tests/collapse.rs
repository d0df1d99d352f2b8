use bashprof::collapse::{render, try_render};
use bashprof::profile::{Profile, Sample};

fn sample(stack: &[&str], file: &str, line: u32, us: u64) -> Sample {
    Sample {
        stack: stack.iter().map(|s| s.to_string()).collect(),
        file: file.into(),
        line,
        self_us: us,
    }
}

fn profile_with(samples: Vec<Sample>) -> Profile {
    Profile {
        samples,
        ..Profile::default()
    }
}

#[test]
fn identical_stacks_merge_and_output_is_sorted_deterministically() {
    let p = profile_with(vec![
        sample(&["main", "zeta"], "job.sh", 9, 40),
        sample(&["main", "alpha"], "job.sh", 2, 100),
        sample(&["main", "alpha"], "job.sh", 2, 250),
    ]);
    assert_eq!(
        render(&p),
        "main;alpha;job.sh:2 350\nmain;zeta;job.sh:9 40\n"
    );
}

#[test]
fn distinct_lines_in_the_same_function_stay_separate() {
    let p = profile_with(vec![
        sample(&["main", "work"], "job.sh", 5, 100),
        sample(&["main", "work"], "job.sh", 6, 200),
    ]);
    assert_eq!(
        render(&p),
        "main;work;job.sh:5 100\nmain;work;job.sh:6 200\n"
    );
}

#[test]
fn file_paths_are_reduced_to_basenames_in_frames() {
    let p = profile_with(vec![sample(&["main"], "/opt/ci/steps/build.sh", 12, 7)]);
    assert_eq!(render(&p), "main;build.sh:12 7\n");
}

#[test]
fn structural_characters_in_frame_names_are_sanitized() {
    let p = profile_with(vec![sample(&["main", "odd;name x"], "a b.sh", 1, 9)]);
    assert_eq!(render(&p), "main;odd:name_x;a_b.sh:1 9\n");
}

#[test]
fn zero_value_stacks_are_kept() {
    let p = profile_with(vec![sample(&["main"], "job.sh", 1, 0)]);
    assert_eq!(render(&p), "main;job.sh:1 0\n");
}

#[test]
fn empty_profile_renders_empty_output() {
    assert_eq!(render(&profile_with(vec![])), "");
}

// ---------------------------------------------------------------------

#[test]
fn merged_totals_that_overflow_are_refused() {
    let p = profile_with(vec![
        sample(&["main"], "job.sh", 1, u64::MAX),
        sample(&["main"], "job.sh", 1, 1),
    ]);
    assert_eq!(try_render(&p), None);
    let q = profile_with(vec![
        sample(&["main"], "job.sh", 1, u64::MAX - 1),
        sample(&["main"], "job.sh", 1, 1),
    ]);
    assert_eq!(try_render(&q), Some(format!("main;job.sh:1 {}\n", u64::MAX)));
}

#[test]
fn collapsed_rows_sum_to_the_total_self_time() {
    let p = profile_with(vec![
        sample(&["main", "b"], "x.sh", 3, 5),
        sample(&["main", "a"], "x.sh", 3, 7),
        sample(&["main", "b"], "x.sh", 3, 11),
        sample(&["main"], "dir/x.sh", 4, 13),
    ]);
    let out = render(&p);
    assert_eq!(out, "main;a;x.sh:3 7\nmain;b;x.sh:3 16\nmain;x.sh:4 13\n");
    let total: u64 = out
        .lines()
        .map(|l| l.rsplit(' ').next().unwrap().parse::<u64>().unwrap())
        .sum();
    assert_eq!(total, 5 + 7 + 11 + 13);
}
