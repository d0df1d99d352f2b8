use bashprof::ps4::{bootstrap, ps4_value, FIELD_SEP, TRACE_ENV, TRACE_FD};

#[test]
fn ps4_layout_plus_prefix_five_fields_trailing_separator() {
    let ps4 = ps4_value();
    assert!(ps4.starts_with('+'));
    assert!(ps4.ends_with(FIELD_SEP));
    let idx = |needle: &str| {
        ps4.find(needle)
            .unwrap_or_else(|| panic!("missing {needle}"))
    };
    let ts = idx("${EPOCHREALTIME}");
    let src = idx("${BASH_SOURCE[0]:-}");
    let line = idx("${LINENO}");
    let func = idx("${FUNCNAME[0]:-}");
    let depth = idx("${FUNCNAME[@]+${#FUNCNAME[@]}}");
    assert!(ts < src && src < line && line < func && func < depth);
}

#[test]
fn ps4_is_ifs_proof_and_set_u_safe() {
    let ps4 = ps4_value();
    assert!(!ps4.contains("FUNCNAME[*]"));
    assert!(ps4.contains("${FUNCNAME[0]:-}"));
    assert!(ps4.contains("${FUNCNAME[@]+"));
}

#[test]
fn bootstrap_sources_the_script_traps_exit_and_fails_loudly() {
    let b = bootstrap();
    assert!(b.contains(". \"$0\""), "must source, not exec, the script");
    assert!(b.contains("trap __bashprof_finish EXIT"));
    assert!(b.contains("set -x"));
    assert!(b.contains("BASH_XTRACEFD=9"));
    assert!(b.contains("|| exit 127"));
}

#[test]
fn bootstrap_unsets_the_trace_env_before_running_user_code() {
    let b = bootstrap();
    let unset = b.find("unset BASHPROF_TRACE").expect("must unset");
    let set_x = b.find("set -x").expect("must set -x");
    assert!(unset < set_x);
}

#[test]
fn bootstrap_assigns_ps4_in_shell_not_via_environment() {
    let b = bootstrap();
    assert!(!ps4_value().contains('\''));
    assert!(b.contains(&format!("PS4='{}'", ps4_value())));
}

// ---------------------------------------------------------------------

#[test]
fn ps4_value_is_exact() {
    assert_eq!(
        ps4_value(),
        "+\u{1f}${EPOCHREALTIME}\u{1f}${BASH_SOURCE[0]:-}\u{1f}${LINENO}\u{1f}${FUNCNAME[0]:-}\u{1f}${FUNCNAME[@]+${#FUNCNAME[@]}}\u{1f}"
    );
    assert_eq!(ps4_value().split(FIELD_SEP).count(), 7);
}

#[test]
fn bootstrap_uses_the_trace_fd_and_env() {
    let b = bootstrap();
    assert_eq!(TRACE_FD, 9);
    assert!(b.contains(&format!("exec {TRACE_FD}>>\"${TRACE_ENV}\" || exit 127")));
    assert!(b.starts_with("__bashprof_finish() {\n  local __bashprof_rc=$?\n"));
    assert!(b.ends_with("trap __bashprof_finish EXIT\nset -x\n. \"$0\"\n"));
    assert!(b.contains("printf '\u{1f}END\u{1f}%s\u{1f}%s\\n' \"$EPOCHREALTIME\" \"$__bashprof_rc\" >&9"));
    assert!(b.contains("printf '\u{1f}START\u{1f}%s\u{1f}%s\\n' \"$EPOCHREALTIME\" \"$0\" >&9"));
}
