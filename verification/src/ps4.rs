//! Trace instrumentation: the `PS4` prompt and the bash bootstrap.
//!
//! bash's xtrace mode (`set -x`) prints every simple command, prefixed by
//! the expansion of `PS4`. `PS4` undergoes parameter expansion at trace
//! time, so it can embed `$EPOCHREALTIME`, `$BASH_SOURCE`, `$LINENO` and
//! `$FUNCNAME`; `BASH_XTRACEFD` routes the trace to a private descriptor so
//! the script's own stderr stays untouched. Fields are separated by the
//! ASCII unit separator (0x1F).

use vstd::prelude::*;
use crate::text::{dec, push_char, push_dec, push_str};

verus! {

/// ASCII unit separator: the field delimiter inside trace lines.
pub const FIELD_SEP: char = '\u{1f}';

/// Environment variable through which the bootstrap learns the trace path.
pub const TRACE_ENV: &'static str = "BASHPROF_TRACE";

/// Prefix used by the bootstrap's internal function and variables so the
/// parser can filter them out of the profile.
pub const INTERNAL_PREFIX: &'static str = "__bashprof";

/// File descriptor the bootstrap dedicates to the trace stream.
pub const TRACE_FD: u32 = 9;

/// The characters of `INTERNAL_PREFIX`.
pub open spec fn internal_prefix() -> Seq<char> {
    seq!['_', '_', 'b', 'a', 's', 'h', 'p', 'r', 'o', 'f']
}


/// The `PS4` value: `+ US ts US source US lineno US funcname US funcdepth US`.
pub open spec fn ps4_text() -> Seq<char> {
    seq!['+', FIELD_SEP] + "${EPOCHREALTIME}"@ + seq![FIELD_SEP] + "${BASH_SOURCE[0]:-}"@ + seq![FIELD_SEP]
        + "${LINENO}"@ + seq![FIELD_SEP] + "${FUNCNAME[0]:-}"@ + seq![FIELD_SEP]
        + "${FUNCNAME[@]+${#FUNCNAME[@]}}"@ + seq![FIELD_SEP]
}

/// Build the `PS4` value.
///
/// After the leading `+`, which bash repeats once per subshell level, come
/// the timestamp, source file, line number, function name and frame count,
/// each followed by a separator; the traced command follows the final one.
/// The frame count is guarded with `${FUNCNAME[@]+...}` so `set -u` scripts
/// survive the top level, where `FUNCNAME` is unset.
pub fn ps4_value() -> (s: String)
    ensures
        s@ == ps4_text(),
{
    let mut s = String::new();
    push_char(&mut s, '+');
    push_char(&mut s, FIELD_SEP);
    push_str(&mut s, "${EPOCHREALTIME}");
    push_char(&mut s, FIELD_SEP);
    push_str(&mut s, "${BASH_SOURCE[0]:-}");
    push_char(&mut s, FIELD_SEP);
    push_str(&mut s, "${LINENO}");
    push_char(&mut s, FIELD_SEP);
    push_str(&mut s, "${FUNCNAME[0]:-}");
    push_char(&mut s, FIELD_SEP);
    push_str(&mut s, "${FUNCNAME[@]+${#FUNCNAME[@]}}");
    push_char(&mut s, FIELD_SEP);
    assert(s@ =~= ps4_text());
    s
}

/// The bootstrap program passed to `bash -c`.
pub open spec fn bootstrap_text() -> Seq<char> {
    let p = INTERNAL_PREFIX@;
    let fd = dec(TRACE_FD as nat);
    let env = TRACE_ENV@;
    p + "_finish() {\n  local "@ + p + "_rc=$?\n  { set +x; } 2>/dev/null\n  printf '"@
        + seq![FIELD_SEP] + "END"@ + seq![FIELD_SEP] + "%s"@ + seq![FIELD_SEP]
        + "%s\\n' \"$EPOCHREALTIME\" \"$"@ + p + "_rc\" >&"@ + fd
        + " 2>/dev/null || true\n  exit \"$"@ + p + "_rc\"\n}\nexec "@ + fd + ">>\"$"@ + env
        + "\" || exit 127\nBASH_XTRACEFD="@ + fd + "\nPS4='"@ + ps4_text() + "'\nunset "@ + env
        + "\nprintf '"@ + seq![FIELD_SEP] + "START"@ + seq![FIELD_SEP] + "%s"@ + seq![FIELD_SEP]
        + "%s\\n' \"$EPOCHREALTIME\" \"$0\" >&"@ + fd + "\ntrap "@ + p + "_finish EXIT\nset -x\n. \"$0\"\n"@
}

/// Build the bootstrap program passed to `bash -c`.
///
/// It is invoked as `bash -c <bootstrap> <script> [args...]`, so `$0` is
/// the target script path and `$@` are its arguments. The bootstrap opens
/// the trace file on fd 9 and points `BASH_XTRACEFD` at it, assigns `PS4`
/// inside the shell (bash ignores an environment `PS4` when running as
/// root), unsets the trace variable, writes a `START` record, installs an
/// EXIT trap that writes the `END` record with the exit code, enables
/// `set -x` and sources the script.
pub fn bootstrap() -> (s: String)
    ensures
        s@ == bootstrap_text(),
{
    let mut s = String::new();
    push_str(&mut s, INTERNAL_PREFIX);
    push_str(&mut s, "_finish() {\n  local ");
    push_str(&mut s, INTERNAL_PREFIX);
    push_str(&mut s, "_rc=$?\n  { set +x; } 2>/dev/null\n  printf '");
    push_char(&mut s, FIELD_SEP);
    push_str(&mut s, "END");
    push_char(&mut s, FIELD_SEP);
    push_str(&mut s, "%s");
    push_char(&mut s, FIELD_SEP);
    push_str(&mut s, "%s\\n' \"$EPOCHREALTIME\" \"$");
    push_str(&mut s, INTERNAL_PREFIX);
    push_str(&mut s, "_rc\" >&");
    push_dec(&mut s, TRACE_FD as u64);
    push_str(&mut s, " 2>/dev/null || true\n  exit \"$");
    push_str(&mut s, INTERNAL_PREFIX);
    push_str(&mut s, "_rc\"\n}\nexec ");
    push_dec(&mut s, TRACE_FD as u64);
    push_str(&mut s, ">>\"$");
    push_str(&mut s, TRACE_ENV);
    push_str(&mut s, "\" || exit 127\nBASH_XTRACEFD=");
    push_dec(&mut s, TRACE_FD as u64);
    push_str(&mut s, "\nPS4='");
    let ps4 = ps4_value();
    push_str(&mut s, ps4.as_str());
    push_str(&mut s, "'\nunset ");
    push_str(&mut s, TRACE_ENV);
    push_str(&mut s, "\nprintf '");
    push_char(&mut s, FIELD_SEP);
    push_str(&mut s, "START");
    push_char(&mut s, FIELD_SEP);
    push_str(&mut s, "%s");
    push_char(&mut s, FIELD_SEP);
    push_str(&mut s, "%s\\n' \"$EPOCHREALTIME\" \"$0\" >&");
    push_dec(&mut s, TRACE_FD as u64);
    push_str(&mut s, "\ntrap ");
    push_str(&mut s, INTERNAL_PREFIX);
    push_str(&mut s, "_finish EXIT\nset -x\n. \"$0\"\n");
    assert(s@ =~= bootstrap_text());
    s
}

} // verus!
