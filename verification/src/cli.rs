//! Command-line surface: parsing of the argument vector, and the pieces of
//! the commands that decide rather than do input and output.
//!
//! Exit codes: `2` for usage errors, `1` for runtime failures, and for
//! `bashprof run` the profiled script's own exit code is passed through.

use vstd::prelude::*;
use crate::jsonout::json_text;
use crate::profile::Profile;
use crate::report::{report_text, sort_key_of, Options, SortKey};
use crate::trace::{opt_text, Trace, TraceV};
use crate::text::{chars_eq, parse_unsigned, parse_unsigned_range, push_str, texts, to_chars};

verus! {

pub const USAGE: &'static str = "\
bashprof — line-level time profiler for bash scripts

USAGE:
    bashprof <COMMAND> [OPTIONS]

COMMANDS:
    run        Profile a script:  bashprof run [OPTIONS] [--] <script> [args...]
    report     Analyze a saved trace:  bashprof report [OPTIONS] <trace>
    collapse   Flamegraph-ready collapsed stacks from a trace
    annotate   Print script source annotated with per-line time

OPTIONS (run):
    --shell <PATH>   bash binary to profile with (default: bash from PATH)
    --out <FILE>     keep the raw trace at FILE for later report/collapse/annotate

OPTIONS (run, report):
    --top <N>        rows in the hot-line table (default 15, 0 = all)
    --sort <KEY>     self | count | line (default: self)
    --min-us <N>     hide lines with less than N microseconds of self-time
    --json           machine-readable JSON instead of the table

OPTIONS (annotate):
    --script <FILE>  source file to annotate (default: the traced script)

GLOBAL:
    -h, --help       show this help
    -V, --version    show version

`bashprof run` exits with the profiled script's exit code.
";

/// A fully parsed invocation. Paths are kept as the text the user gave.
#[derive(Debug, PartialEq)]
pub enum Action {
    Help,
    Version,
    Run {
        shell: String,
        out: Option<String>,
        opts: Options,
        json: bool,
        script: String,
        args: Vec<String>,
    },
    Report { trace: String, opts: Options, json: bool },
    Collapse { trace: String },
    Annotate { trace: String, script: Option<String> },
}

pub enum ActionV {
    Help,
    Version,
    Run {
        shell: Seq<char>,
        out: Option<Seq<char>>,
        opts: Options,
        json: bool,
        script: Seq<char>,
        args: Seq<Seq<char>>,
    },
    Report { trace: Seq<char>, opts: Options, json: bool },
    Collapse { trace: Seq<char> },
    Annotate { trace: Seq<char>, script: Option<Seq<char>> },
}

impl View for Action {
    type V = ActionV;

    open spec fn view(&self) -> ActionV {
        match self {
            Action::Help => ActionV::Help,
            Action::Version => ActionV::Version,
            Action::Run { shell, out, opts, json, script, args } => ActionV::Run {
                shell: shell@,
                out: opt_text(*out),
                opts: *opts,
                json: *json,
                script: script@,
                args: texts(args@),
            },
            Action::Report { trace, opts, json } => ActionV::Report {
                trace: trace@,
                opts: *opts,
                json: *json,
            },
            Action::Collapse { trace } => ActionV::Collapse { trace: trace@ },
            Action::Annotate { trace, script } => ActionV::Annotate {
                trace: trace@,
                script: opt_text(*script),
            },
        }
    }
}

pub open spec fn result_view(r: Result<Action, String>) -> Result<ActionV, Seq<char>> {
    match r {
        Ok(a) => Ok(a@),
        Err(e) => Err(e@),
    }
}

// ---------------------------------------------------------------------
// The grammar, stated over the argument texts
// ---------------------------------------------------------------------

pub open spec fn is_option(arg: Seq<char>) -> bool {
    arg.len() > 0 && arg[0] == '-'
}

pub open spec fn requires_value(flag: Seq<char>) -> Seq<char> {
    flag + " requires a value"@
}

pub open spec fn not_a_number(flag: Seq<char>, v: Seq<char>) -> Seq<char> {
    flag + ": '"@ + v + "' is not a number"@
}

pub open spec fn unknown_option(cmd: Seq<char>, arg: Seq<char>) -> Seq<char> {
    cmd + ": unknown option '"@ + arg + "'"@
}

/// What an option shared by `run` and `report` does at position `i`: not
/// one of them; taken, giving the new options and JSON flag and whether it
/// consumed a value; or an error.
pub enum SharedV {
    NotShared,
    Taken(Options, bool, bool),
    Fail(Seq<char>),
}

/// How many arguments a taken option spans.
pub open spec fn width(valued: bool) -> int {
    if valued {
        2
    } else {
        1
    }
}

pub open spec fn shared_opt(a: Seq<Seq<char>>, i: int, opts: Options, json: bool) -> SharedV {
    let arg = a[i];
    if arg == "--top"@ {
        if i + 1 < a.len() {
            match parse_unsigned(a[i + 1], usize::MAX as nat) {
                Some(n) => SharedV::Taken(Options { top: n as usize, ..opts }, json, true),
                None => SharedV::Fail(not_a_number("--top"@, a[i + 1])),
            }
        } else {
            SharedV::Fail(requires_value("--top"@))
        }
    } else if arg == "--sort"@ {
        if i + 1 < a.len() {
            match sort_key_of(a[i + 1]) {
                Some(k) => SharedV::Taken(Options { sort: k, ..opts }, json, true),
                None => SharedV::Fail("--sort: '"@ + a[i + 1] + "' is not one of self|count|line"@),
            }
        } else {
            SharedV::Fail(requires_value("--sort"@))
        }
    } else if arg == "--min-us"@ {
        if i + 1 < a.len() {
            match parse_unsigned(a[i + 1], u64::MAX as nat) {
                Some(n) => SharedV::Taken(Options { min_us: n as u64, ..opts }, json, true),
                None => SharedV::Fail(not_a_number("--min-us"@, a[i + 1])),
            }
        } else {
            SharedV::Fail(requires_value("--min-us"@))
        }
    } else if arg == "--json"@ {
        SharedV::Taken(opts, true, false)
    } else {
        SharedV::NotShared
    }
}

pub open spec fn default_options() -> Options {
    Options { top: 15, sort: SortKey::SelfTime, min_us: 0 }
}

/// The state `run` starts its scan in.
pub open spec fn run_start() -> RunState {
    RunState {
        shell: "bash"@,
        out: None,
        opts: default_options(),
        json: false,
        script: None,
        args: Seq::empty(),
    }
}

pub struct RunState {
    pub shell: Seq<char>,
    pub out: Option<Seq<char>>,
    pub opts: Options,
    pub json: bool,
    pub script: Option<Seq<char>>,
    pub args: Seq<Seq<char>>,
}

/// `run` from position `i` on, in state `st`.
pub open spec fn run_from(a: Seq<Seq<char>>, i: int, st: RunState) -> Result<ActionV, Seq<char>>
    decreases a.len() - i,
{
    if i >= a.len() || i < 0 {
        match st.script {
            Some(script) => Ok(
                ActionV::Run {
                    shell: st.shell,
                    out: st.out,
                    opts: st.opts,
                    json: st.json,
                    script,
                    args: st.args,
                },
            ),
            None => Err("run: missing <script> (usage: bashprof run [OPTIONS] [--] <script> [args...])"@),
        }
    } else if st.script is Some {
        // Everything after the script belongs to the script.
        run_from(a, i + 1, RunState { args: st.args.push(a[i]), ..st })
    } else if a[i] == "--"@ {
        if i + 1 < a.len() {
            run_from(a, i + 2, RunState { script: Some(a[i + 1]), ..st })
        } else {
            Err("run: missing <script> after --"@)
        }
    } else {
        match shared_opt(a, i, st.opts, st.json) {
            SharedV::Fail(e) => Err(e),
            SharedV::Taken(opts, json, valued) => run_from(a, i + width(valued), RunState { opts, json, ..st }),
            SharedV::NotShared => if a[i] == "--shell"@ {
                if i + 1 < a.len() {
                    run_from(a, i + 2, RunState { shell: a[i + 1], ..st })
                } else {
                    Err(requires_value("--shell"@))
                }
            } else if a[i] == "--out"@ {
                if i + 1 < a.len() {
                    run_from(a, i + 2, RunState { out: Some(a[i + 1]), ..st })
                } else {
                    Err(requires_value("--out"@))
                }
            } else if is_option(a[i]) {
                Err(unknown_option("run"@, a[i]))
            } else {
                run_from(a, i + 1, RunState { script: Some(a[i]), ..st })
            },
        }
    }
}

/// `report` from position `i` on.
pub open spec fn report_from(
    a: Seq<Seq<char>>,
    i: int,
    opts: Options,
    json: bool,
    trace: Option<Seq<char>>,
) -> Result<ActionV, Seq<char>>
    decreases a.len() - i,
{
    if i >= a.len() || i < 0 {
        match trace {
            Some(t) => Ok(ActionV::Report { trace: t, opts, json }),
            None => Err("report: missing <trace>"@),
        }
    } else {
        match shared_opt(a, i, opts, json) {
            SharedV::Fail(e) => Err(e),
            SharedV::Taken(o, j, valued) => report_from(a, i + width(valued), o, j, trace),
            SharedV::NotShared => if is_option(a[i]) {
                Err(unknown_option("report"@, a[i]))
            } else if trace is Some {
                Err("report: takes exactly one <trace>"@)
            } else {
                report_from(a, i + 1, opts, json, Some(a[i]))
            },
        }
    }
}

/// `annotate` from position `i` on.
pub open spec fn annotate_from(
    a: Seq<Seq<char>>,
    i: int,
    script: Option<Seq<char>>,
    trace: Option<Seq<char>>,
) -> Result<ActionV, Seq<char>>
    decreases a.len() - i,
{
    if i >= a.len() || i < 0 {
        match trace {
            Some(t) => Ok(ActionV::Annotate { trace: t, script }),
            None => Err("annotate: missing <trace>"@),
        }
    } else if a[i] == "--script"@ {
        if i + 1 < a.len() {
            annotate_from(a, i + 2, Some(a[i + 1]), trace)
        } else {
            Err(requires_value("--script"@))
        }
    } else if is_option(a[i]) {
        Err(unknown_option("annotate"@, a[i]))
    } else if trace is Some {
        Err("annotate: takes exactly one <trace>"@)
    } else {
        annotate_from(a, i + 1, script, Some(a[i]))
    }
}

/// Exactly one positional argument from position `i` on, no options.
pub open spec fn one_positional_from(
    a: Seq<Seq<char>>,
    i: int,
    cmd: Seq<char>,
    name: Seq<char>,
    pos: Option<Seq<char>>,
) -> Result<Seq<char>, Seq<char>>
    decreases a.len() - i,
{
    if i >= a.len() || i < 0 {
        match pos {
            Some(p) => Ok(p),
            None => Err(cmd + ": missing "@ + name),
        }
    } else if is_option(a[i]) {
        Err(unknown_option(cmd, a[i]))
    } else if pos is Some {
        Err(cmd + ": takes exactly one "@ + name)
    } else {
        one_positional_from(a, i + 1, cmd, name, Some(a[i]))
    }
}

/// What an argument vector (without the program name) asks for.
pub open spec fn parse_args(a: Seq<Seq<char>>) -> Result<ActionV, Seq<char>> {
    if a.len() == 0 {
        Ok(ActionV::Help)
    } else {
        let cmd = a[0];
        if cmd == "-h"@ || cmd == "--help"@ || cmd == "help"@ {
            Ok(ActionV::Help)
        } else if cmd == "-V"@ || cmd == "--version"@ || cmd == "version"@ {
            Ok(ActionV::Version)
        } else if cmd == "run"@ {
            run_from(a, 1, run_start())
        } else if cmd == "report"@ {
            report_from(a, 1, default_options(), false, None)
        } else if cmd == "collapse"@ {
            match one_positional_from(a, 1, "collapse"@, "<trace>"@, None) {
                Ok(t) => Ok(ActionV::Collapse { trace: t }),
                Err(e) => Err(e),
            }
        } else if cmd == "annotate"@ {
            annotate_from(a, 1, None, None)
        } else {
            Err("unknown command '"@ + cmd + "' (see bashprof --help)"@)
        }
    }
}

// ---------------------------------------------------------------------
// Parsing
// ---------------------------------------------------------------------

fn is(arg: &String, w: &str) -> (r: bool)
    ensures
        r == (arg@ == w@),
{
    let a = to_chars(arg.as_str());
    let b = to_chars(w);
    chars_eq(&a, &b)
}

fn dash(arg: &String) -> (r: bool)
    ensures
        r == is_option(arg@),
{
    let a = to_chars(arg.as_str());
    a.len() > 0 && a[0] == '-'
}

fn text(s: &str) -> (r: String)
    ensures
        r@ == s@,
{
    let mut r = String::new();
    push_str(&mut r, s);
    r
}

fn concat3(a: &str, b: &str, c: &str) -> (r: String)
    ensures
        r@ == a@ + b@ + c@,
{
    let mut r = String::new();
    push_str(&mut r, a);
    push_str(&mut r, b);
    push_str(&mut r, c);
    r
}

fn requires_value_msg(flag: &str) -> (r: String)
    ensures
        r@ == requires_value(flag@),
{
    let mut r = String::new();
    push_str(&mut r, flag);
    push_str(&mut r, " requires a value");
    r
}

fn not_a_number_msg(flag: &str, v: &str) -> (r: String)
    ensures
        r@ == not_a_number(flag@, v@),
{
    let mut r = String::new();
    push_str(&mut r, flag);
    push_str(&mut r, ": '");
    push_str(&mut r, v);
    push_str(&mut r, "' is not a number");
    r
}

fn unknown_option_msg(cmd: &str, arg: &str) -> (r: String)
    ensures
        r@ == unknown_option(cmd@, arg@),
{
    let mut r = String::new();
    push_str(&mut r, cmd);
    push_str(&mut r, ": unknown option '");
    push_str(&mut r, arg);
    push_str(&mut r, "'");
    r
}

/// The outcome of an option shared by `run` and `report`.
enum Shared {
    NotShared,
    Taken(Options, bool, bool),
    Fail(String),
}

spec fn shared_view(s: Shared) -> SharedV {
    match s {
        Shared::NotShared => SharedV::NotShared,
        Shared::Taken(o, j, v) => SharedV::Taken(o, j, v),
        Shared::Fail(e) => SharedV::Fail(e@),
    }
}

fn parse_number(v: &String, max: u64) -> (r: Option<u64>)
    ensures
        r matches Some(n) ==> parse_unsigned(v@, max as nat) == Some(n as nat),
        r is None ==> parse_unsigned(v@, max as nat) is None,
{
    let cs = to_chars(v.as_str());
    assert(cs@.subrange(0, cs@.len() as int) =~= cs@);
    parse_unsigned_range(&cs, 0, cs.len(), max)
}

fn shared(args: &[String], i: usize, opts: Options, json: bool) -> (r: Shared)
    requires
        i < args@.len(),
    ensures
        shared_view(r) == shared_opt(texts(args@), i as int, opts, json),
        r matches Shared::Taken(_, _, v) ==> i + width(v) <= args@.len(),
{
    let ghost a = texts(args@);
    let n = args.len();
    assert(a[i as int] == args@[i as int]@);
    if is(&args[i], "--top") {
        if i + 1 < n {
            assert(a[i + 1] == args@[i + 1]@);
            match parse_number(&args[i + 1], usize::MAX as u64) {
                Some(v) => Shared::Taken(Options { top: v as usize, ..opts }, json, true),
                None => Shared::Fail(not_a_number_msg("--top", args[i + 1].as_str())),
            }
        } else {
            Shared::Fail(requires_value_msg("--top"))
        }
    } else if is(&args[i], "--sort") {
        if i + 1 < n {
            assert(a[i + 1] == args@[i + 1]@);
            match SortKey::parse(args[i + 1].as_str()) {
                Some(k) => Shared::Taken(Options { sort: k, ..opts }, json, true),
                None => Shared::Fail(
                    concat3("--sort: '", args[i + 1].as_str(), "' is not one of self|count|line"),
                ),
            }
        } else {
            Shared::Fail(requires_value_msg("--sort"))
        }
    } else if is(&args[i], "--min-us") {
        if i + 1 < n {
            assert(a[i + 1] == args@[i + 1]@);
            match parse_number(&args[i + 1], u64::MAX) {
                Some(v) => Shared::Taken(Options { min_us: v, ..opts }, json, true),
                None => Shared::Fail(not_a_number_msg("--min-us", args[i + 1].as_str())),
            }
        } else {
            Shared::Fail(requires_value_msg("--min-us"))
        }
    } else if is(&args[i], "--json") {
        Shared::Taken(opts, true, false)
    } else {
        Shared::NotShared
    }
}

spec fn run_state(
    shell: String,
    out: Option<String>,
    opts: Options,
    json: bool,
    script: Option<String>,
    args: Seq<String>,
) -> RunState {
    RunState {
        shell: shell@,
        out: opt_text(out),
        opts,
        json,
        script: opt_text(script),
        args: texts(args),
    }
}

fn parse_run(args: &[String]) -> (r: Result<Action, String>)
    requires
        args@.len() >= 1,
    ensures
        result_view(r) == run_from(texts(args@), 1, run_start()),
{
    let ghost a = texts(args@);
    let n = args.len();
    let mut shell = text("bash");
    let mut out: Option<String> = None;
    let mut opts = Options::default();
    let mut json = false;
    let mut script: Option<String> = None;
    let mut rest: Vec<String> = Vec::new();
    assert(texts(rest@) =~= Seq::<Seq<char>>::empty());
    assert(run_state(shell, out, opts, json, script, rest@) == run_start());
    let mut i: usize = 1;
    while i < n
        invariant
            1 <= i <= n == args@.len(),
            a == texts(args@),
            run_from(a, 1, run_start()) == run_from(a, i as int, run_state(shell, out, opts, json, script, rest@)),
        decreases n - i,
    {
        assert(a[i as int] == args@[i as int]@);
        if script.is_some() {
            let ghost before = rest@;
            rest.push(args[i].clone());
            assert(texts(rest@) =~= texts(before).push(a[i as int]));
            i += 1;
            continue;
        }
        if is(&args[i], "--") {
            if i + 1 < n {
                assert(a[i + 1] == args@[i + 1]@);
                script = Some(args[i + 1].clone());
                i += 2;
                continue;
            } else {
                return Err(text("run: missing <script> after --"));
            }
        }
        match shared(args, i, opts, json) {
            Shared::Fail(e) => {
                return Err(e);
            },
            Shared::Taken(o, j, valued) => {
                opts = o;
                json = j;
                i = if valued {
                    i + 2
                } else {
                    i + 1
                };
                continue;
            },
            Shared::NotShared => {},
        }
        if is(&args[i], "--shell") {
            if i + 1 < n {
                assert(a[i + 1] == args@[i + 1]@);
                shell = args[i + 1].clone();
                i += 2;
            } else {
                return Err(requires_value_msg("--shell"));
            }
        } else if is(&args[i], "--out") {
            if i + 1 < n {
                assert(a[i + 1] == args@[i + 1]@);
                out = Some(args[i + 1].clone());
                i += 2;
            } else {
                return Err(requires_value_msg("--out"));
            }
        } else if dash(&args[i]) {
            return Err(unknown_option_msg("run", args[i].as_str()));
        } else {
            script = Some(args[i].clone());
            i += 1;
        }
    }
    match script {
        Some(s) => Ok(Action::Run { shell, out, opts, json, script: s, args: rest }),
        None => Err(text("run: missing <script> (usage: bashprof run [OPTIONS] [--] <script> [args...])")),
    }
}

fn parse_report(args: &[String]) -> (r: Result<Action, String>)
    requires
        args@.len() >= 1,
    ensures
        result_view(r) == report_from(texts(args@), 1, default_options(), false, None),
{
    let ghost a = texts(args@);
    let n = args.len();
    let mut opts = Options::default();
    let mut json = false;
    let mut trace: Option<String> = None;

    let mut i: usize = 1;
    while i < n
        invariant
            1 <= i <= n == args@.len(),
            a == texts(args@),
            report_from(a, 1, default_options(), false, None) == report_from(a, i as int, opts, json, opt_text(trace)),
        decreases n - i,
    {
        assert(a[i as int] == args@[i as int]@);
        match shared(args, i, opts, json) {
            Shared::Fail(e) => {
                return Err(e);
            },
            Shared::Taken(o, j, valued) => {
                opts = o;
                json = j;
                i = if valued {
                    i + 2
                } else {
                    i + 1
                };
                continue;
            },
            Shared::NotShared => {},
        }
        if dash(&args[i]) {
            return Err(unknown_option_msg("report", args[i].as_str()));
        }
        if trace.is_some() {
            return Err(text("report: takes exactly one <trace>"));
        }
        trace = Some(args[i].clone());
        i += 1;
    }
    match trace {
        Some(t) => Ok(Action::Report { trace: t, opts, json }),
        None => Err(text("report: missing <trace>")),
    }
}

fn parse_annotate(args: &[String]) -> (r: Result<Action, String>)
    requires
        args@.len() >= 1,
    ensures
        result_view(r) == annotate_from(texts(args@), 1, None, None),
{
    let ghost a = texts(args@);
    let n = args.len();
    let mut script: Option<String> = None;
    let mut trace: Option<String> = None;

    let mut i: usize = 1;
    while i < n
        invariant
            1 <= i <= n == args@.len(),
            a == texts(args@),
            annotate_from(a, 1, None, None) == annotate_from(a, i as int, opt_text(script), opt_text(trace)),
        decreases n - i,
    {
        assert(a[i as int] == args@[i as int]@);
        if is(&args[i], "--script") {
            if i + 1 < n {
                assert(a[i + 1] == args@[i + 1]@);
                script = Some(args[i + 1].clone());
                i += 2;
            } else {
                return Err(requires_value_msg("--script"));
            }
        } else if dash(&args[i]) {
            return Err(unknown_option_msg("annotate", args[i].as_str()));
        } else if trace.is_some() {
            return Err(text("annotate: takes exactly one <trace>"));
        } else {
            trace = Some(args[i].clone());
            i += 1;
        }
    }
    match trace {
        Some(t) => Ok(Action::Annotate { trace: t, script }),
        None => Err(text("annotate: missing <trace>")),
    }
}

fn one_positional(args: &[String], cmd: &str, name: &str) -> (r: Result<String, String>)
    requires
        args@.len() >= 1,
    ensures
        match r {
            Ok(p) => one_positional_from(texts(args@), 1, cmd@, name@, None) == Ok::<Seq<char>, Seq<char>>(p@),
            Err(e) => one_positional_from(texts(args@), 1, cmd@, name@, None) == Err::<Seq<char>, Seq<char>>(e@),
        },
{
    let ghost a = texts(args@);
    let n = args.len();
    let mut pos: Option<String> = None;

    let mut i: usize = 1;
    while i < n
        invariant
            1 <= i <= n == args@.len(),
            a == texts(args@),
            one_positional_from(a, 1, cmd@, name@, None) == one_positional_from(a, i as int, cmd@, name@, opt_text(pos)),
        decreases n - i,
    {
        assert(a[i as int] == args@[i as int]@);
        if dash(&args[i]) {
            return Err(unknown_option_msg(cmd, args[i].as_str()));
        }
        if pos.is_some() {
            let mut e = String::new();
            push_str(&mut e, cmd);
            push_str(&mut e, ": takes exactly one ");
            push_str(&mut e, name);
            return Err(e);
        }
        pos = Some(args[i].clone());
        i += 1;
    }
    match pos {
        Some(p) => Ok(p),
        None => {
            let mut e = String::new();
            push_str(&mut e, cmd);
            push_str(&mut e, ": missing ");
            push_str(&mut e, name);
            Err(e)
        },
    }
}

/// Parse an argument vector (without the program name).
pub fn parse(args: &[String]) -> (r: Result<Action, String>)
    ensures
        result_view(r) == parse_args(texts(args@)),
{
    let ghost a = texts(args@);
    if args.len() == 0 {
        return Ok(Action::Help);
    }
    let cmd = &args[0];
    assert(a[0] == cmd@);
    if is(cmd, "-h") || is(cmd, "--help") || is(cmd, "help") {
        Ok(Action::Help)
    } else if is(cmd, "-V") || is(cmd, "--version") || is(cmd, "version") {
        Ok(Action::Version)
    } else if is(cmd, "run") {
        parse_run(args)
    } else if is(cmd, "report") {
        parse_report(args)
    } else if is(cmd, "collapse") {
        match one_positional(args, "collapse", "<trace>") {
            Ok(t) => Ok(Action::Collapse { trace: t }),
            Err(e) => Err(e),
        }
    } else if is(cmd, "annotate") {
        parse_annotate(args)
    } else {
        Err(concat3("unknown command '", cmd.as_str(), "' (see bashprof --help)"))
    }
}

// ---------------------------------------------------------------------
// What the commands decide
// ---------------------------------------------------------------------

/// A file with neither events nor a `START` record is not a bashprof trace.
pub open spec fn looks_like_trace(t: TraceV) -> bool {
    t.events.len() > 0 || t.start_us is Some
}

pub open spec fn not_a_trace_text(name: Seq<char>) -> Seq<char> {
    name + " does not look like a bashprof trace (no events, no START record)"@
}

/// Accept a parsed trace for profiling, or refuse it; `name` is how the
/// file is shown in the error.
pub fn check_trace(name: &str, t: &Trace) -> (r: Result<(), String>)
    ensures
        r is Ok <==> looks_like_trace(t@),
        r matches Err(e) ==> e@ == not_a_trace_text(name@),
{
    if t.events.len() == 0 && t.start_us.is_none() {
        let mut e = String::new();
        push_str(&mut e, name);
        push_str(&mut e, " does not look like a bashprof trace (no events, no START record)");
        Err(e)
    } else {
        Ok(())
    }
}

/// The text `report` and `run` print: the JSON document or the table.
pub fn profile_text(p: &Profile, opts: &Options, json: bool) -> (r: String)
    ensures
        r@ == (if json {
            json_text(p@)
        } else {
            report_text(p@, *opts)
        }),
{
    if json {
        crate::jsonout::render(p)
    } else {
        crate::report::render(p, opts)
    }
}

/// The file `annotate` lists: the one given with `--script`, else the
/// script the trace recorded.
pub open spec fn annotate_target_of(script: Option<Seq<char>>, recorded: Option<Seq<char>>) -> Result<
    Seq<char>,
    Seq<char>,
> {
    match script {
        Some(s) => Ok(s),
        None => match recorded {
            Some(s) => Ok(s),
            None => Err("trace has no recorded script path; pass --script <FILE>"@),
        },
    }
}

/// Pick the file to annotate.
pub fn annotate_target(script: Option<String>, p: &Profile) -> (r: Result<String, String>)
    ensures
        (match r {
            Ok(s) => Ok::<Seq<char>, Seq<char>>(s@),
            Err(e) => Err(e@),
        }) == annotate_target_of(opt_text(script), p@.script),
{
    match script {
        Some(s) => Ok(s),
        None => match &p.script {
            Some(s) => Ok(s.clone()),
            None => Err(text("trace has no recorded script path; pass --script <FILE>")),
        },
    }
}

} // verus!
