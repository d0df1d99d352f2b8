//! Turn parsed events into a profile: per-line and per-function self-time,
//! call counts, and stack samples for the collapsed (flamegraph) output.
//!
//! ## Attribution model
//!
//! xtrace stamps the *start* of every simple command, so the self-time of
//! an event is the gap to the next event; the final event is closed by the
//! `END` control record. Negative gaps (interleaved background output) are
//! clamped to zero.
//!
//! ## Stack reconstruction
//!
//! Events carry `${FUNCNAME[0]}` and the frame count. The raw counts arrive
//! as 0 (top level), 2 (first function level), 3, ...; the effective depth
//! is `max(count - 1, 0)`. Deeper by one pushes the current function,
//! shallower truncates, same depth with another name is a sibling call
//! (pop + push), and a jump of more than one level inserts `?` frames.

use vstd::prelude::*;
use vstd::string::*;
use crate::text::{lemma_seq_lt_asym, lemma_seq_lt_irrefl, lemma_seq_lt_total, lemma_seq_lt_trans, seq_lt};
use crate::text::{chars_eq, chars_lt, texts, to_chars};
use crate::sorted::{lemma_sorted_unique, strictly_sorted};
use crate::tally::{
    group_sum, has_key_row, keys_distinct, lemma_groups_add_up, lemma_sum_rows_congruent, lemma_sum_rows_new,
    lemma_total_ones, sum_rows, total,
};
use crate::trace::{Event, EventV, Trace, TraceV};

verus! {

/// Root frame name used for top-level script code.
pub const ROOT_FRAME: &'static str = "main";

pub open spec fn root_frame() -> Seq<char> {
    seq!['m', 'a', 'i', 'n']
}

/// The frame that stands for a call level nobody saw entered.
pub open spec fn unknown_frame() -> Seq<char> {
    seq!['?']
}

/// Aggregated statistics for one `file:line`.
#[derive(Debug, Clone, PartialEq, Eq)]
pub struct LineStat {
    pub file: String,
    pub line: u32,
    /// How many times a command starting on this line was executed.
    pub count: u64,
    /// Total self-time in microseconds.
    pub self_us: u64,
    /// Largest single execution, to spot "usually fast, once slow" lines.
    pub max_us: u64,
    /// The command text most recently seen on this line.
    pub command: String,
}

pub struct LineStatV {
    pub file: Seq<char>,
    pub line: u32,
    pub count: u64,
    pub self_us: u64,
    pub max_us: u64,
    pub command: Seq<char>,
}

impl View for LineStat {
    type V = LineStatV;

    open spec fn view(&self) -> LineStatV {
        LineStatV {
            file: self.file@,
            line: self.line,
            count: self.count,
            self_us: self.self_us,
            max_us: self.max_us,
            command: self.command@,
        }
    }
}

/// Aggregated statistics for one function (leaf frame).
#[derive(Debug, Clone, PartialEq, Eq)]
pub struct FuncStat {
    pub name: String,
    /// Number of times the function was entered.
    pub calls: u64,
    /// Commands executed with this function as the innermost frame.
    pub commands: u64,
    /// Self-time of those commands, microseconds.
    pub self_us: u64,
}

pub struct FuncStatV {
    pub name: Seq<char>,
    pub calls: u64,
    pub commands: u64,
    pub self_us: u64,
}

impl View for FuncStat {
    type V = FuncStatV;

    open spec fn view(&self) -> FuncStatV {
        FuncStatV {
            name: self.name@,
            calls: self.calls,
            commands: self.commands,
            self_us: self.self_us,
        }
    }
}

/// One attributed sample: a full stack, its source location, and self-time.
#[derive(Debug, Clone, PartialEq, Eq)]
pub struct Sample {
    /// Outermost-first, starting with [`ROOT_FRAME`].
    pub stack: Vec<String>,
    pub file: String,
    pub line: u32,
    pub self_us: u64,
}

pub struct SampleV {
    pub stack: Seq<Seq<char>>,
    pub file: Seq<char>,
    pub line: u32,
    pub self_us: u64,
}

impl View for Sample {
    type V = SampleV;

    open spec fn view(&self) -> SampleV {
        SampleV {
            stack: texts(self.stack@),
            file: self.file@,
            line: self.line,
            self_us: self.self_us,
        }
    }
}

/// The complete analysis result.
#[derive(Debug)]
pub struct Profile {
    pub script: Option<String>,
    pub exit_code: Option<i32>,
    /// Wall time from START to END (falls back to first..last event).
    pub total_us: u64,
    /// Number of traced commands.
    pub commands: u64,
    /// Distinct source files seen, sorted.
    pub files: Vec<String>,
    /// Per-line stats, sorted by file then line.
    pub lines: Vec<LineStat>,
    /// Per-function stats, sorted by self-time descending.
    pub funcs: Vec<FuncStat>,
    /// One sample per event, in execution order.
    pub samples: Vec<Sample>,
    /// Garbled trace lines the parser had to skip.
    pub skipped: usize,
}

pub struct ProfileV {
    pub script: Option<Seq<char>>,
    pub exit_code: Option<i32>,
    pub total_us: u64,
    pub commands: u64,
    pub files: Seq<Seq<char>>,
    pub lines: Seq<LineStatV>,
    pub funcs: Seq<FuncStatV>,
    pub samples: Seq<SampleV>,
    pub skipped: nat,
}

impl View for Profile {
    type V = ProfileV;

    open spec fn view(&self) -> ProfileV {
        ProfileV {
            script: crate::trace::opt_text(self.script),
            exit_code: self.exit_code,
            total_us: self.total_us,
            commands: self.commands,
            files: texts(self.files@),
            lines: self.lines@.map_values(|l: LineStat| l@),
            funcs: self.funcs@.map_values(|f: FuncStat| f@),
            samples: self.samples@.map_values(|s: Sample| s@),
            skipped: self.skipped as nat,
        }
    }
}

impl Default for Profile {
    fn default() -> (p: Profile)
        ensures
            p.script is None,
            p.exit_code is None,
            p.total_us == 0,
            p.commands == 0,
            p.files@.len() == 0,
            p.lines@.len() == 0,
            p.funcs@.len() == 0,
            p.samples@.len() == 0,
            p.skipped == 0,
    {
        Profile {
            script: None,
            exit_code: None,
            total_us: 0,
            commands: 0,
            files: Vec::new(),
            lines: Vec::new(),
            funcs: Vec::new(),
            samples: Vec::new(),
            skipped: 0,
        }
    }
}

// ---------------------------------------------------------------------
// Attribution, stated over the trace
// ---------------------------------------------------------------------

/// Self-time of event `i`: the gap to the next event, or to `END` for the
/// last one (zero when there is no `END`), clamped at zero.
pub open spec fn self_time(tr: TraceV, i: int) -> u64 {
    let ts = tr.events[i].ts_us;
    let next = if i + 1 < tr.events.len() {
        tr.events[i + 1].ts_us
    } else {
        match tr.end_us {
            Some(e) => e,
            None => ts,
        }
    };
    if next >= ts {
        (next - ts) as u64
    } else {
        0
    }
}

/// Wall time between START (else the first event) and END (else the last).
pub open spec fn wall_time(tr: TraceV, first_ts: u64, last_ts: u64) -> u64 {
    let start = match tr.start_us {
        Some(s) => s,
        None => first_ts,
    };
    let end = match tr.end_us {
        Some(e) => e,
        None => last_ts,
    };
    if end >= start {
        (end - start) as u64
    } else {
        0
    }
}

pub open spec fn total_time(tr: TraceV) -> u64 {
    if tr.events.len() == 0 {
        wall_time(tr, 0, 0)
    } else {
        wall_time(tr, tr.events[0].ts_us, tr.events.last().ts_us)
    }
}

/// The effective call depth of an event.
pub open spec fn depth_of(ev: EventV) -> nat {
    if ev.func_depth == 0 {
        0
    } else {
        (ev.func_depth - 1) as nat
    }
}

/// One event's depth transition applied to the stack (outermost first,
/// without the root frame); the flag tells whether a function was entered.
pub open spec fn adjust(stack: Seq<Seq<char>>, ev: EventV) -> (Seq<Seq<char>>, bool) {
    let d = depth_of(ev);
    if d == 0 {
        (Seq::empty(), false)
    } else if d > stack.len() {
        (stack + Seq::new((d - 1 - stack.len()) as nat, |i: int| unknown_frame()) + seq![ev.func], true)
    } else {
        let t = stack.take(d as int);
        if t.last() == ev.func {
            (t, false)
        } else {
            (t.drop_last().push(ev.func), true)
        }
    }
}

/// The stack after the first `n` events.
pub open spec fn stack_after(evs: Seq<EventV>, n: int) -> Seq<Seq<char>>
    decreases n,
{
    if n <= 0 {
        Seq::empty()
    } else {
        adjust(stack_after(evs, n - 1), evs[n - 1]).0
    }
}

/// Did event `i` enter a function?
pub open spec fn entered(evs: Seq<EventV>, i: int) -> bool {
    adjust(stack_after(evs, i), evs[i]).1
}

/// The innermost frame of event `i`.
pub open spec fn leaf(evs: Seq<EventV>, i: int) -> Seq<char> {
    let s = stack_after(evs, i + 1);
    if s.len() == 0 {
        root_frame()
    } else {
        s.last()
    }
}

pub open spec fn sample_of(tr: TraceV, i: int) -> SampleV {
    SampleV {
        stack: seq![root_frame()] + stack_after(tr.events, i + 1),
        file: tr.events[i].source,
        line: tr.events[i].line,
        self_us: self_time(tr, i),
    }
}

/// One sample per event, in execution order.
pub open spec fn samples_of(tr: TraceV) -> Seq<SampleV> {
    Seq::new(tr.events.len(), |i: int| sample_of(tr, i))
}

pub open spec fn has_key(ev: EventV, file: Seq<char>, line: u32) -> bool {
    ev.source == file && ev.line == line
}

/// Executions of `file:line` among the first `n` events.
pub open spec fn line_count(tr: TraceV, n: int, file: Seq<char>, line: u32) -> nat
    decreases n,
{
    if n <= 0 {
        0
    } else {
        line_count(tr, n - 1, file, line) + if has_key(tr.events[n - 1], file, line) {
            1nat
        } else {
            0nat
        }
    }
}

/// Their total self-time.
pub open spec fn line_sum(tr: TraceV, n: int, file: Seq<char>, line: u32) -> nat
    decreases n,
{
    if n <= 0 {
        0
    } else {
        line_sum(tr, n - 1, file, line) + if has_key(tr.events[n - 1], file, line) {
            self_time(tr, n - 1) as nat
        } else {
            0nat
        }
    }
}

/// Their largest self-time.
pub open spec fn line_max(tr: TraceV, n: int, file: Seq<char>, line: u32) -> nat
    decreases n,
{
    if n <= 0 {
        0
    } else {
        let m = line_max(tr, n - 1, file, line);
        if has_key(tr.events[n - 1], file, line) && self_time(tr, n - 1) > m {
            self_time(tr, n - 1) as nat
        } else {
            m
        }
    }
}

/// The command of the latest of them.
pub open spec fn line_command(tr: TraceV, n: int, file: Seq<char>, line: u32) -> Seq<char>
    decreases n,
{
    if n <= 0 {
        Seq::empty()
    } else if has_key(tr.events[n - 1], file, line) {
        tr.events[n - 1].command
    } else {
        line_command(tr, n - 1, file, line)
    }
}

/// The statistics of `file:line` over the first `n` events.
pub open spec fn line_stat_at(tr: TraceV, n: int, file: Seq<char>, line: u32) -> LineStatV {
    LineStatV {
        file,
        line,
        count: line_count(tr, n, file, line) as u64,
        self_us: line_sum(tr, n, file, line) as u64,
        max_us: line_max(tr, n, file, line) as u64,
        command: line_command(tr, n, file, line),
    }
}

/// Source order: by file, then by line number.
pub open spec fn key_lt(f1: Seq<char>, l1: u32, f2: Seq<char>, l2: u32) -> bool {
    seq_lt(f1, f2) || (f1 == f2 && l1 < l2)
}

/// The per-line table over the first `n` events: one row per executed
/// `file:line`, in source order, with that line's statistics.
pub open spec fn lines_upto(tr: TraceV, n: int, ls: Seq<LineStatV>) -> bool {
    &&& forall|i: int, j: int|
        0 <= i < j < ls.len() ==> key_lt(ls[i].file, ls[i].line, ls[j].file, ls[j].line)
    &&& forall|i: int|
        0 <= i < ls.len() ==> #[trigger] ls[i] == line_stat_at(tr, n, ls[i].file, ls[i].line)
            && line_count(tr, n, ls[i].file, ls[i].line) > 0
    &&& forall|k: int| 0 <= k < n ==> #[trigger] has_line_row(ls, tr.events[k])
}

/// Some row of `ls` is the line of `ev`.
pub open spec fn has_line_row(ls: Seq<LineStatV>, ev: EventV) -> bool {
    exists|i: int| 0 <= i < ls.len() && #[trigger] has_key(ev, ls[i].file, ls[i].line)
}

/// The per-line table of the whole trace.
pub open spec fn lines_ok(tr: TraceV, ls: Seq<LineStatV>) -> bool {
    lines_upto(tr, tr.events.len() as int, ls)
}

/// Commands whose innermost frame is `name`, among the first `n` events.
pub open spec fn func_count(tr: TraceV, n: int, name: Seq<char>) -> nat
    decreases n,
{
    if n <= 0 {
        0
    } else {
        func_count(tr, n - 1, name) + if leaf(tr.events, n - 1) == name {
            1nat
        } else {
            0nat
        }
    }
}

/// Entries into `name` among the first `n` events.
pub open spec fn func_calls(tr: TraceV, n: int, name: Seq<char>) -> nat
    decreases n,
{
    if n <= 0 {
        0
    } else {
        func_calls(tr, n - 1, name) + if leaf(tr.events, n - 1) == name && entered(
            tr.events,
            n - 1,
        ) {
            1nat
        } else {
            0nat
        }
    }
}

/// Self-time of the commands whose innermost frame is `name`.
pub open spec fn func_sum(tr: TraceV, n: int, name: Seq<char>) -> nat
    decreases n,
{
    if n <= 0 {
        0
    } else {
        func_sum(tr, n - 1, name) + if leaf(tr.events, n - 1) == name {
            self_time(tr, n - 1) as nat
        } else {
            0nat
        }
    }
}

/// The statistics of function `name` over the first `n` events.
pub open spec fn func_stat_at(tr: TraceV, n: int, name: Seq<char>) -> FuncStatV {
    FuncStatV {
        name,
        calls: func_calls(tr, n, name) as u64,
        commands: func_count(tr, n, name) as u64,
        self_us: func_sum(tr, n, name) as u64,
    }
}

pub open spec fn func_stat_of(tr: TraceV, name: Seq<char>) -> FuncStatV {
    func_stat_at(tr, tr.events.len() as int, name)
}

/// Function order: self-time descending, then name.
pub open spec fn func_before(a: FuncStatV, b: FuncStatV) -> bool {
    a.self_us > b.self_us || (a.self_us == b.self_us && seq_lt(a.name, b.name))
}

/// The per-function table: one row per innermost frame seen, by
/// descending self-time (ties by name), with that function's statistics.
pub open spec fn funcs_ok(tr: TraceV, fs: Seq<FuncStatV>) -> bool {
    let n = tr.events.len() as int;
    &&& forall|i: int, j: int| 0 <= i < j < fs.len() ==> func_before(fs[i], fs[j])
    &&& forall|i: int|
        0 <= i < fs.len() ==> #[trigger] fs[i] == func_stat_of(tr, fs[i].name) && func_count(
            tr,
            n,
            fs[i].name,
        ) > 0
    &&& forall|k: int| 0 <= k < n ==> #[trigger] has_func_row(fs, leaf(tr.events, k))
}

/// Some row of `fs` is function `name`.
pub open spec fn has_func_row(fs: Seq<FuncStatV>, name: Seq<char>) -> bool {
    exists|i: int| 0 <= i < fs.len() && #[trigger] fs[i].name == name
}

/// The distinct source files, in order.
pub open spec fn files_ok(tr: TraceV, files: Seq<Seq<char>>) -> bool {
    let n = tr.events.len() as int;
    &&& forall|i: int, j: int| 0 <= i < j < files.len() ==> seq_lt(files[i], files[j])
    &&& forall|i: int| 0 <= i < files.len() ==> #[trigger] runs_from(tr, files[i])
    &&& forall|k: int| 0 <= k < n ==> #[trigger] has_file(files, tr.events[k].source)
}

/// Some event of the trace comes from `file`.
pub open spec fn runs_from(tr: TraceV, file: Seq<char>) -> bool {
    exists|k: int| 0 <= k < tr.events.len() && #[trigger] tr.events[k].source == file
}

pub open spec fn has_file(files: Seq<Seq<char>>, file: Seq<char>) -> bool {
    exists|i: int| 0 <= i < files.len() && #[trigger] files[i] == file
}

/// Every line's total self-time over the first `n` events fits in `u64`.
pub open spec fn line_sums_fit(tr: TraceV, n: int) -> bool {
    forall|file: Seq<char>, line: u32| #[trigger] line_sum(tr, n, file, line) <= u64::MAX
}

/// Every function's total self-time over the first `n` events fits in
/// `u64`.
pub open spec fn func_sums_fit(tr: TraceV, n: int) -> bool {
    forall|name: Seq<char>| #[trigger] func_sum(tr, n, name) <= u64::MAX
}

/// Per-line and per-function totals fit in `u64` (the sums a build adds up).
pub open spec fn sums_fit(tr: TraceV) -> bool {
    line_sums_fit(tr, tr.events.len() as int) && func_sums_fit(tr, tr.events.len() as int)
}

/// What [`build`] makes of a trace.
pub open spec fn profile_ok(tr: TraceV, p: ProfileV) -> bool {
    &&& p.script == tr.script
    &&& p.exit_code == tr.exit_code
    &&& p.skipped == tr.skipped
    &&& p.commands == tr.events.len()
    &&& p.total_us == total_time(tr)
    &&& lines_ok(tr, p.lines)
    &&& funcs_ok(tr, p.funcs)
    &&& files_ok(tr, p.files)
    &&& p.samples == samples_of(tr)
}

// ---------------------------------------------------------------------
// Facts about the aggregates
// ---------------------------------------------------------------------

pub proof fn lemma_key_lt_irrefl(f: Seq<char>, l: u32)
    ensures
        !key_lt(f, l, f, l),
{
    lemma_seq_lt_irrefl(f);
}

pub proof fn lemma_key_lt_trans(f1: Seq<char>, l1: u32, f2: Seq<char>, l2: u32, f3: Seq<char>, l3: u32)
    requires
        key_lt(f1, l1, f2, l2),
        key_lt(f2, l2, f3, l3),
    ensures
        key_lt(f1, l1, f3, l3),
{
    if seq_lt(f1, f2) && seq_lt(f2, f3) {
        lemma_seq_lt_trans(f1, f2, f3);
    }
}

proof fn lemma_key_lt_total(f1: Seq<char>, l1: u32, f2: Seq<char>, l2: u32)
    ensures
        (f1 == f2 && l1 == l2) || key_lt(f1, l1, f2, l2) || key_lt(f2, l2, f1, l1),
{
    lemma_seq_lt_total(f1, f2);
}

proof fn lemma_line_count_bound(tr: TraceV, n: int, f: Seq<char>, l: u32)
    requires
        n >= 0,
    ensures
        line_count(tr, n, f, l) <= n,
    decreases n,
{
    if n > 0 {
        lemma_line_count_bound(tr, n - 1, f, l);
    }
}

proof fn lemma_line_count_witness(tr: TraceV, n: int, f: Seq<char>, l: u32)
    requires
        line_count(tr, n, f, l) > 0,
    ensures
        exists|k: int| 0 <= k < n && #[trigger] has_key(tr.events[k], f, l),
    decreases n,
{
    if n > 0 && !has_key(tr.events[n - 1], f, l) {
        lemma_line_count_witness(tr, n - 1, f, l);
    }
}

proof fn lemma_line_count_zero(tr: TraceV, n: int, f: Seq<char>, l: u32)
    requires
        line_count(tr, n, f, l) == 0,
    ensures
        line_sum(tr, n, f, l) == 0,
        line_max(tr, n, f, l) == 0,
    decreases n,
{
    if n > 0 {
        lemma_line_count_zero(tr, n - 1, f, l);
    }
}

proof fn lemma_line_max_le_sum(tr: TraceV, n: int, f: Seq<char>, l: u32)
    ensures
        line_max(tr, n, f, l) <= line_sum(tr, n, f, l),
    decreases n,
{
    if n > 0 {
        lemma_line_max_le_sum(tr, n - 1, f, l);
    }
}

proof fn lemma_line_sum_mono(tr: TraceV, n: int, m: int, f: Seq<char>, l: u32)
    requires
        n <= m,
    ensures
        line_sum(tr, n, f, l) <= line_sum(tr, m, f, l),
    decreases m - n,
{
    if n < m {
        lemma_line_sum_mono(tr, n, m - 1, f, l);
    }
}

proof fn lemma_func_count_bound(tr: TraceV, n: int, name: Seq<char>)
    requires
        n >= 0,
    ensures
        func_calls(tr, n, name) <= func_count(tr, n, name),
        func_count(tr, n, name) <= n,
    decreases n,
{
    if n > 0 {
        lemma_func_count_bound(tr, n - 1, name);
    }
}

proof fn lemma_func_count_witness(tr: TraceV, n: int, name: Seq<char>)
    requires
        func_count(tr, n, name) > 0,
    ensures
        exists|k: int| 0 <= k < n && #[trigger] leaf(tr.events, k) == name,
    decreases n,
{
    if n > 0 && leaf(tr.events, n - 1) != name {
        lemma_func_count_witness(tr, n - 1, name);
    }
}

proof fn lemma_func_count_zero(tr: TraceV, n: int, name: Seq<char>)
    requires
        func_count(tr, n, name) == 0,
    ensures
        func_sum(tr, n, name) == 0,
        func_calls(tr, n, name) == 0,
    decreases n,
{
    if n > 0 {
        lemma_func_count_zero(tr, n - 1, name);
    }
}

proof fn lemma_func_sum_mono(tr: TraceV, n: int, m: int, name: Seq<char>)
    requires
        n <= m,
    ensures
        func_sum(tr, n, name) <= func_sum(tr, m, name),
    decreases m - n,
{
    if n < m {
        lemma_func_sum_mono(tr, n, m - 1, name);
    }
}

// ---------------------------------------------------------------------
// Building a profile
// ---------------------------------------------------------------------

pub open spec fn frames(v: Seq<Vec<char>>) -> Seq<Seq<char>> {
    v.map_values(|c: Vec<char>| c@)
}

fn copy_chars(v: &Vec<char>) -> (r: Vec<char>)
    ensures
        r@ == v@,
{
    let mut r: Vec<char> = Vec::new();
    let mut i: usize = 0;
    while i < v.len()
        invariant
            i <= v@.len(),
            r@ == v@.take(i as int),
        decreases v@.len() - i,
    {
        r.push(v[i]);
        assert(v@.take(i + 1) == v@.take(i as int).push(v@[i as int]));
        i += 1;
    }
    assert(v@.take(v@.len() as int) =~= v@);
    r
}

/// Self-time of event `i`.
fn event_self_time(trace: &Trace, i: usize) -> (r: u64)
    requires
        i < trace.events@.len(),
    ensures
        r == self_time(trace@, i as int),
{
    let ghost tr = trace@;
    assert(tr.events[i as int] == trace.events@[i as int]@);
    let ts = trace.events[i].ts_us;
    let len = trace.events.len();
    let next = if i < len - 1 {
        assert(tr.events[i + 1] == trace.events@[i + 1]@);
        trace.events[i + 1].ts_us
    } else {
        match trace.end_us {
            Some(e) => e,
            None => ts,
        }
    };
    if next >= ts {
        next - ts
    } else {
        0
    }
}

/// Replays one event's depth transition onto the reconstructed stack.
/// Returns `true` when this event entered a function.
fn adjust_stack(stack: &mut Vec<Vec<char>>, ev: &Event) -> (entered: bool)
    ensures
        (frames(final(stack)@), entered) == adjust(frames(old(stack)@), ev@),
{
    let ghost before = frames(stack@);
    let d: usize = if ev.func_depth == 0 {
        0
    } else {
        (ev.func_depth - 1) as usize
    };
    if d == 0 {
        stack.clear();
        assert(frames(stack@) =~= Seq::<Seq<char>>::empty());
        return false;
    }
    let func = to_chars(ev.func.as_str());
    if d > stack.len() {
        let ghost start = stack@.len();
        assert(frames(stack@) =~= before + Seq::new(0, |i: int| unknown_frame()));
        while stack.len() < d - 1
            invariant
                start <= stack@.len() <= d - 1,
                frames(stack@) =~= before + Seq::new((stack@.len() - start) as nat, |i: int| unknown_frame()),
                before.len() == start,
            decreases d - 1 - stack@.len(),
        {
            let mut q: Vec<char> = Vec::new();
            q.push('?');
            let ghost prev = stack@;
            stack.push(q);
            assert(frames(stack@) =~= frames(prev).push(unknown_frame()));
        }
        let ghost prev = stack@;
        stack.push(func);
        assert(frames(stack@) =~= frames(prev).push(ev@.func));
        true
    } else {
        stack.truncate(d);
        assert(frames(stack@) =~= before.take(d as int));
        let last = stack.len() - 1;
        if chars_eq(&stack[last], &func) {
            false
        } else {
            let ghost prev = stack@;
            stack.pop();
            stack.push(func);
            assert(frames(stack@) =~= frames(prev).drop_last().push(ev@.func));
            true
        }
    }
}

/// Per-line accumulator: a row of the line table under construction.
struct LineAcc {
    file: Vec<char>,
    line: u32,
    count: u64,
    self_us: u64,
    max_us: u64,
    command: String,
}

spec fn lacc_view(a: LineAcc) -> LineStatV {
    LineStatV {
        file: a.file@,
        line: a.line,
        count: a.count,
        self_us: a.self_us,
        max_us: a.max_us,
        command: a.command@,
    }
}

spec fn laccs(v: Seq<LineAcc>) -> Seq<LineStatV> {
    v.map_values(|a: LineAcc| lacc_view(a))
}

fn key_before(f1: &Vec<char>, l1: u32, f2: &Vec<char>, l2: u32) -> (r: bool)
    ensures
        r == key_lt(f1@, l1, f2@, l2),
{
    chars_lt(f1, f2) || (l1 < l2 && chars_eq(f1, f2))
}

/// Counts event `i` into the line table; `false` when the line's total
/// would overflow.
fn record_line(acc: &mut Vec<LineAcc>, trace: &Trace, i: usize, file: &Vec<char>, st: u64) -> (ok: bool)
    requires
        i < trace.events@.len(),
        lines_upto(trace@, i as int, laccs(old(acc)@)),
        line_sums_fit(trace@, i as int),
        file@ == trace@.events[i as int].source,
        st == self_time(trace@, i as int),
    ensures
        ok ==> lines_upto(trace@, i + 1, laccs(final(acc)@)) && line_sums_fit(trace@, i + 1),
        !ok ==> !line_sums_fit(trace@, trace@.events.len() as int),
{
    let ghost tr = trace@;
    let len = trace.events.len();
    let ghost n = tr.events.len() as int;
    let ghost old_ls = laccs(acc@);
    assert(tr.events[i as int] == trace.events@[i as int]@);
    let ev = &trace.events[i];
    let line = ev.line;
    let ghost ff = file@;
    let mut p: usize = 0;
    while p < acc.len() && key_before(&acc[p].file, acc[p].line, file, line)
        invariant
            p <= acc@.len(),
            laccs(acc@) == old_ls,
            file@ == ff,
            forall|q: int| 0 <= q < p ==> key_lt(#[trigger] old_ls[q].file, old_ls[q].line, ff, line),
        decreases acc@.len() - p,
    {
        assert(old_ls[p as int] == lacc_view(acc@[p as int]));
        p += 1;
    }
    proof {
        lemma_line_count_bound(tr, i as int, ff, line);
        lemma_line_sum_mono(tr, i + 1, n, ff, line);
        lemma_line_sum_mono(tr, i as int, i + 1, ff, line);
        lemma_line_max_le_sum(tr, i as int, ff, line);
        assert(line_sum(tr, i as int, ff, line) <= u64::MAX);
        assert(has_key(tr.events[i as int], ff, line));
        assert forall|f: Seq<char>, l: u32| !(f == ff && l == line) implies #[trigger] line_sum(tr, i + 1, f, l) == line_sum(tr, i as int, f, l) by {}
    }
    let found = p < acc.len() && acc[p].line == line && chars_eq(&acc[p].file, file);
    if found {
        assert(old_ls[p as int] == lacc_view(acc@[p as int]));
        if acc[p].self_us > u64::MAX - st {
            proof {
                assert(line_sum(tr, i + 1, ff, line) > u64::MAX);
            }
            return false;
        }
        let old = acc.remove(p);
        let ghost ov = lacc_view(old);
        assert(ov == line_stat_at(tr, i as int, ff, line));
        let new_max = if st > old.max_us {
            st
        } else {
            old.max_us
        };
        let upd = LineAcc {
            file: old.file,
            line,
            count: old.count + 1,
            self_us: old.self_us + st,
            max_us: new_max,
            command: ev.command.clone(),
        };
        acc.insert(p, upd);
        proof {
            let ls = laccs(acc@);
            assert(ls =~= old_ls.update(p as int, lacc_view(upd)));
            assert(lacc_view(upd) == line_stat_at(tr, i + 1, ff, line));
            assert forall|q: int| 0 <= q < ls.len() implies #[trigger] ls[q] == line_stat_at(
                tr,
                i + 1,
                ls[q].file,
                ls[q].line,
            ) && line_count(tr, i + 1, ls[q].file, ls[q].line) > 0 by {
                if q != p {
                    if q < p {
                        assert(key_lt(old_ls[q].file, old_ls[q].line, old_ls[p as int].file, old_ls[p as int].line));
                    } else {
                        assert(key_lt(old_ls[p as int].file, old_ls[p as int].line, old_ls[q].file, old_ls[q].line));
                    }
                    lemma_key_lt_irrefl(ff, line);
                    assert(!has_key(tr.events[i as int], ls[q].file, ls[q].line));
                }
            }
            assert forall|k: int| 0 <= k < i + 1 implies #[trigger] has_line_row(ls, tr.events[k]) by {
                if k == i {
                    assert(has_key(tr.events[k], ls[p as int].file, ls[p as int].line));
                } else {
                    assert(has_line_row(old_ls, tr.events[k]));
                    let q = choose|q: int|
                        0 <= q < old_ls.len() && #[trigger] has_key(tr.events[k], old_ls[q].file, old_ls[q].line);
                    assert(ls[q].file == old_ls[q].file && ls[q].line == old_ls[q].line);
                    assert(has_key(tr.events[k], ls[q].file, ls[q].line));
                }
            }
            assert(lines_upto(tr, i + 1, ls));
            assert(line_sums_fit(tr, i + 1));
        }
        true
    } else {
        proof {
            // No row holds this key yet, so the line has not run before.
            assert forall|q: int| 0 <= q < old_ls.len() implies !(#[trigger] old_ls[q].file == ff && old_ls[q].line == line) by {
                if q < p {
                    lemma_key_lt_irrefl(ff, line);
                } else {
                    assert(old_ls[p as int] == lacc_view(acc@[p as int]));
                    lemma_key_lt_total(old_ls[p as int].file, old_ls[p as int].line, ff, line);
                    if q > p {
                        assert(key_lt(old_ls[p as int].file, old_ls[p as int].line, old_ls[q].file, old_ls[q].line));
                        lemma_key_lt_trans(ff, line, old_ls[p as int].file, old_ls[p as int].line, old_ls[q].file, old_ls[q].line);
                        lemma_key_lt_irrefl(ff, line);
                    }
                }
            }
            if line_count(tr, i as int, ff, line) > 0 {
                lemma_line_count_witness(tr, i as int, ff, line);
                let k = choose|k: int| 0 <= k < i && #[trigger] has_key(tr.events[k], ff, line);
                assert(has_line_row(old_ls, tr.events[k]));
                let q = choose|q: int|
                    0 <= q < old_ls.len() && #[trigger] has_key(tr.events[k], old_ls[q].file, old_ls[q].line);
                assert(false);
            }
            lemma_line_count_zero(tr, i as int, ff, line);
        }
        let row = LineAcc {
            file: copy_chars(file),
            line,
            count: 1,
            self_us: st,
            max_us: st,
            command: ev.command.clone(),
        };
        acc.insert(p, row);
        proof {
            let ls = laccs(acc@);
            assert(ls =~= old_ls.insert(p as int, lacc_view(row)));
            assert(lacc_view(row) == line_stat_at(tr, i + 1, ff, line));
            assert forall|a: int, b: int| 0 <= a < b < ls.len() implies key_lt(
                ls[a].file,
                ls[a].line,
                ls[b].file,
                ls[b].line,
            ) by {
                if p < old_ls.len() {
                    assert(old_ls[p as int] == lacc_view(acc@[p as int + 1]));
                    lemma_key_lt_total(old_ls[p as int].file, old_ls[p as int].line, ff, line);
                }
                if a < p && b == p {
                } else if a == p && b > p {
                    if b > p + 1 {
                        assert(key_lt(old_ls[p as int].file, old_ls[p as int].line, old_ls[b - 1].file, old_ls[b - 1].line));
                        lemma_key_lt_trans(ff, line, old_ls[p as int].file, old_ls[p as int].line, old_ls[b - 1].file, old_ls[b - 1].line);
                    }
                } else if a < p && b > p {
                    assert(key_lt(old_ls[a].file, old_ls[a].line, old_ls[b - 1].file, old_ls[b - 1].line));
                } else if a > p {
                    assert(key_lt(old_ls[a - 1].file, old_ls[a - 1].line, old_ls[b - 1].file, old_ls[b - 1].line));
                }
            }
            assert forall|q: int| 0 <= q < ls.len() implies #[trigger] ls[q] == line_stat_at(
                tr,
                i + 1,
                ls[q].file,
                ls[q].line,
            ) && line_count(tr, i + 1, ls[q].file, ls[q].line) > 0 by {
                if q != p {
                    let oq = if q < p {
                        q
                    } else {
                        q - 1
                    };
                    assert(ls[q] == old_ls[oq]);
                    assert(!(old_ls[oq].file == ff && old_ls[oq].line == line));
                    assert(!has_key(tr.events[i as int], ls[q].file, ls[q].line));
                }
            }
            assert forall|k: int| 0 <= k < i + 1 implies #[trigger] has_line_row(ls, tr.events[k]) by {
                if k == i {
                    assert(has_key(tr.events[k], ls[p as int].file, ls[p as int].line));
                } else {
                    assert(has_line_row(old_ls, tr.events[k]));
                    let q = choose|q: int|
                        0 <= q < old_ls.len() && #[trigger] has_key(tr.events[k], old_ls[q].file, old_ls[q].line);
                    if q < p {
                        assert(ls[q] == old_ls[q]);
                        assert(has_key(tr.events[k], ls[q].file, ls[q].line));
                    } else {
                        assert(ls[q + 1] == old_ls[q]);
                        assert(has_key(tr.events[k], ls[q + 1].file, ls[q + 1].line));
                    }
                }
            }
            assert(lines_upto(tr, i + 1, ls));
            assert(line_sums_fit(tr, i + 1));
        }
        true
    }
}

/// Per-function accumulator: a row of the function table under
/// construction.
struct FuncAcc {
    name: Vec<char>,
    calls: u64,
    commands: u64,
    self_us: u64,
}

spec fn facc_view(a: FuncAcc) -> FuncStatV {
    FuncStatV { name: a.name@, calls: a.calls, commands: a.commands, self_us: a.self_us }
}

spec fn faccs(v: Seq<FuncAcc>) -> Seq<FuncStatV> {
    v.map_values(|a: FuncAcc| facc_view(a))
}

/// The function rows over the first `n` events, in first-seen order.
spec fn funcs_upto(tr: TraceV, n: int, fs: Seq<FuncStatV>) -> bool {
    &&& forall|i: int, j: int| 0 <= i < j < fs.len() ==> fs[i].name != fs[j].name
    &&& forall|i: int|
        0 <= i < fs.len() ==> #[trigger] fs[i] == func_stat_at(tr, n, fs[i].name) && func_count(
            tr,
            n,
            fs[i].name,
        ) > 0
    &&& forall|k: int| 0 <= k < n ==> #[trigger] has_func_row(fs, leaf(tr.events, k))
}

/// Counts event `i` into the function rows; `false` when the function's
/// total would overflow.
fn record_func(
    acc: &mut Vec<FuncAcc>,
    Ghost(tr): Ghost<TraceV>,
    i: usize,
    name: Vec<char>,
    entered_now: bool,
    st: u64,
) -> (ok: bool)
    requires
        i < tr.events.len() <= usize::MAX,
        funcs_upto(tr, i as int, faccs(old(acc)@)),
        func_sums_fit(tr, i as int),
        name@ == leaf(tr.events, i as int),
        entered_now == entered(tr.events, i as int),
        st == self_time(tr, i as int),
    ensures
        ok ==> funcs_upto(tr, i + 1, faccs(final(acc)@)) && func_sums_fit(tr, i + 1),
        !ok ==> !func_sums_fit(tr, tr.events.len() as int),
{
    let ghost n = tr.events.len() as int;
    let ghost old_fs = faccs(acc@);
    let ghost nm = name@;
    let mut p: usize = 0;
    while p < acc.len() && !chars_eq(&acc[p].name, &name)
        invariant
            p <= acc@.len(),
            faccs(acc@) == old_fs,
            name@ == nm,
            forall|q: int| 0 <= q < p ==> #[trigger] old_fs[q].name != nm,
        decreases acc@.len() - p,
    {
        assert(old_fs[p as int] == facc_view(acc@[p as int]));
        p += 1;
    }
    proof {
        lemma_func_count_bound(tr, i as int, nm);
        lemma_func_sum_mono(tr, i + 1, n, nm);
        lemma_func_sum_mono(tr, i as int, i + 1, nm);
        assert(func_sum(tr, i as int, nm) <= u64::MAX);
        assert forall|f: Seq<char>| f != nm implies #[trigger] func_sum(tr, i + 1, f) == func_sum(tr, i as int, f) by {}
    }
    if p < acc.len() {
        assert(old_fs[p as int] == facc_view(acc@[p as int]));
        if acc[p].self_us > u64::MAX - st {
            proof {
                assert(func_sum(tr, i + 1, nm) > u64::MAX);
            }
            return false;
        }
        let old = acc.remove(p);
        let upd = FuncAcc {
            name: old.name,
            calls: if entered_now {
                old.calls + 1
            } else {
                old.calls
            },
            commands: old.commands + 1,
            self_us: old.self_us + st,
        };
        acc.insert(p, upd);
        proof {
            let fs = faccs(acc@);
            assert(fs =~= old_fs.update(p as int, facc_view(upd)));
            assert(facc_view(upd) == func_stat_at(tr, i + 1, nm));
            assert forall|q: int| 0 <= q < fs.len() implies #[trigger] fs[q] == func_stat_at(
                tr,
                i + 1,
                fs[q].name,
            ) && func_count(tr, i + 1, fs[q].name) > 0 by {
                if q != p {
                    assert(old_fs[q].name != old_fs[p as int].name);
                }
            }
            assert forall|k: int| 0 <= k < i + 1 implies #[trigger] has_func_row(fs, leaf(tr.events, k)) by {
                if k == i {
                    assert(fs[p as int].name == leaf(tr.events, k));
                } else {
                    assert(has_func_row(old_fs, leaf(tr.events, k)));
                    let q = choose|q: int| 0 <= q < old_fs.len() && #[trigger] old_fs[q].name == leaf(tr.events, k);
                    assert(fs[q].name == old_fs[q].name);
                }
            }
            assert(func_sums_fit(tr, i + 1));
        }
        true
    } else {
        proof {
            if func_count(tr, i as int, nm) > 0 {
                lemma_func_count_witness(tr, i as int, nm);
                let k = choose|k: int| 0 <= k < i && #[trigger] leaf(tr.events, k) == nm;
                assert(has_func_row(old_fs, leaf(tr.events, k)));
                let q = choose|q: int| 0 <= q < old_fs.len() && #[trigger] old_fs[q].name == leaf(tr.events, k);
                assert(false);
            }
            lemma_func_count_zero(tr, i as int, nm);
        }
        let row = FuncAcc {
            name,
            calls: if entered_now {
                1
            } else {
                0
            },
            commands: 1,
            self_us: st,
        };
        acc.push(row);
        proof {
            let fs = faccs(acc@);
            assert(fs =~= old_fs.push(facc_view(row)));
            assert(facc_view(row) == func_stat_at(tr, i + 1, nm));
            assert forall|q: int| 0 <= q < fs.len() implies #[trigger] fs[q] == func_stat_at(
                tr,
                i + 1,
                fs[q].name,
            ) && func_count(tr, i + 1, fs[q].name) > 0 by {
                if q < old_fs.len() {
                    assert(fs[q] == old_fs[q]);
                    assert(old_fs[q].name != nm);
                }
            }
            assert forall|k: int| 0 <= k < i + 1 implies #[trigger] has_func_row(fs, leaf(tr.events, k)) by {
                if k == i {
                    assert(fs[old_fs.len() as int].name == leaf(tr.events, k));
                } else {
                    assert(has_func_row(old_fs, leaf(tr.events, k)));
                    let q = choose|q: int| 0 <= q < old_fs.len() && #[trigger] old_fs[q].name == leaf(tr.events, k);
                    assert(fs[q].name == old_fs[q].name);
                }
            }
            assert(func_sums_fit(tr, i + 1));
        }
        true
    }
}

proof fn lemma_func_before_total(a: FuncStatV, b: FuncStatV)
    requires
        a.name != b.name,
    ensures
        func_before(a, b) || func_before(b, a),
{
    lemma_seq_lt_total(a.name, b.name);
}

proof fn lemma_func_before_trans(a: FuncStatV, b: FuncStatV, c: FuncStatV)
    requires
        func_before(a, b),
        func_before(b, c),
    ensures
        func_before(a, c),
{
    if a.self_us == b.self_us && b.self_us == c.self_us {
        lemma_seq_lt_trans(a.name, b.name, c.name);
    }
}

proof fn lemma_func_before_asym(a: FuncStatV, b: FuncStatV)
    ensures
        !(func_before(a, b) && func_before(b, a)),
{
    lemma_seq_lt_asym(a.name, b.name);
}

fn func_first(a: &FuncAcc, b: &FuncAcc) -> (r: bool)
    ensures
        r == func_before(facc_view(*a), facc_view(*b)),
{
    a.self_us > b.self_us || (a.self_us == b.self_us && chars_lt(&a.name, &b.name))
}

spec fn has_row(fs: Seq<FuncStatV>, x: FuncStatV) -> bool {
    exists|i: int| 0 <= i < fs.len() && #[trigger] fs[i] == x
}

/// `x` is among the first `bound` rows of `src`.
spec fn among(src: Seq<FuncStatV>, bound: int, x: FuncStatV) -> bool {
    exists|j: int| 0 <= j < bound && #[trigger] src[j] == x
}

/// The function rows in report order.
fn sort_funcs(acc: Vec<FuncAcc>, Ghost(tr): Ghost<TraceV>) -> (out: Vec<FuncStat>)
    requires
        funcs_upto(tr, tr.events.len() as int, faccs(acc@)),
    ensures
        funcs_ok(tr, out@.map_values(|f: FuncStat| f@)),
{
    let ghost n = tr.events.len() as int;
    let ghost src = faccs(acc@);
    let mut sorted: Vec<FuncAcc> = Vec::new();
    for a in it: acc.into_iter()
        invariant
            it.seq() == acc@,
            src == faccs(acc@),
            funcs_upto(tr, n, src),
            forall|x: int, y: int|
                0 <= x < y < faccs(sorted@).len() ==> func_before(faccs(sorted@)[x], faccs(sorted@)[y]),
            forall|x: int|
                0 <= x < faccs(sorted@).len() ==> #[trigger] among(src, it.index() as int, faccs(sorted@)[x]),
            forall|j: int| 0 <= j < it.index() ==> #[trigger] has_row(faccs(sorted@), src[j]),
    {
        let ghost idx = it.index() as int;
        let ghost old_s = faccs(sorted@);
        let ghost av = facc_view(a);
        assert(src[idx] == av);
        let mut pos: usize = 0;
        while pos < sorted.len() && !func_first(&a, &sorted[pos])
            invariant
                pos <= sorted@.len(),
                faccs(sorted@) == old_s,
                av == facc_view(a),
                forall|q: int| 0 <= q < pos ==> !func_before(av, #[trigger] old_s[q]),
            decreases sorted@.len() - pos,
        {
            assert(old_s[pos as int] == facc_view(sorted@[pos as int]));
            pos += 1;
        }
        proof {
            // The new row's name differs from every row placed so far.
            assert forall|q: int| 0 <= q < old_s.len() implies #[trigger] old_s[q].name != av.name by {
                assert(among(src, idx, old_s[q]));
                let j = choose|j: int| 0 <= j < idx && #[trigger] src[j] == old_s[q];
                assert(src[j].name != src[idx].name);
            }
        }
        sorted.insert(pos, a);
        proof {
            let s2 = faccs(sorted@);
            assert(s2 =~= old_s.insert(pos as int, av));
            assert forall|x: int, y: int| 0 <= x < y < s2.len() implies func_before(s2[x], s2[y]) by {
                if x < pos && y == pos {
                    lemma_func_before_total(old_s[x], av);
                } else if x == pos && y > pos {
                    assert(old_s[pos as int] == facc_view(sorted@[pos as int + 1]));
                    if y > pos + 1 {
                        assert(func_before(old_s[pos as int], old_s[y - 1]));
                        lemma_func_before_trans(av, old_s[pos as int], old_s[y - 1]);
                    }
                } else if x < pos && y > pos {
                    assert(func_before(old_s[x], old_s[y - 1]));
                } else if x > pos {
                    assert(func_before(old_s[x - 1], old_s[y - 1]));
                }
            }
            assert forall|x: int| 0 <= x < s2.len() implies #[trigger] among(src, idx + 1, s2[x]) by {
                if x == pos {
                    assert(src[idx] == s2[x]);
                } else if x < pos {
                    assert(among(src, idx, old_s[x]));
                    let j = choose|j: int| 0 <= j < idx && #[trigger] src[j] == old_s[x];
                    assert(src[j] == s2[x]);
                } else {
                    assert(among(src, idx, old_s[x - 1]));
                    let j = choose|j: int| 0 <= j < idx && #[trigger] src[j] == old_s[x - 1];
                    assert(src[j] == s2[x]);
                }
            }
            assert forall|j: int| 0 <= j < idx + 1 implies #[trigger] has_row(s2, src[j]) by {
                if j == idx {
                    assert(s2[pos as int] == src[j]);
                } else {
                    assert(has_row(old_s, src[j]));
                    let x = choose|x: int| 0 <= x < old_s.len() && #[trigger] old_s[x] == src[j];
                    if x < pos {
                        assert(s2[x] == src[j]);
                    } else {
                        assert(s2[x + 1] == src[j]);
                    }
                }
            }
        }
    }
    let ghost final_s = faccs(sorted@);
    let mut out: Vec<FuncStat> = Vec::new();
    for a in it: sorted.into_iter()
        invariant
            it.seq() == sorted@,
            final_s == faccs(sorted@),
            out@.map_values(|f: FuncStat| f@) == final_s.take(it.index() as int),
    {
        let ghost idx = it.index() as int;
        let ghost before = out@;
        let len = a.name.len();
        assert(a.name@.subrange(0, len as int) =~= a.name@);
        let row = FuncStat {
            name: crate::text::string_of(&a.name, 0, len),
            calls: a.calls,
            commands: a.commands,
            self_us: a.self_us,
        };
        out.push(row);
        assert(out@.map_values(|f: FuncStat| f@) =~= before.map_values(|f: FuncStat| f@).push(row@));
        assert(final_s.take(idx + 1) =~= final_s.take(idx).push(final_s[idx]));
    }
    proof {
        let fs = out@.map_values(|f: FuncStat| f@);
        assert(fs =~= final_s);
        assert forall|x: int| 0 <= x < fs.len() implies #[trigger] fs[x] == func_stat_of(tr, fs[x].name)
            && func_count(tr, n, fs[x].name) > 0 by {
            assert(among(src, src.len() as int, final_s[x]));
            let j = choose|j: int| 0 <= j < src.len() && #[trigger] src[j] == final_s[x];
            assert(src[j] == func_stat_at(tr, n, src[j].name));
        }
        assert forall|k: int| 0 <= k < n implies #[trigger] has_func_row(fs, leaf(tr.events, k)) by {
            assert(has_func_row(src, leaf(tr.events, k)));
            let j = choose|j: int| 0 <= j < src.len() && #[trigger] src[j].name == leaf(tr.events, k);
            assert(has_row(final_s, src[j]));
            let x = choose|x: int| 0 <= x < final_s.len() && #[trigger] final_s[x] == src[j];
            assert(fs[x].name == leaf(tr.events, k));
        }
    }
    out
}

spec fn first_files(ls: Seq<LineStatV>, bound: int, f: Seq<char>) -> bool {
    exists|j: int| 0 <= j < bound && #[trigger] ls[j].file == f
}

/// The distinct files of the line table (which is in source order).
fn collect_files(acc: &Vec<LineAcc>, Ghost(tr): Ghost<TraceV>) -> (files: Vec<String>)
    requires
        lines_upto(tr, tr.events.len() as int, laccs(acc@)),
    ensures
        files_ok(tr, texts(files@)),
{
    let ghost n = tr.events.len() as int;
    let ghost ls = laccs(acc@);
    let mut fv: Vec<Vec<char>> = Vec::new();
    let mut i: usize = 0;
    while i < acc.len()
        invariant
            i <= acc@.len(),
            ls == laccs(acc@),
            lines_upto(tr, n, ls),
            forall|x: int, y: int| 0 <= x < y < fv@.len() ==> seq_lt(fv@[x]@, fv@[y]@),
            i > 0 ==> fv@.len() > 0 && fv@.last()@ == ls[i - 1].file,
            i == 0 ==> fv@.len() == 0,
            forall|x: int| 0 <= x < fv@.len() ==> #[trigger] first_files(ls, i as int, fv@[x]@),
            forall|j: int| 0 <= j < i ==> #[trigger] has_file(frames(fv@), ls[j].file),
        decreases acc@.len() - i,
    {
        assert(ls[i as int] == lacc_view(acc@[i as int]));
        let fresh = fv.len() == 0 || !chars_eq(&fv[fv.len() - 1], &acc[i].file);
        let ghost old_fv = fv@;
        if fresh {
            let c = copy_chars(&acc[i].file);
            fv.push(c);
            proof {
                if i > 0 {
                    assert(key_lt(ls[i - 1].file, ls[i - 1].line, ls[i as int].file, ls[i as int].line));
                    assert(seq_lt(ls[i - 1].file, ls[i as int].file));
                    assert forall|x: int, y: int| 0 <= x < y < fv@.len() implies seq_lt(fv@[x]@, fv@[y]@) by {
                        if y == fv@.len() - 1 && x < y - 1 {
                            lemma_seq_lt_trans(fv@[x]@, fv@[y - 1]@, fv@[y]@);
                        }
                    }
                }
                assert forall|x: int| 0 <= x < fv@.len() implies #[trigger] first_files(ls, i + 1, fv@[x]@) by {
                    if x < old_fv.len() {
                        assert(first_files(ls, i as int, old_fv[x]@));
                        let j = choose|j: int| 0 <= j < i && #[trigger] ls[j].file == old_fv[x]@;
                        assert(ls[j].file == fv@[x]@);
                    } else {
                        assert(ls[i as int].file == fv@[x]@);
                    }
                }
                assert forall|j: int| 0 <= j < i + 1 implies #[trigger] has_file(frames(fv@), ls[j].file) by {
                    if j == i {
                        assert(frames(fv@)[fv@.len() - 1] == ls[j].file);
                    } else {
                        assert(has_file(frames(old_fv), ls[j].file));
                        let x = choose|x: int| 0 <= x < frames(old_fv).len() && #[trigger] frames(old_fv)[x] == ls[j].file;
                        assert(frames(fv@)[x] == ls[j].file);
                    }
                }
            }
        } else {
            proof {
                assert forall|x: int| 0 <= x < fv@.len() implies #[trigger] first_files(ls, i + 1, fv@[x]@) by {
                    assert(first_files(ls, i as int, fv@[x]@));
                    let j = choose|j: int| 0 <= j < i && #[trigger] ls[j].file == fv@[x]@;
                    assert(ls[j].file == fv@[x]@);
                }
                assert forall|j: int| 0 <= j < i + 1 implies #[trigger] has_file(frames(fv@), ls[j].file) by {
                    if j == i {
                        assert(frames(fv@)[fv@.len() - 1] == ls[j].file);
                    }
                }
            }
        }
        i += 1;
    }
    let ghost fs = frames(fv@);
    let mut files: Vec<String> = Vec::new();
    let mut k: usize = 0;
    while k < fv.len()
        invariant
            k <= fv@.len(),
            fs == frames(fv@),
            texts(files@) == fs.take(k as int),
        decreases fv@.len() - k,
    {
        let ghost before = files@;
        let len = fv[k].len();
        assert(fv@[k as int]@.subrange(0, len as int) =~= fv@[k as int]@);
        let f = crate::text::string_of(&fv[k], 0, len);
        files.push(f);
        assert(texts(files@) =~= texts(before).push(f@));
        assert(fs.take(k + 1) =~= fs.take(k as int).push(fs[k as int]));
        k += 1;
    }
    proof {
        let out = texts(files@);
        assert(out =~= fs);
        assert forall|x: int| 0 <= x < out.len() implies #[trigger] runs_from(tr, out[x]) by {
            assert(first_files(ls, ls.len() as int, fv@[x]@));
            let j = choose|j: int| 0 <= j < ls.len() && #[trigger] ls[j].file == fv@[x]@;
            assert(line_count(tr, n, ls[j].file, ls[j].line) > 0);
            lemma_line_count_witness(tr, n, ls[j].file, ls[j].line);
            let k = choose|k: int| 0 <= k < n && #[trigger] has_key(tr.events[k], ls[j].file, ls[j].line);
            assert(tr.events[k].source == out[x]);
        }
        assert forall|k: int| 0 <= k < n implies #[trigger] has_file(out, tr.events[k].source) by {
            assert(has_line_row(ls, tr.events[k]));
            let j = choose|j: int| 0 <= j < ls.len() && #[trigger] has_key(tr.events[k], ls[j].file, ls[j].line);
            assert(has_file(fs, ls[j].file));
        }
    }
    files
}

/// The line table with its files as strings.
fn finish_lines(acc: Vec<LineAcc>) -> (out: Vec<LineStat>)
    ensures
        out@.map_values(|l: LineStat| l@) == laccs(acc@),
{
    let ghost src = laccs(acc@);
    let mut out: Vec<LineStat> = Vec::new();
    for a in it: acc.into_iter()
        invariant
            it.seq() == acc@,
            src == laccs(acc@),
            out@.map_values(|l: LineStat| l@) == src.take(it.index() as int),
    {
        let ghost idx = it.index() as int;
        let ghost before = out@;
        let len = a.file.len();
        assert(a.file@.subrange(0, len as int) =~= a.file@);
        let row = LineStat {
            file: crate::text::string_of(&a.file, 0, len),
            line: a.line,
            count: a.count,
            self_us: a.self_us,
            max_us: a.max_us,
            command: a.command,
        };
        out.push(row);
        assert(out@.map_values(|l: LineStat| l@) =~= before.map_values(|l: LineStat| l@).push(row@));
        assert(src.take(idx + 1) =~= src.take(idx).push(src[idx]));
    }
    assert(src.take(src.len() as int) =~= src);
    out
}

/// The sample of an event whose stack is `stack`.
fn make_sample(stack: &Vec<Vec<char>>, ev: &Event, st: u64) -> (s: Sample)
    ensures
        s@ == (SampleV {
            stack: seq![root_frame()] + frames(stack@),
            file: ev@.source,
            line: ev@.line,
            self_us: st,
        }),
{
    let mut names: Vec<String> = Vec::new();
    let root = String::from_str(ROOT_FRAME);
    proof {
        reveal_strlit("main");
        assert(root@ =~= root_frame());
    }
    names.push(root);
    let mut j: usize = 0;
    while j < stack.len()
        invariant
            j <= stack@.len(),
            texts(names@) == seq![root_frame()] + frames(stack@).take(j as int),
        decreases stack@.len() - j,
    {
        let ghost before = names@;
        let len = stack[j].len();
        assert(stack@[j as int]@.subrange(0, len as int) =~= stack@[j as int]@);
        let f = crate::text::string_of(&stack[j], 0, len);
        names.push(f);
        assert(texts(names@) =~= texts(before).push(f@));
        assert(frames(stack@).take(j + 1) =~= frames(stack@).take(j as int).push(frames(stack@)[j as int]));
        j += 1;
    }
    assert(frames(stack@).take(stack@.len() as int) =~= frames(stack@));
    Sample { stack: names, file: ev.source.clone(), line: ev.line, self_us: st }
}

fn wall(trace: &Trace, first_ts: u64, last_ts: u64) -> (r: u64)
    ensures
        r == wall_time(trace@, first_ts, last_ts),
{
    let start = match trace.start_us {
        Some(s) => s,
        None => first_ts,
    };
    let end = match trace.end_us {
        Some(e) => e,
        None => last_ts,
    };
    if end >= start {
        end - start
    } else {
        0
    }
}

/// Builds the profile, or `None` when a line's or a function's total
/// self-time does not fit in `u64`.
pub fn try_build(trace: &Trace) -> (r: Option<Profile>)
    ensures
        r is Some <==> sums_fit(trace@),
        r matches Some(p) ==> profile_ok(trace@, p@),
{
    let ghost tr = trace@;
    let n = trace.events.len();
    let total_us = if n == 0 {
        wall(trace, 0, 0)
    } else {
        assert(tr.events[0] == trace.events@[0]@);
        assert(tr.events.last() == trace.events@[n - 1]@);
        wall(trace, trace.events[0].ts_us, trace.events[n - 1].ts_us)
    };
    let mut stack: Vec<Vec<char>> = Vec::new();
    let mut lacc: Vec<LineAcc> = Vec::new();
    let mut facc: Vec<FuncAcc> = Vec::new();
    let mut samples: Vec<Sample> = Vec::new();
    assert(frames(stack@) =~= stack_after(tr.events, 0));
    assert(samples@.map_values(|s: Sample| s@) =~= samples_of(tr).take(0));
    for i in 0..n
        invariant
            n == trace.events@.len(),
            tr == trace@,
            frames(stack@) == stack_after(tr.events, i as int),
            lines_upto(tr, i as int, laccs(lacc@)),
            funcs_upto(tr, i as int, faccs(facc@)),
            line_sums_fit(tr, i as int),
            func_sums_fit(tr, i as int),
            samples@.map_values(|s: Sample| s@) == samples_of(tr).take(i as int),
    {
        assert(tr.events[i as int] == trace.events@[i as int]@);
        let st = event_self_time(trace, i);
        let ent = adjust_stack(&mut stack, &trace.events[i]);
        let leaf_name = if stack.len() == 0 {
            let mut m: Vec<char> = Vec::new();
            m.push('m');
            m.push('a');
            m.push('i');
            m.push('n');
            assert(m@ =~= root_frame());
            m
        } else {
            copy_chars(&stack[stack.len() - 1])
        };
        if !record_func(&mut facc, Ghost(tr), i, leaf_name, ent, st) {
            return None;
        }
        let file = to_chars(trace.events[i].source.as_str());
        if !record_line(&mut lacc, trace, i, &file, st) {
            return None;
        }
        let ghost before = samples@;
        let sample = make_sample(&stack, &trace.events[i], st);
        samples.push(sample);
        assert(samples@.map_values(|s: Sample| s@) =~= before.map_values(|s: Sample| s@).push(sample@));
        assert(samples_of(tr).take(i + 1) =~= samples_of(tr).take(i as int).push(sample_of(tr, i as int)));
    }
    assert(samples_of(tr).take(n as int) =~= samples_of(tr));
    let files = collect_files(&lacc, Ghost(tr));
    let lines = finish_lines(lacc);
    let funcs = sort_funcs(facc, Ghost(tr));
    let script = match &trace.script {
        Some(s) => Some(s.clone()),
        None => None,
    };
    Some(
        Profile {
            script,
            exit_code: trace.exit_code,
            total_us,
            commands: n as u64,
            files,
            lines,
            funcs,
            samples,
            skipped: trace.skipped,
        },
    )
}

/// Build a [`Profile`] from a parsed [`Trace`].
pub fn build(trace: &Trace) -> (p: Profile)
    requires
        sums_fit(trace@),
    ensures
        profile_ok(trace@, p@),
{
    match try_build(trace) {
        Some(p) => p,
        None => {
            assert(false);
            Profile::default()
        },
    }
}

// ---------------------------------------------------------------------
// The profile is a function of the trace
// ---------------------------------------------------------------------

pub open spec fn line_order() -> spec_fn(LineStatV, LineStatV) -> bool {
    |a: LineStatV, b: LineStatV| key_lt(a.file, a.line, b.file, b.line)
}

pub open spec fn func_order() -> spec_fn(FuncStatV, FuncStatV) -> bool {
    |a: FuncStatV, b: FuncStatV| func_before(a, b)
}

pub open spec fn file_order() -> spec_fn(Seq<char>, Seq<char>) -> bool {
    |a: Seq<char>, b: Seq<char>| seq_lt(a, b)
}

proof fn lemma_line_row_in(tr: TraceV, a: Seq<LineStatV>, b: Seq<LineStatV>, x: LineStatV)
    requires
        lines_ok(tr, a),
        lines_ok(tr, b),
        a.contains(x),
    ensures
        b.contains(x),
{
    let n = tr.events.len() as int;
    let i = choose|i: int| 0 <= i < a.len() && a[i] == x;
    assert(a[i] == line_stat_at(tr, n, a[i].file, a[i].line) && line_count(tr, n, a[i].file, a[i].line) > 0);
    lemma_line_count_witness(tr, n, x.file, x.line);
    let k = choose|k: int| 0 <= k < n && #[trigger] has_key(tr.events[k], x.file, x.line);
    assert(has_line_row(b, tr.events[k]));
    let j = choose|j: int| 0 <= j < b.len() && #[trigger] has_key(tr.events[k], b[j].file, b[j].line);
    assert(b[j] == line_stat_at(tr, n, b[j].file, b[j].line));
    assert(b[j] == x);
}

proof fn lemma_lines_unique(tr: TraceV, l1: Seq<LineStatV>, l2: Seq<LineStatV>)
    requires
        lines_ok(tr, l1),
        lines_ok(tr, l2),
    ensures
        l1 == l2,
{
    let lt = line_order();
    let n = tr.events.len() as int;
    assert(strictly_sorted(l1, lt));
    assert(strictly_sorted(l2, lt));
    assert forall|x: LineStatV| !#[trigger] lt(x, x) by {
        lemma_key_lt_irrefl(x.file, x.line);
    }
    assert forall|x: LineStatV, y: LineStatV, z: LineStatV| #[trigger] lt(x, y) && #[trigger] lt(y, z) implies lt(
        x,
        z,
    ) by {
        lemma_key_lt_trans(x.file, x.line, y.file, y.line, z.file, z.line);
    }
    assert forall|x: LineStatV, y: LineStatV|
        l1.contains(x) && l1.contains(y) && x != y implies #[trigger] lt(x, y) || #[trigger] lt(y, x) by {
        let i = choose|i: int| 0 <= i < l1.len() && l1[i] == x;
        let j = choose|j: int| 0 <= j < l1.len() && l1[j] == y;
        assert(l1[i] == line_stat_at(tr, n, l1[i].file, l1[i].line));
        assert(l1[j] == line_stat_at(tr, n, l1[j].file, l1[j].line));
        lemma_key_lt_total(x.file, x.line, y.file, y.line);
    }
    assert forall|x: LineStatV| l1.contains(x) <==> l2.contains(x) by {
        if l1.contains(x) {
            lemma_line_row_in(tr, l1, l2, x);
        }
        if l2.contains(x) {
            lemma_line_row_in(tr, l2, l1, x);
        }
    }
    lemma_sorted_unique(l1, l2, lt);
}

proof fn lemma_func_row_in(tr: TraceV, a: Seq<FuncStatV>, b: Seq<FuncStatV>, x: FuncStatV)
    requires
        funcs_ok(tr, a),
        funcs_ok(tr, b),
        a.contains(x),
    ensures
        b.contains(x),
{
    let n = tr.events.len() as int;
    let i = choose|i: int| 0 <= i < a.len() && a[i] == x;
    assert(a[i] == func_stat_of(tr, a[i].name) && func_count(tr, n, a[i].name) > 0);
    lemma_func_count_witness(tr, n, x.name);
    let k = choose|k: int| 0 <= k < n && #[trigger] leaf(tr.events, k) == x.name;
    assert(has_func_row(b, leaf(tr.events, k)));
    let j = choose|j: int| 0 <= j < b.len() && #[trigger] b[j].name == leaf(tr.events, k);
    assert(b[j] == func_stat_of(tr, b[j].name));
    assert(b[j] == x);
}

proof fn lemma_funcs_unique(tr: TraceV, f1: Seq<FuncStatV>, f2: Seq<FuncStatV>)
    requires
        funcs_ok(tr, f1),
        funcs_ok(tr, f2),
    ensures
        f1 == f2,
{
    let lt = func_order();
    assert(strictly_sorted(f1, lt));
    assert(strictly_sorted(f2, lt));
    assert forall|x: FuncStatV| !#[trigger] lt(x, x) by {
        lemma_func_before_asym(x, x);
    }
    assert forall|x: FuncStatV, y: FuncStatV, z: FuncStatV| #[trigger] lt(x, y) && #[trigger] lt(y, z) implies lt(
        x,
        z,
    ) by {
        lemma_func_before_trans(x, y, z);
    }
    assert forall|x: FuncStatV, y: FuncStatV|
        f1.contains(x) && f1.contains(y) && x != y implies #[trigger] lt(x, y) || #[trigger] lt(y, x) by {
        let i = choose|i: int| 0 <= i < f1.len() && f1[i] == x;
        let j = choose|j: int| 0 <= j < f1.len() && f1[j] == y;
        assert(f1[i] == func_stat_of(tr, f1[i].name));
        assert(f1[j] == func_stat_of(tr, f1[j].name));
        lemma_func_before_total(x, y);
    }
    assert forall|x: FuncStatV| f1.contains(x) <==> f2.contains(x) by {
        if f1.contains(x) {
            lemma_func_row_in(tr, f1, f2, x);
        }
        if f2.contains(x) {
            lemma_func_row_in(tr, f2, f1, x);
        }
    }
    lemma_sorted_unique(f1, f2, lt);
}

proof fn lemma_file_in(tr: TraceV, a: Seq<Seq<char>>, b: Seq<Seq<char>>, x: Seq<char>)
    requires
        files_ok(tr, a),
        files_ok(tr, b),
        a.contains(x),
    ensures
        b.contains(x),
{
    let i = choose|i: int| 0 <= i < a.len() && a[i] == x;
    assert(runs_from(tr, a[i]));
    let k = choose|k: int| 0 <= k < tr.events.len() && #[trigger] tr.events[k].source == x;
    assert(has_file(b, tr.events[k].source));
    let j = choose|j: int| 0 <= j < b.len() && #[trigger] b[j] == tr.events[k].source;
    assert(b[j] == x);
}

proof fn lemma_files_unique(tr: TraceV, a: Seq<Seq<char>>, b: Seq<Seq<char>>)
    requires
        files_ok(tr, a),
        files_ok(tr, b),
    ensures
        a == b,
{
    let lt = file_order();
    assert(strictly_sorted(a, lt));
    assert(strictly_sorted(b, lt));
    assert forall|x: Seq<char>| !#[trigger] lt(x, x) by {
        lemma_seq_lt_irrefl(x);
    }
    assert forall|x: Seq<char>, y: Seq<char>, z: Seq<char>| #[trigger] lt(x, y) && #[trigger] lt(y, z) implies lt(
        x,
        z,
    ) by {
        lemma_seq_lt_trans(x, y, z);
    }
    assert forall|x: Seq<char>, y: Seq<char>|
        a.contains(x) && a.contains(y) && x != y implies #[trigger] lt(x, y) || #[trigger] lt(y, x) by {
        lemma_seq_lt_total(x, y);
    }
    assert forall|x: Seq<char>| a.contains(x) <==> b.contains(x) by {
        if a.contains(x) {
            lemma_file_in(tr, a, b, x);
        }
        if b.contains(x) {
            lemma_file_in(tr, b, a, x);
        }
    }
    lemma_sorted_unique(a, b, lt);
}

/// A trace has exactly one profile: whatever builds it, the header, the
/// three tables (each strictly ordered) and the samples are determined by
/// the trace, so reports rendered from it are byte-stable.
pub proof fn law_profile_is_determined(tr: TraceV, p: ProfileV, q: ProfileV)
    requires
        profile_ok(tr, p),
        profile_ok(tr, q),
    ensures
        p == q,
{
    lemma_lines_unique(tr, p.lines, q.lines);
    lemma_funcs_unique(tr, p.funcs, q.funcs);
    lemma_files_unique(tr, p.files, q.files);
}

// ---------------------------------------------------------------------
// The totals add up
// ---------------------------------------------------------------------

/// The self-time of every event, added up.
pub open spec fn self_total(tr: TraceV) -> nat {
    total(event_weight(tr), tr.events.len() as int)
}

pub open spec fn event_weight(tr: TraceV) -> spec_fn(int) -> nat {
    |j: int| self_time(tr, j) as nat
}

pub open spec fn line_key(tr: TraceV) -> spec_fn(int) -> (Seq<char>, u32) {
    |j: int| (tr.events[j].source, tr.events[j].line)
}

pub open spec fn leaf_key(tr: TraceV) -> spec_fn(int) -> Seq<char> {
    |j: int| leaf(tr.events, j)
}

pub open spec fn sample_self_total(ss: Seq<SampleV>) -> nat {
    sum_rows(ss, |s: SampleV| s.self_us as nat)
}

pub open spec fn line_self_total(ls: Seq<LineStatV>) -> nat {
    sum_rows(ls, |l: LineStatV| l.self_us as nat)
}

pub open spec fn line_count_total(ls: Seq<LineStatV>) -> nat {
    sum_rows(ls, |l: LineStatV| l.count as nat)
}

pub open spec fn func_self_total(fs: Seq<FuncStatV>) -> nat {
    sum_rows(fs, |f: FuncStatV| f.self_us as nat)
}

pub open spec fn func_command_total(fs: Seq<FuncStatV>) -> nat {
    sum_rows(fs, |f: FuncStatV| f.commands as nat)
}

proof fn lemma_line_groups(tr: TraceV, n: int, f: Seq<char>, l: u32)
    ensures
        line_sum(tr, n, f, l) == group_sum(line_key(tr), event_weight(tr), n, (f, l)),
        line_count(tr, n, f, l) == group_sum(line_key(tr), |j: int| 1nat, n, (f, l)),
    decreases n,
{
    if n > 0 {
        lemma_line_groups(tr, n - 1, f, l);
        assert(has_key(tr.events[n - 1], f, l) <==> line_key(tr)(n - 1) == (f, l));
    }
}

proof fn lemma_func_groups(tr: TraceV, n: int, name: Seq<char>)
    ensures
        func_sum(tr, n, name) == group_sum(leaf_key(tr), event_weight(tr), n, name),
        func_count(tr, n, name) == group_sum(leaf_key(tr), |j: int| 1nat, n, name),
    decreases n,
{
    if n > 0 {
        lemma_func_groups(tr, n - 1, name);
    }
}

/// The samples of a trace carry its whole self-time.
pub proof fn lemma_samples_total(tr: TraceV)
    ensures
        sample_self_total(samples_of(tr)) == self_total(tr),
{
    let g = |i: int| sample_of(tr, i);
    let f = |s: SampleV| s.self_us as nat;
    lemma_sum_rows_new(tr.events.len(), g, f);
    assert((|j: int| f(g(j))) =~= event_weight(tr));
}

/// The numbers add up, with nothing counted twice: the per-line table, the
/// per-function table and the samples each hold the trace's whole
/// self-time, and every traced command is counted once by line and once by
/// function. (Stated where every per-line and per-function total fits in
/// the table's `u64`.)
pub proof fn law_totals_add_up(tr: TraceV, p: ProfileV)
    requires
        profile_ok(tr, p),
        sums_fit(tr),
    ensures
        sample_self_total(p.samples) == self_total(tr),
        line_self_total(p.lines) == self_total(tr),
        func_self_total(p.funcs) == self_total(tr),
        line_count_total(p.lines) == p.commands,
        func_command_total(p.funcs) == p.commands,
{
    let n = tr.events.len() as int;
    lemma_samples_total(tr);
    lemma_total_ones(n);
    // Per-line table.
    let ls = p.lines;
    let lk = |r: LineStatV| (r.file, r.line);
    assert(keys_distinct(ls, lk)) by {
        assert forall|i: int, j: int| 0 <= i < j < ls.len() implies lk(#[trigger] ls[i]) != lk(
            #[trigger] ls[j],
        ) by {
            lemma_key_lt_irrefl(ls[i].file, ls[i].line);
        }
    }
    assert forall|j: int| 0 <= j < n implies has_key_row(ls, lk, #[trigger] line_key(tr)(j)) by {
        assert(has_line_row(ls, tr.events[j]));
        let i = choose|i: int| 0 <= i < ls.len() && #[trigger] has_key(tr.events[j], ls[i].file, ls[i].line);
        assert(lk(ls[i]) == line_key(tr)(j));
    }
    lemma_groups_add_up(ls, lk, line_key(tr), event_weight(tr), n);
    lemma_groups_add_up(ls, lk, line_key(tr), |j: int| 1nat, n);
    assert forall|i: int| 0 <= i < ls.len() implies (|l: LineStatV| l.self_us as nat)(#[trigger] ls[i])
        == (|a: LineStatV| group_sum(line_key(tr), event_weight(tr), n, lk(a)))(ls[i]) by {
        assert(ls[i] == line_stat_at(tr, n, ls[i].file, ls[i].line));
        lemma_line_groups(tr, n, ls[i].file, ls[i].line);
        assert(line_sum(tr, n, ls[i].file, ls[i].line) <= u64::MAX);
    }
    lemma_sum_rows_congruent(
        ls,
        |l: LineStatV| l.self_us as nat,
        |a: LineStatV| group_sum(line_key(tr), event_weight(tr), n, lk(a)),
    );
    assert forall|i: int| 0 <= i < ls.len() implies (|l: LineStatV| l.count as nat)(#[trigger] ls[i])
        == (|a: LineStatV| group_sum(line_key(tr), |j: int| 1nat, n, lk(a)))(ls[i]) by {
        assert(ls[i] == line_stat_at(tr, n, ls[i].file, ls[i].line));
        lemma_line_groups(tr, n, ls[i].file, ls[i].line);
        lemma_line_count_bound(tr, n, ls[i].file, ls[i].line);
    }
    lemma_sum_rows_congruent(
        ls,
        |l: LineStatV| l.count as nat,
        |a: LineStatV| group_sum(line_key(tr), |j: int| 1nat, n, lk(a)),
    );
    // Per-function table.
    let fs = p.funcs;
    let fk = |r: FuncStatV| r.name;
    assert(keys_distinct(fs, fk)) by {
        assert forall|i: int, j: int| 0 <= i < j < fs.len() implies fk(#[trigger] fs[i]) != fk(
            #[trigger] fs[j],
        ) by {
            assert(fs[i] == func_stat_of(tr, fs[i].name));
            assert(fs[j] == func_stat_of(tr, fs[j].name));
            lemma_func_before_asym(fs[i], fs[j]);
        }
    }
    assert forall|j: int| 0 <= j < n implies has_key_row(fs, fk, #[trigger] leaf_key(tr)(j)) by {
        assert(has_func_row(fs, leaf(tr.events, j)));
        let i = choose|i: int| 0 <= i < fs.len() && #[trigger] fs[i].name == leaf(tr.events, j);
        assert(fk(fs[i]) == leaf_key(tr)(j));
    }
    lemma_groups_add_up(fs, fk, leaf_key(tr), event_weight(tr), n);
    lemma_groups_add_up(fs, fk, leaf_key(tr), |j: int| 1nat, n);
    assert forall|i: int| 0 <= i < fs.len() implies (|f: FuncStatV| f.self_us as nat)(#[trigger] fs[i])
        == (|a: FuncStatV| group_sum(leaf_key(tr), event_weight(tr), n, fk(a)))(fs[i]) by {
        assert(fs[i] == func_stat_of(tr, fs[i].name));
        lemma_func_groups(tr, n, fs[i].name);
        assert(func_sum(tr, n, fs[i].name) <= u64::MAX);
    }
    lemma_sum_rows_congruent(
        fs,
        |f: FuncStatV| f.self_us as nat,
        |a: FuncStatV| group_sum(leaf_key(tr), event_weight(tr), n, fk(a)),
    );
    assert forall|i: int| 0 <= i < fs.len() implies (|f: FuncStatV| f.commands as nat)(#[trigger] fs[i])
        == (|a: FuncStatV| group_sum(leaf_key(tr), |j: int| 1nat, n, fk(a)))(fs[i]) by {
        assert(fs[i] == func_stat_of(tr, fs[i].name));
        lemma_func_groups(tr, n, fs[i].name);
        lemma_func_count_bound(tr, n, fs[i].name);
    }
    lemma_sum_rows_congruent(
        fs,
        |f: FuncStatV| f.commands as nat,
        |a: FuncStatV| group_sum(leaf_key(tr), |j: int| 1nat, n, fk(a)),
    );
}

proof fn lemma_partial_self_total(tr: TraceV, e: u64, k: int)
    requires
        1 <= k <= tr.events.len(),
        forall|i: int, j: int|
            0 <= i <= j < tr.events.len() ==> #[trigger] tr.events[i].ts_us <= #[trigger] tr.events[j].ts_us,
        tr.end_us == Some(e),
        e >= tr.events.last().ts_us,
    ensures
        total(event_weight(tr), k) == (if k < tr.events.len() {
            tr.events[k].ts_us as int
        } else {
            e as int
        }) - tr.events[0].ts_us,
    decreases k,
{
    let n = tr.events.len() as int;
    assert(tr.events[k - 1].ts_us <= (if k < n {
        tr.events[k].ts_us
    } else {
        e
    })) by {
        if k < n {
            assert(tr.events[k - 1].ts_us <= tr.events[k].ts_us);
        } else {
            assert(tr.events[k - 1] == tr.events.last());
        }
    }
    let w = event_weight(tr);
    let next: u64 = if k < n {
        tr.events[k].ts_us
    } else {
        e
    };
    assert(self_time(tr, k - 1) == next - tr.events[k - 1].ts_us);
    assert(w(k - 1) == next - tr.events[k - 1].ts_us);
    assert(total(w, k) == total(w, k - 1) + w(k - 1));
    if k > 1 {
        lemma_partial_self_total(tr, e, k - 1);
        assert(total(w, k - 1) == tr.events[k - 1].ts_us - tr.events[0].ts_us);
    } else {
        assert(total(w, 0) == 0);
    }
}

/// With timestamps in order and an `END` record at or after the last
/// event, the events' self-times partition the run: they add up to the
/// time from the first event to `END`, nothing lost and nothing counted
/// twice.
pub proof fn law_self_times_partition_the_run(tr: TraceV, e: u64)
    requires
        tr.events.len() > 0,
        forall|i: int, j: int|
            0 <= i <= j < tr.events.len() ==> #[trigger] tr.events[i].ts_us <= #[trigger] tr.events[j].ts_us,
        tr.end_us == Some(e),
        e >= tr.events.last().ts_us,
    ensures
        self_total(tr) == e - tr.events[0].ts_us,
{
    lemma_partial_self_total(tr, e, tr.events.len() as int);
}

/// One sample per event, in order: the event's gap to the next one (or to
/// `END`) clamped at zero, its file and line, and a stack whose outermost
/// frame is `main`.
pub proof fn law_samples_follow_events(tr: TraceV, p: ProfileV)
    requires
        profile_ok(tr, p),
    ensures
        p.commands == tr.events.len(),
        p.samples.len() == tr.events.len(),
        forall|i: int|
            0 <= i < p.samples.len() ==> {
                let s = #[trigger] p.samples[i];
                &&& s.self_us == self_time(tr, i)
                &&& s.file == tr.events[i].source
                &&& s.line == tr.events[i].line
                &&& s.stack.len() >= 1
                &&& s.stack[0] == root_frame()
            },
{
    assert forall|i: int| 0 <= i < p.samples.len() implies {
        let s = #[trigger] p.samples[i];
        &&& s.self_us == self_time(tr, i)
        &&& s.file == tr.events[i].source
        &&& s.line == tr.events[i].line
        &&& s.stack.len() >= 1
        &&& s.stack[0] == root_frame()
    } by {
        assert(p.samples[i] == sample_of(tr, i));
    }
}

/// Some event of the trace ran `file:line`.
pub open spec fn executed(tr: TraceV, file: Seq<char>, line: u32) -> bool {
    exists|k: int| 0 <= k < tr.events.len() && #[trigger] has_key(tr.events[k], file, line)
}

/// The three tables of a profile: one line row per distinct `file:line`
/// executed, strictly in source order; one function row per distinct
/// innermost frame, by self-time descending then name; and the files,
/// strictly sorted, exactly those of the line rows.
pub proof fn law_profile_tables(tr: TraceV, p: ProfileV)
    requires
        profile_ok(tr, p),
    ensures
        forall|i: int, j: int|
            0 <= i < j < p.lines.len() ==> key_lt(
                #[trigger] p.lines[i].file,
                p.lines[i].line,
                #[trigger] p.lines[j].file,
                p.lines[j].line,
            ),
        forall|k: int| 0 <= k < tr.events.len() ==> #[trigger] has_line_row(p.lines, tr.events[k]),
        forall|i: int| 0 <= i < p.lines.len() ==> #[trigger] executed(tr, p.lines[i].file, p.lines[i].line),
        forall|i: int, j: int| 0 <= i < j < p.funcs.len() ==> func_before(#[trigger] p.funcs[i], #[trigger] p.funcs[j]),
        forall|i: int, j: int|
            0 <= i < j < p.funcs.len() ==> (#[trigger] p.funcs[i]).name != (#[trigger] p.funcs[j]).name,
        forall|i: int, j: int| 0 <= i < j < p.files.len() ==> seq_lt(#[trigger] p.files[i], #[trigger] p.files[j]),
        forall|f: Seq<char>| p.files.contains(f) <==> exists|i: int| 0 <= i < p.lines.len() && #[trigger] p.lines[i].file == f,
{
    let n = tr.events.len() as int;
    let ls = p.lines;
    assert forall|i: int| 0 <= i < p.lines.len() implies #[trigger] executed(tr, p.lines[i].file, p.lines[i].line) by {
        assert(p.lines[i] == line_stat_at(tr, n, p.lines[i].file, p.lines[i].line) && line_count(
            tr,
            n,
            p.lines[i].file,
            p.lines[i].line,
        ) > 0);
        lemma_line_count_witness(tr, n, p.lines[i].file, p.lines[i].line);
    }    assert forall|i: int, j: int| 0 <= i < j < p.funcs.len() implies (#[trigger] p.funcs[i]).name != (
    #[trigger] p.funcs[j]).name by {
        assert(p.funcs[i] == func_stat_of(tr, p.funcs[i].name));
        assert(p.funcs[j] == func_stat_of(tr, p.funcs[j].name));
        lemma_func_before_asym(p.funcs[i], p.funcs[j]);
    }
    assert forall|f: Seq<char>| p.files.contains(f) <==> exists|i: int| 0 <= i < ls.len() && #[trigger] ls[i].file == f by {
        if p.files.contains(f) {
            let i = choose|i: int| 0 <= i < p.files.len() && p.files[i] == f;
            assert(runs_from(tr, p.files[i]));
            let k = choose|k: int| 0 <= k < n && #[trigger] tr.events[k].source == f;
            assert(has_line_row(ls, tr.events[k]));
            let r = choose|r: int| 0 <= r < ls.len() && #[trigger] has_key(tr.events[k], ls[r].file, ls[r].line);
            assert(ls[r].file == f);
        }
        if exists|i: int| 0 <= i < ls.len() && #[trigger] ls[i].file == f {
            let i = choose|i: int| 0 <= i < ls.len() && #[trigger] ls[i].file == f;
            assert(ls[i] == line_stat_at(tr, n, ls[i].file, ls[i].line) && line_count(tr, n, ls[i].file, ls[i].line) > 0);
            lemma_line_count_witness(tr, n, ls[i].file, ls[i].line);
            let k = choose|k: int| 0 <= k < n && #[trigger] has_key(tr.events[k], ls[i].file, ls[i].line);
            assert(has_file(p.files, tr.events[k].source));
            let j = choose|j: int| 0 <= j < p.files.len() && #[trigger] p.files[j] == tr.events[k].source;
            assert(p.files[j] == f);
        }
    }
}

/// One event's step of the call-stack reconstruction. With `d` the
/// event's effective depth: the stack becomes `d` frames long; when `d > 0`
/// its innermost frame is the event's function, the frames the old stack
/// had below that depth are kept, and any frames in between are `?`; the
/// event enters a function exactly when it goes deeper than the old stack
/// or replaces the frame at its depth by another name. Subshell levels
/// play no part.
pub proof fn law_stack_step(stack: Seq<Seq<char>>, ev: EventV, sub: u32)
    ensures
        ({
            let d = depth_of(ev) as int;
            let (r, entered) = adjust(stack, ev);
            let m = if stack.len() < d - 1 {
                stack.len() as int
            } else {
                d - 1
            };
            &&& r.len() == d
            &&& d > 0 ==> r[d - 1] == ev.func
            &&& d > 0 ==> r.take(m) == stack.take(m)
            &&& forall|i: int| m <= i < d - 1 ==> #[trigger] r[i] == unknown_frame()
            &&& entered == (d > 0 && (d > stack.len() || stack[d - 1] != ev.func))
            &&& adjust(stack, EventV { subshell: sub, ..ev }) == adjust(stack, ev)
        }),
{
    let d = depth_of(ev) as int;
    let (r, entered) = adjust(stack, ev);
    if d > stack.len() {
        let fill = Seq::new((d - 1 - stack.len()) as nat, |i: int| unknown_frame());
        assert(r =~= stack + fill + seq![ev.func]);
        assert(r.take(stack.len() as int) =~= stack);
        assert(stack.take(stack.len() as int) =~= stack);
        assert forall|i: int| stack.len() <= i < d - 1 implies #[trigger] r[i] == unknown_frame() by {
            assert(r[i] == fill[i - stack.len()]);
        }
    } else if d > 0 {
        let t = stack.take(d);
        assert(t.last() == stack[d - 1]);
        if t.last() != ev.func {
            assert(r =~= t.drop_last().push(ev.func));
            assert(r.take(d - 1) =~= stack.take(d - 1));
        } else {
            assert(r.take(d - 1) =~= stack.take(d - 1));
        }
    }
}

/// How many of the first `n` samples have `name` as their innermost
/// (last) frame.
pub open spec fn innermost_count(ss: Seq<SampleV>, n: int, name: Seq<char>) -> nat
    decreases n,
{
    if n <= 0 {
        0
    } else {
        innermost_count(ss, n - 1, name) + if ss[n - 1].stack.last() == name {
            1nat
        } else {
            0nat
        }
    }
}

/// The self-time of those samples.
pub open spec fn innermost_sum(ss: Seq<SampleV>, n: int, name: Seq<char>) -> nat
    decreases n,
{
    if n <= 0 {
        0
    } else {
        innermost_sum(ss, n - 1, name) + if ss[n - 1].stack.last() == name {
            ss[n - 1].self_us as nat
        } else {
            0nat
        }
    }
}

proof fn lemma_sample_innermost(tr: TraceV, k: int)
    requires
        0 <= k < tr.events.len(),
    ensures
        sample_of(tr, k).stack.len() >= 1,
        sample_of(tr, k).stack.last() == leaf(tr.events, k),
{
    let st = stack_after(tr.events, k + 1);
    let full = seq![root_frame()] + st;
    if st.len() > 0 {
        assert(full.last() == st.last());
    } else {
        assert(full.last() == root_frame());
    }
}

proof fn lemma_innermost_groups(tr: TraceV, n: int, name: Seq<char>)
    requires
        0 <= n <= tr.events.len(),
    ensures
        func_count(tr, n, name) == innermost_count(samples_of(tr), n, name),
        func_sum(tr, n, name) == innermost_sum(samples_of(tr), n, name),
    decreases n,
{
    if n > 0 {
        lemma_innermost_groups(tr, n - 1, name);
        lemma_sample_innermost(tr, n - 1);
        assert(samples_of(tr)[n - 1] == sample_of(tr, n - 1));
    }
}

/// Each function row is charged with the commands whose innermost frame
/// it is: for every sample, its stack's last frame has a row, and a row's
/// command count (and, where totals fit, its self-time) is that of the
/// samples whose stack ends in its name.
pub proof fn law_funcs_charge_innermost_frame(tr: TraceV, p: ProfileV)
    requires
        profile_ok(tr, p),
    ensures
        forall|k: int|
            0 <= k < p.samples.len() ==> exists|i: int|
                0 <= i < p.funcs.len() && #[trigger] p.funcs[i].name == (#[trigger] p.samples[k]).stack.last(),
        forall|i: int|
            0 <= i < p.funcs.len() ==> (#[trigger] p.funcs[i]).commands == innermost_count(
                p.samples,
                p.samples.len() as int,
                p.funcs[i].name,
            ),
        sums_fit(tr) ==> forall|i: int|
            0 <= i < p.funcs.len() ==> (#[trigger] p.funcs[i]).self_us == innermost_sum(
                p.samples,
                p.samples.len() as int,
                p.funcs[i].name,
            ),
{
    let n = tr.events.len() as int;
    assert forall|k: int| 0 <= k < p.samples.len() implies exists|i: int|
        0 <= i < p.funcs.len() && #[trigger] p.funcs[i].name == (#[trigger] p.samples[k]).stack.last() by {
        lemma_sample_innermost(tr, k);
        assert(p.samples[k] == sample_of(tr, k));
        assert(has_func_row(p.funcs, leaf(tr.events, k)));
    }
    assert forall|i: int| 0 <= i < p.funcs.len() implies (#[trigger] p.funcs[i]).commands == innermost_count(
        p.samples,
        p.samples.len() as int,
        p.funcs[i].name,
    ) by {
        assert(p.funcs[i] == func_stat_of(tr, p.funcs[i].name));
        lemma_func_count_bound(tr, n, p.funcs[i].name);
        lemma_innermost_groups(tr, n, p.funcs[i].name);
    }
    if sums_fit(tr) {
        assert forall|i: int| 0 <= i < p.funcs.len() implies (#[trigger] p.funcs[i]).self_us == innermost_sum(
            p.samples,
            p.samples.len() as int,
            p.funcs[i].name,
        ) by {
            assert(p.funcs[i] == func_stat_of(tr, p.funcs[i].name));
            assert(func_sum(tr, n, p.funcs[i].name) <= u64::MAX);
            lemma_innermost_groups(tr, n, p.funcs[i].name);
        }
    }
}

/// Sample `i` enters a function: its stack (below `main`) is deeper than
/// the previous sample's, or replaces the previous sample's frame at its
/// innermost depth by another name.
pub open spec fn enters(ss: Seq<SampleV>, i: int) -> bool {
    let cur = ss[i].stack.drop_first();
    let prev = if i == 0 {
        Seq::<Seq<char>>::empty()
    } else {
        ss[i - 1].stack.drop_first()
    };
    cur.len() > 0 && (cur.len() > prev.len() || prev[cur.len() - 1] != cur.last())
}

/// How many of the first `n` samples enter a function named `name`.
pub open spec fn entries(ss: Seq<SampleV>, n: int, name: Seq<char>) -> nat
    decreases n,
{
    if n <= 0 {
        0
    } else {
        entries(ss, n - 1, name) + if ss[n - 1].stack.last() == name && enters(ss, n - 1) {
            1nat
        } else {
            0nat
        }
    }
}

proof fn lemma_enters(tr: TraceV, i: int)
    requires
        0 <= i < tr.events.len(),
    ensures
        enters(samples_of(tr), i) == entered(tr.events, i),
        samples_of(tr)[i].stack.last() == leaf(tr.events, i),
{
    let ss = samples_of(tr);
    let evs = tr.events;
    lemma_sample_innermost(tr, i);
    assert(ss[i] == sample_of(tr, i));
    assert(ss[i].stack.drop_first() =~= stack_after(evs, i + 1));
    if i > 0 {
        assert(ss[i - 1] == sample_of(tr, i - 1));
        assert(ss[i - 1].stack.drop_first() =~= stack_after(evs, i));
    }
    law_stack_step(stack_after(evs, i), evs[i], 0);
    let cur = stack_after(evs, i + 1);
    if cur.len() > 0 {
        assert(cur.last() == evs[i].func);
    }
}

proof fn lemma_entries(tr: TraceV, n: int, name: Seq<char>)
    requires
        0 <= n <= tr.events.len(),
    ensures
        func_calls(tr, n, name) == entries(samples_of(tr), n, name),
    decreases n,
{
    if n > 0 {
        lemma_entries(tr, n - 1, name);
        lemma_enters(tr, n - 1);
    }
}

/// A function row's call count is the number of samples that enter it:
/// samples ending in its name whose stack goes deeper than the previous
/// sample's or replaces the previous innermost frame at that depth.
pub proof fn law_calls_count_entries(tr: TraceV, p: ProfileV)
    requires
        profile_ok(tr, p),
    ensures
        forall|i: int|
            0 <= i < p.funcs.len() ==> (#[trigger] p.funcs[i]).calls == entries(
                p.samples,
                p.samples.len() as int,
                p.funcs[i].name,
            ),
{
    let n = tr.events.len() as int;
    assert forall|i: int| 0 <= i < p.funcs.len() implies (#[trigger] p.funcs[i]).calls == entries(
        p.samples,
        p.samples.len() as int,
        p.funcs[i].name,
    ) by {
        assert(p.funcs[i] == func_stat_of(tr, p.funcs[i].name));
        lemma_func_count_bound(tr, n, p.funcs[i].name);
        lemma_entries(tr, n, p.funcs[i].name);
    }
}

/// Event `k` ran `file:line`, and no later event did.
pub open spec fn last_run(tr: TraceV, k: int, file: Seq<char>, line: u32) -> bool {
    &&& 0 <= k < tr.events.len()
    &&& has_key(tr.events[k], file, line)
    &&& forall|j: int| k < j < tr.events.len() ==> !has_key(#[trigger] tr.events[j], file, line)
}

proof fn lemma_line_facts(tr: TraceV, n: int, f: Seq<char>, l: u32)
    requires
        0 <= n <= tr.events.len(),
    ensures
        forall|k: int| 0 <= k < n && #[trigger] has_key(tr.events[k], f, l) ==> self_time(tr, k) <= line_max(tr, n, f, l),
        line_count(tr, n, f, l) > 0 ==> exists|k: int|
            0 <= k < n && #[trigger] has_key(tr.events[k], f, l) && self_time(tr, k) == line_max(tr, n, f, l),
        line_count(tr, n, f, l) > 0 ==> exists|k: int|
            0 <= k < n && #[trigger] has_key(tr.events[k], f, l) && (forall|j: int|
                k < j < n ==> !has_key(#[trigger] tr.events[j], f, l)) && line_command(tr, n, f, l)
                == tr.events[k].command,
    decreases n,
{
    if n > 0 {
        lemma_line_facts(tr, n - 1, f, l);
        if has_key(tr.events[n - 1], f, l) {
            assert(forall|j: int| n - 1 < j < n ==> !has_key(#[trigger] tr.events[j], f, l));
            let m = line_max(tr, n - 1, f, l);
            if self_time(tr, n - 1) > m {
                assert(self_time(tr, n - 1) == line_max(tr, n, f, l));
            } else if line_count(tr, n - 1, f, l) > 0 {
                let k = choose|k: int|
                    0 <= k < n - 1 && #[trigger] has_key(tr.events[k], f, l) && self_time(tr, k) == line_max(
                        tr,
                        n - 1,
                        f,
                        l,
                    );
                assert(has_key(tr.events[k], f, l) && self_time(tr, k) == line_max(tr, n, f, l));
            } else {
                lemma_line_count_zero(tr, n - 1, f, l);
                assert(self_time(tr, n - 1) == line_max(tr, n, f, l));
            }
        } else {
            if line_count(tr, n, f, l) > 0 {
                let k0 = choose|k: int|
                    0 <= k < n - 1 && #[trigger] has_key(tr.events[k], f, l) && self_time(tr, k) == line_max(
                        tr,
                        n - 1,
                        f,
                        l,
                    );
                assert(has_key(tr.events[k0], f, l) && self_time(tr, k0) == line_max(tr, n, f, l));
                let k = choose|k: int|
                    0 <= k < n - 1 && #[trigger] has_key(tr.events[k], f, l) && (forall|j: int|
                        k < j < n - 1 ==> !has_key(#[trigger] tr.events[j], f, l)) && line_command(
                        tr,
                        n - 1,
                        f,
                        l,
                    ) == tr.events[k].command;
                assert forall|j: int| k < j < n implies !has_key(#[trigger] tr.events[j], f, l) by {
                    if j < n - 1 {
                    }
                }
            }
        }
    }
}

/// A line row holds that line's executions: its count and (where totals
/// fit) self-time are those of the samples at that line; its largest
/// single time is the largest of those samples' times; its command is
/// that of the line's latest execution.
pub proof fn law_line_rows(tr: TraceV, p: ProfileV)
    requires
        profile_ok(tr, p),
    ensures
        forall|r: int|
            0 <= r < p.lines.len() ==> {
                let row = #[trigger] p.lines[r];
                &&& forall|k: int|
                    0 <= k < p.samples.len() && p.samples[k].file == row.file && p.samples[k].line == row.line
                        ==> #[trigger] p.samples[k].self_us <= row.max_us
                &&& exists|k: int|
                    0 <= k < p.samples.len() && p.samples[k].file == row.file && p.samples[k].line == row.line
                        && #[trigger] p.samples[k].self_us == row.max_us
                &&& exists|k: int| last_run(tr, k, row.file, row.line) && row.command == #[trigger] tr.events[k].command
            },
{
    let n = tr.events.len() as int;
    assert forall|r: int| 0 <= r < p.lines.len() implies {
        let row = #[trigger] p.lines[r];
        &&& forall|k: int|
            0 <= k < p.samples.len() && p.samples[k].file == row.file && p.samples[k].line == row.line
                ==> #[trigger] p.samples[k].self_us <= row.max_us
        &&& exists|k: int|
            0 <= k < p.samples.len() && p.samples[k].file == row.file && p.samples[k].line == row.line
                && #[trigger] p.samples[k].self_us == row.max_us
        &&& exists|k: int| last_run(tr, k, row.file, row.line) && row.command == #[trigger] tr.events[k].command
    } by {
        let row = p.lines[r];
        assert(row == line_stat_at(tr, n, row.file, row.line) && line_count(tr, n, row.file, row.line) > 0);
        lemma_line_facts(tr, n, row.file, row.line);
        lemma_line_max_le_sum(tr, n, row.file, row.line);
        assert forall|k: int|
            0 <= k < p.samples.len() && p.samples[k].file == row.file && p.samples[k].line == row.line
                implies #[trigger] p.samples[k].self_us <= row.max_us by {
            assert(p.samples[k] == sample_of(tr, k));
            assert(has_key(tr.events[k], row.file, row.line));
        }
        let k = choose|k: int|
            0 <= k < n && #[trigger] has_key(tr.events[k], row.file, row.line) && self_time(tr, k) == line_max(
                tr,
                n,
                row.file,
                row.line,
            );
        assert(p.samples[k] == sample_of(tr, k));
        assert(p.samples[k].file == row.file && p.samples[k].line == row.line);
        assert(p.samples[k].self_us == row.max_us);
        let k2 = choose|k: int|
            0 <= k < n && #[trigger] has_key(tr.events[k], row.file, row.line) && (forall|j: int|
                k < j < n ==> !has_key(#[trigger] tr.events[j], row.file, row.line)) && line_command(
                tr,
                n,
                row.file,
                row.line,
            ) == tr.events[k].command;
        assert(last_run(tr, k2, row.file, row.line));
    }
}

} // verus!
