//! Raw trace parsing: xtrace lines -> timestamped [`Event`]s.
//!
//! A trace file contains three kinds of lines:
//!
//! * control records written by the bootstrap, starting with the field
//!   separator: `US START US <ts> US <script>` and `US END US <ts> US <rc>`;
//! * xtrace events: one or more `+` (subshell depth), then the five
//!   separator-delimited PS4 fields, then the command text;
//! * continuation lines: a command containing an embedded newline spills
//!   onto lines with no marker; they belong to the previous event.
//!
//! Parsing is tolerant by design: unparseable lines are counted, not fatal.

use vstd::prelude::*;
use crate::ps4::{internal_prefix, FIELD_SEP, INTERNAL_PREFIX};
use crate::text::{
    all_digits, dec, digits_val, idec, is_digit, lemma_dec_digits, lemma_trim_around, lemma_trim_unchanged,
    trim_end, trim_start,
    lemma_zdec_digits, lines, lines_acc, parse_i32, parse_i32_range, parse_unsigned,
    parse_unsigned_range, pow10, push_char, push_range, range_starts_with, starts_with,
    string_of, strip_cr, to_chars, trim, trim_range, unsigned_digits, zdec, repeat, lemma_lines_append_line,
    all_ws, is_ws, lemma_trailing_zeros, lemma_trim_padded,
};

verus! {

/// One traced simple command.
#[derive(Debug, Clone, PartialEq, Eq)]
pub struct Event {
    /// Subshell nesting level: number of leading `+` characters (1 = none).
    pub subshell: u32,
    /// Wall-clock timestamp in microseconds since the epoch.
    pub ts_us: u64,
    /// `${BASH_SOURCE[0]}`: the file the command came from.
    pub source: String,
    /// `${LINENO}`: 1-based line in `source`.
    pub line: u32,
    /// `${FUNCNAME[0]}`: current function, empty at top level.
    pub func: String,
    /// `FUNCNAME` frame count: 0 at the top level of the script; inside a
    /// function the count includes the implicit `source` frame the
    /// bootstrap adds, so the first real function level arrives as 2.
    pub func_depth: u32,
    /// The command text as xtrace printed it.
    pub command: String,
}

/// What an [`Event`] holds, with its texts as character sequences.
pub struct EventV {
    pub subshell: u32,
    pub ts_us: u64,
    pub source: Seq<char>,
    pub line: u32,
    pub func: Seq<char>,
    pub func_depth: u32,
    pub command: Seq<char>,
}

impl View for Event {
    type V = EventV;

    open spec fn view(&self) -> EventV {
        EventV {
            subshell: self.subshell,
            ts_us: self.ts_us,
            source: self.source@,
            line: self.line,
            func: self.func@,
            func_depth: self.func_depth,
            command: self.command@,
        }
    }
}

/// A fully parsed trace.
#[derive(Debug)]
pub struct Trace {
    pub events: Vec<Event>,
    /// Timestamp of the `START` control record, if present.
    pub start_us: Option<u64>,
    /// Timestamp of the `END` control record, if present (absent when the
    /// shell was killed before the EXIT trap could run).
    pub end_us: Option<u64>,
    /// Script exit code from the `END` record.
    pub exit_code: Option<i32>,
    /// Script path from the `START` record.
    pub script: Option<String>,
    /// Lines that were neither events, control records nor continuations.
    pub skipped: usize,
}

pub struct TraceV {
    pub events: Seq<EventV>,
    pub start_us: Option<u64>,
    pub end_us: Option<u64>,
    pub exit_code: Option<i32>,
    pub script: Option<Seq<char>>,
    pub skipped: nat,
}

pub open spec fn opt_text(o: Option<String>) -> Option<Seq<char>> {
    match o {
        Some(s) => Some(s@),
        None => None,
    }
}

pub open spec fn events_view(v: Seq<Event>) -> Seq<EventV> {
    v.map_values(|e: Event| e@)
}

impl View for Trace {
    type V = TraceV;

    open spec fn view(&self) -> TraceV {
        TraceV {
            events: events_view(self.events@),
            start_us: self.start_us,
            end_us: self.end_us,
            exit_code: self.exit_code,
            script: opt_text(self.script),
            skipped: self.skipped as nat,
        }
    }
}

impl Default for Trace {
    fn default() -> (t: Trace)
        ensures
            t@.events.len() == 0,
            t.start_us is None,
            t.end_us is None,
            t.exit_code is None,
            t.script is None,
            t.skipped == 0,
    {
        Trace {
            events: Vec::new(),
            start_us: None,
            end_us: None,
            exit_code: None,
            script: None,
            skipped: 0,
        }
    }
}

// ---------------------------------------------------------------------
// The trace format, stated over character sequences
// ---------------------------------------------------------------------

/// The text before the first `c1` or `c2`, and what follows that
/// delimiter if there is one.
pub open spec fn split2(s: Seq<char>, c1: char, c2: char) -> (Seq<char>, Option<Seq<char>>)
    decreases s.len(),
{
    if s.len() == 0 {
        (s, None)
    } else if s[0] == c1 || s[0] == c2 {
        (Seq::empty(), Some(s.drop_first()))
    } else {
        let (a, b) = split2(s.drop_first(), c1, c2);
        (seq![s[0]] + a, b)
    }
}

/// Splits at the first field separator.
pub open spec fn split_sep(s: Seq<char>) -> (Seq<char>, Option<Seq<char>>) {
    split2(s, FIELD_SEP, FIELD_SEP)
}

/// `$EPOCHREALTIME`-style `seconds.micros` (or `seconds,micros`) in
/// microseconds: surrounding white space ignored, the fraction read to six
/// digits (missing digits are zeros, further ones ignored).
pub open spec fn epoch_us(s: Seq<char>) -> Option<u64> {
    let t = trim(s);
    let (secs, rest) = split2(t, '.', ',');
    let frac = match rest {
        Some(f) => f,
        None => Seq::empty(),
    };
    let f = if frac.len() > 6 { frac.take(6) } else { frac };
    match parse_unsigned(secs, u64::MAX as nat) {
        None => None,
        Some(sv) => if !all_digits(f) {
            None
        } else {
            let total = sv * 1_000_000 + digits_val(f) * pow10((6 - f.len()) as nat);
            if total <= u64::MAX {
                Some(total as u64)
            } else {
                None
            }
        },
    }
}

/// Number of leading `+` characters.
pub open spec fn leading_plus(s: Seq<char>) -> nat
    decreases s.len(),
{
    if s.len() > 0 && s[0] == '+' {
        1 + leading_plus(s.drop_first())
    } else {
        0
    }
}

/// `ts US source US lineno US func US funcdepth US command`, after the
/// leading `+`s and their separator.
pub open spec fn event_of(subshell: u32, rest: Seq<char>) -> Option<EventV> {
    let (f1, r1) = split_sep(rest);
    match r1 {
        None => None,
        Some(r1) => {
            let (f2, r2) = split_sep(r1);
            match r2 {
                None => None,
                Some(r2) => {
                    let (f3, r3) = split_sep(r2);
                    match r3 {
                        None => None,
                        Some(r3) => {
                            let (f4, r4) = split_sep(r3);
                            match r4 {
                                None => None,
                                Some(r4) => {
                                    let (f5, r5) = split_sep(r4);
                                    match r5 {
                                        None => None,
                                        Some(cmd) => event_fields(subshell, f1, f2, f3, f4, f5, cmd),
                                    }
                                },
                            }
                        },
                    }
                },
            }
        },
    }
}

/// The event with these fields, when the numeric ones parse.
pub open spec fn event_fields(
    subshell: u32,
    ts: Seq<char>,
    source: Seq<char>,
    line: Seq<char>,
    func: Seq<char>,
    depth: Seq<char>,
    command: Seq<char>,
) -> Option<EventV> {
    match (epoch_us(ts), parse_unsigned(line, u32::MAX as nat)) {
        (Some(t), Some(l)) => {
            let d = if depth.len() == 0 {
                Some(0nat)
            } else {
                parse_unsigned(depth, u32::MAX as nat)
            };
            match d {
                Some(d) => Some(
                    EventV {
                        subshell,
                        ts_us: t,
                        source,
                        line: l as u32,
                        func,
                        func_depth: d as u32,
                        command,
                    },
                ),
                None => None,
            }
        },
        _ => None,
    }
}

/// Parser state after some lines: events so far (bootstrap-internal ones
/// included), the control records' contents, and the skipped-line count.
pub struct ParseState {
    pub raw: Seq<EventV>,
    pub start_us: Option<u64>,
    pub end_us: Option<u64>,
    pub exit_code: Option<i32>,
    pub script: Option<Seq<char>>,
    pub skipped: nat,
}

pub open spec fn start_word() -> Seq<char> {
    seq!['S', 'T', 'A', 'R', 'T']
}

pub open spec fn end_word() -> Seq<char> {
    seq!['E', 'N', 'D']
}

pub open spec fn skip_line(st: ParseState) -> ParseState {
    ParseState { skipped: st.skipped + 1, ..st }
}

/// A control record's contents (after its leading separator).
pub open spec fn control_step(st: ParseState, rest: Seq<char>) -> ParseState {
    let (kind, r1) = split_sep(rest);
    match r1 {
        None => skip_line(st),
        Some(r1) => {
            let (ts, r2) = split_sep(r1);
            let third = match r2 {
                Some(r2) => Some(split_sep(r2).0),
                None => None,
            };
            if kind == start_word() {
                ParseState {
                    start_us: epoch_us(ts),
                    script: match third {
                        Some(p) => if p.len() > 0 {
                            Some(p)
                        } else {
                            None
                        },
                        None => None,
                    },
                    ..st
                }
            } else if kind == end_word() {
                ParseState {
                    end_us: epoch_us(ts),
                    exit_code: match third {
                        Some(rc) => match parse_i32(trim(rc)) {
                            Some(v) => Some(v as i32),
                            None => None,
                        },
                        None => None,
                    },
                    ..st
                }
            } else {
                skip_line(st)
            }
        },
    }
}

/// One line of the trace.
pub open spec fn line_step(st: ParseState, line: Seq<char>) -> ParseState {
    if line.len() > 0 && line[0] == FIELD_SEP {
        control_step(st, line.drop_first())
    } else {
        let k = leading_plus(line);
        if k > 0 && k < line.len() && line[k as int] == FIELD_SEP {
            match event_of(k as u32, line.skip((k + 1) as int)) {
                Some(ev) => ParseState { raw: st.raw.push(ev), ..st },
                None => skip_line(st),
            }
        } else if st.raw.len() > 0 {
            let last = st.raw.last();
            ParseState {
                raw: st.raw.update(
                    st.raw.len() - 1,
                    EventV { command: last.command + seq!['\n'] + line, ..last },
                ),
                ..st
            }
        } else {
            skip_line(st)
        }
    }
}

pub open spec fn initial_state() -> ParseState {
    ParseState {
        raw: Seq::empty(),
        start_us: None,
        end_us: None,
        exit_code: None,
        script: None,
        skipped: 0,
    }
}

pub open spec fn parse_lines(ls: Seq<Seq<char>>) -> ParseState
    decreases ls.len(),
{
    if ls.len() == 0 {
        initial_state()
    } else {
        line_step(parse_lines(ls.drop_last()), ls.last())
    }
}

/// Bootstrap-internal events: the trap dispatch, everything inside the
/// bootstrap's own function, and the `. "$0"` line itself (its source is
/// empty because it runs in `bash -c` context).
pub open spec fn is_internal(ev: EventV) -> bool {
    ev.source.len() == 0 || starts_with(ev.func, internal_prefix()) || starts_with(
        ev.command,
        internal_prefix(),
    )
}

pub open spec fn external_events(evs: Seq<EventV>) -> Seq<EventV>
    decreases evs.len(),
{
    if evs.len() == 0 {
        evs
    } else {
        let r = external_events(evs.drop_last());
        if is_internal(evs.last()) {
            r
        } else {
            r.push(evs.last())
        }
    }
}

proof fn lemma_external_events(evs: Seq<EventV>)
    ensures
        forall|i: int|
            0 <= i < external_events(evs).len() ==> !is_internal(#[trigger] external_events(evs)[i]),
        external_events(evs).len() <= evs.len(),
    decreases evs.len(),
{
    if evs.len() > 0 {
        lemma_external_events(evs.drop_last());
        let r = external_events(evs.drop_last());
        assert forall|i: int|
            0 <= i < external_events(evs).len() implies !is_internal(
            #[trigger] external_events(evs)[i],
        ) by {
            if !is_internal(evs.last()) && i == r.len() {
                assert(external_events(evs)[i] == evs.last());
            } else {
                assert(external_events(evs)[i] == r[i]);
            }
        }
    }
}

/// Every event the lines of a file hold, the bootstrap's own included, in
/// file order.
pub open spec fn raw_events(input: Seq<char>) -> Seq<EventV> {
    parse_lines(lines(input)).raw
}

/// `idx` picks out `kept` from `raw`: increasing positions of `raw` that
/// hold the kept events in turn, with every position of an event that is
/// not the bootstrap's among them.
pub open spec fn picks(raw: Seq<EventV>, kept: Seq<EventV>, idx: Seq<int>) -> bool {
    &&& idx.len() == kept.len()
    &&& forall|k: int| 0 <= k < idx.len() ==> 0 <= #[trigger] idx[k] < raw.len() && raw[idx[k]] == kept[k]
    &&& forall|k: int, l: int| 0 <= k < l < idx.len() ==> #[trigger] idx[k] < #[trigger] idx[l]
    &&& forall|j: int| 0 <= j < raw.len() && !is_internal(#[trigger] raw[j]) ==> idx.contains(j)
}

proof fn external_positions(evs: Seq<EventV>) -> (idx: Seq<int>)
    ensures
        picks(evs, external_events(evs), idx),
    decreases evs.len(),
{
    if evs.len() == 0 {
        Seq::empty()
    } else {
        let init = evs.drop_last();
        let prev = external_positions(init);
        let n = evs.len() - 1;
        let idx = if is_internal(evs.last()) {
            prev
        } else {
            prev.push(n)
        };
        assert forall|k: int| 0 <= k < idx.len() implies 0 <= #[trigger] idx[k] < evs.len() && evs[idx[k]]
            == external_events(evs)[k] by {
            if k < prev.len() {
                assert(idx[k] == prev[k]);
                assert(evs[prev[k]] == init[prev[k]]);
            }
        }
        assert forall|k: int, l: int| 0 <= k < l < idx.len() implies #[trigger] idx[k] < #[trigger] idx[l] by {
            if l < prev.len() {
                assert(idx[k] == prev[k] && idx[l] == prev[l]);
            } else {
                assert(idx[k] == prev[k]);
            }
        }
        assert forall|j: int| 0 <= j < evs.len() && !is_internal(#[trigger] evs[j]) implies idx.contains(j) by {
            if j < n {
                assert(init[j] == evs[j]);
                assert(prev.contains(j));
                let k = choose|k: int| 0 <= k < prev.len() && prev[k] == j;
                assert(idx[k] == j);
            } else {
                assert(idx[idx.len() - 1] == n);
            }
        }
        idx
    }
}

/// Parsing keeps the events in the order of the file: the trace's events
/// are the file's events that are not the bootstrap's, every one of them,
/// each once, in file order.
pub proof fn law_parse_keeps_order(input: Seq<char>)
    ensures
        exists|idx: Seq<int>| picks(raw_events(input), trace_of(input).events, idx),
{
    let idx = external_positions(raw_events(input));
    assert(picks(raw_events(input), trace_of(input).events, idx));
}

/// The bootstrap's own noise never reaches a parsed trace: no event of it
/// has an empty source, or a function or command that begins with the
/// internal prefix.
pub proof fn law_parse_drops_internal(input: Seq<char>)
    ensures
        forall|i: int|
            0 <= i < trace_of(input).events.len() ==> !is_internal(#[trigger] trace_of(input).events[i]),
{
    lemma_external_events(parse_lines(lines(input)).raw);
}

/// The trace a whole file holds.
pub open spec fn trace_of(input: Seq<char>) -> TraceV {
    let st = parse_lines(lines(input));
    TraceV {
        events: external_events(st.raw),
        start_us: st.start_us,
        end_us: st.end_us,
        exit_code: st.exit_code,
        script: st.script,
        skipped: st.skipped,
    }
}

// ---------------------------------------------------------------------
// Parsing
// ---------------------------------------------------------------------

/// The first index in `cs[lo..hi]` holding `c1` or `c2` (`hi` if none).
pub fn find2(cs: &Vec<char>, lo: usize, hi: usize, c1: char, c2: char) -> (k: usize)
    requires
        lo <= hi <= cs@.len(),
    ensures
        lo <= k <= hi,
        split2(cs@.subrange(lo as int, hi as int), c1, c2) == (if k == hi {
            (cs@.subrange(lo as int, hi as int), None::<Seq<char>>)
        } else {
            (cs@.subrange(lo as int, k as int), Some(cs@.subrange(k + 1, hi as int)))
        }),
{
    let mut i = lo;
    while i < hi && cs[i] != c1 && cs[i] != c2
        invariant
            lo <= i <= hi <= cs@.len(),
            ({
                let (a, b) = split2(cs@.subrange(i as int, hi as int), c1, c2);
                split2(cs@.subrange(lo as int, hi as int), c1, c2) == (cs@.subrange(lo as int, i as int) + a, b)
            }),
        decreases hi - i,
    {
        let ghost s = cs@.subrange(i as int, hi as int);
        assert(s.drop_first() =~= cs@.subrange(i + 1, hi as int));
        assert(cs@.subrange(lo as int, i + 1) =~= cs@.subrange(lo as int, i as int) + seq![cs@[i as int]]);
        let ghost (a, b) = split2(cs@.subrange(i + 1, hi as int), c1, c2);
        assert(cs@.subrange(lo as int, i as int) + (seq![cs@[i as int]] + a) =~= cs@.subrange(lo as int, i + 1) + a);
        i += 1;
    }
    if i == hi {
        assert(cs@.subrange(lo as int, hi as int) + Seq::<char>::empty() =~= cs@.subrange(lo as int, hi as int));
    } else {
        let ghost s = cs@.subrange(i as int, hi as int);
        assert(s.drop_first() =~= cs@.subrange(i + 1, hi as int));
        assert(cs@.subrange(lo as int, i as int) + Seq::<char>::empty() =~= cs@.subrange(lo as int, i as int));
    }
    i
}

proof fn lemma_pow10_6(k: nat)
    requires
        k <= 6,
    ensures
        1 <= pow10(k) <= 1_000_000,
        pow10(k + 1) == 10 * pow10(k),
    decreases k,
{
    reveal_with_fuel(pow10, 8);
}

/// `parse_epochrealtime` on `cs[lo..hi]`.
fn epoch_range(cs: &Vec<char>, lo: usize, hi: usize) -> (r: Option<u64>)
    requires
        lo <= hi <= cs@.len(),
    ensures
        r == epoch_us(cs@.subrange(lo as int, hi as int)),
{
    let (tlo, thi) = trim_range(cs, lo, hi);
    let k = find2(cs, tlo, thi, '.', ',');
    let ghost t = cs@.subrange(tlo as int, thi as int);
    let (flo, fhi) = if k == thi {
        (thi, thi)
    } else {
        (k + 1, thi)
    };
    let fend = if fhi - flo > 6 {
        flo + 6
    } else {
        fhi
    };
    let ghost frac = cs@.subrange(flo as int, fhi as int);
    let ghost f = cs@.subrange(flo as int, fend as int);
    assert(f == (if frac.len() > 6 {
        frac.take(6)
    } else {
        frac
    }));
    if k == thi {
        assert(frac =~= Seq::<char>::empty());
    }
    let secs = match parse_unsigned_range(cs, tlo, k, u64::MAX) {
        Some(v) => v,
        None => {
            return None;
        },
    };
    let micros = match fraction_micros(cs, flo, fend) {
        Some(v) => v,
        None => {
            return None;
        },
    };
    proof {
        reveal_with_fuel(pow10, 8);
        let t = trim(cs@.subrange(lo as int, hi as int));
        assert(t == cs@.subrange(tlo as int, thi as int));
        let (sp, rest) = split2(t, '.', ',');
        assert(sp == cs@.subrange(tlo as int, k as int));
        let fr = match rest {
            Some(x) => x,
            None => Seq::<char>::empty(),
        };
        assert(fr == frac);
        assert(parse_unsigned(sp, u64::MAX as nat) == Some(secs as nat));
        assert(all_digits(f));
        assert(micros == digits_val(f) * pow10((6 - f.len()) as nat));
    }
    match secs.checked_mul(1_000_000) {
        Some(s) => s.checked_add(micros),
        None => None,
    }
}

/// Up to six fraction digits `cs[lo..hi]` as microseconds.
fn fraction_micros(cs: &Vec<char>, lo: usize, hi: usize) -> (r: Option<u64>)
    requires
        lo <= hi <= cs@.len(),
        hi - lo <= 6,
    ensures
        r is Some <==> all_digits(cs@.subrange(lo as int, hi as int)),
        r matches Some(v) ==> v == digits_val(cs@.subrange(lo as int, hi as int)) * pow10(
            (6 - (hi - lo)) as nat,
        ),
        r matches Some(v) ==> v < 1_000_000,
{
    let ghost f = cs@.subrange(lo as int, hi as int);
    let mut micros: u64 = 0;
    let mut i = lo;
    assert(f.take(0) =~= Seq::<char>::empty());
    assert(pow10(0) == 1);
    while i < hi
        invariant
            lo <= i <= hi <= cs@.len(),
            hi - lo <= 6,
            f == cs@.subrange(lo as int, hi as int),
            all_digits(f.take(i - lo)),
            micros == digits_val(f.take(i - lo)),
            micros < pow10((i - lo) as nat),
        decreases hi - i,
    {
        proof {
            lemma_pow10_6((i - lo) as nat);
        }
        let u = cs[i] as u32;
        if u < 48 || u > 57 {
            assert(!crate::text::is_digit(f[i - lo]));
            return None;
        }
        assert(f.take(i - lo + 1).drop_last() =~= f.take(i - lo));
        micros = micros * 10 + ((u - 48) as u64);
        i += 1;
    }
    assert(f.take(hi - lo) =~= f);
    let mut pad = hi - lo;
    assert(pow10(0) == 1);
    assert(digits_val(f) * 1 == digits_val(f));
    while pad < 6
        invariant
            lo <= hi,
            hi - lo <= 6,
            hi - lo <= pad <= 6,
            micros == digits_val(f) * pow10((pad - (hi - lo)) as nat),
            micros < pow10(pad as nat),
        decreases 6 - pad,
    {
        proof {
            lemma_pow10_6(pad as nat);
            lemma_pow10_6((pad - (hi - lo)) as nat);
            assert(digits_val(f) * pow10((pad + 1 - (hi - lo)) as nat) == (digits_val(f) * pow10((pad - (hi - lo)) as nat)) * 10) by (nonlinear_arith)
                requires
                    pow10((pad + 1 - (hi - lo)) as nat) == 10 * pow10((pad - (hi - lo)) as nat),
            ;
        }
        micros = micros * 10;
        pad += 1;
    }
    proof {
        reveal_with_fuel(pow10, 8);
    }
    Some(micros)
}

/// Parse `$EPOCHREALTIME`-style `seconds.micros` into microseconds.
///
/// bash formats the radix character according to the locale, so both
/// `1752.000042` and `1752,000042` must parse. The fractional part is
/// normalized to exactly six digits.
pub fn parse_epochrealtime(s: &str) -> (r: Option<u64>)
    ensures
        r == epoch_us(s@),
{
    let cs = to_chars(s);
    assert(cs@.subrange(0, cs@.len() as int) =~= cs@);
    epoch_range(&cs, 0, cs.len())
}

/// Does `cs[lo..hi]` hold exactly `w`?
fn range_is(cs: &Vec<char>, lo: usize, hi: usize, w: &Vec<char>) -> (r: bool)
    requires
        lo <= hi <= cs@.len(),
    ensures
        r == (cs@.subrange(lo as int, hi as int) == w@),
{
    if hi - lo != w.len() {
        return false;
    }
    let r = range_starts_with(cs, lo, hi, w);
    assert(cs@.subrange(lo as int, hi as int).take(w@.len() as int) =~= cs@.subrange(lo as int, hi as int));
    r
}

/// The event on a line whose leading `+`s and separator end before `lo`:
/// `cs[lo..hi]` holds the fields.
fn parse_event(cs: &Vec<char>, lo: usize, hi: usize, subshell: u32) -> (r: Option<Event>)
    requires
        lo <= hi <= cs@.len(),
    ensures
        match r {
            Some(ev) => event_of(subshell, cs@.subrange(lo as int, hi as int)) == Some(ev@),
            None => event_of(subshell, cs@.subrange(lo as int, hi as int)) is None,
        },
{
    let k1 = find2(cs, lo, hi, FIELD_SEP, FIELD_SEP);
    if k1 == hi {
        return None;
    }
    let k2 = find2(cs, k1 + 1, hi, FIELD_SEP, FIELD_SEP);
    if k2 == hi {
        return None;
    }
    let k3 = find2(cs, k2 + 1, hi, FIELD_SEP, FIELD_SEP);
    if k3 == hi {
        return None;
    }
    let k4 = find2(cs, k3 + 1, hi, FIELD_SEP, FIELD_SEP);
    if k4 == hi {
        return None;
    }
    let k5 = find2(cs, k4 + 1, hi, FIELD_SEP, FIELD_SEP);
    if k5 == hi {
        return None;
    }
    let ts_us = match epoch_range(cs, lo, k1) {
        Some(t) => t,
        None => {
            return None;
        },
    };
    let line = match parse_unsigned_range(cs, k2 + 1, k3, 0xffff_ffff) {
        Some(l) => l as u32,
        None => {
            return None;
        },
    };
    let func_depth = if k4 + 1 == k5 {
        0u32
    } else {
        match parse_unsigned_range(cs, k4 + 1, k5, 0xffff_ffff) {
            Some(d) => d as u32,
            None => {
                return None;
            },
        }
    };
    let source = string_of(cs, k1 + 1, k2);
    let func = string_of(cs, k3 + 1, k4);
    let command = string_of(cs, k5 + 1, hi);
    Some(Event { subshell, ts_us, source, line, func, func_depth, command })
}

/// Applies a control record (`cs[lo..hi]`, after its leading separator).
fn parse_control(cs: &Vec<char>, lo: usize, hi: usize, trace: &mut Trace)
    requires
        lo <= hi <= cs@.len(),
        old(trace).skipped < usize::MAX,
    ensures
        final(trace)@ == trace_with_state(
            control_step(state_of(old(trace)@), cs@.subrange(lo as int, hi as int)),
        ),
{
    let ghost st = state_of(trace@);
    let k1 = find2(cs, lo, hi, FIELD_SEP, FIELD_SEP);
    if k1 == hi {
        trace.skipped = trace.skipped + 1;
        return;
    }
    let k2 = find2(cs, k1 + 1, hi, FIELD_SEP, FIELD_SEP);
    let third: Option<(usize, usize)> = if k2 == hi {
        None
    } else {
        let k3 = find2(cs, k2 + 1, hi, FIELD_SEP, FIELD_SEP);
        Some((k2 + 1, k3))
    };
    let start = vec!['S', 'T', 'A', 'R', 'T'];
    let end = vec!['E', 'N', 'D'];
    if range_is(cs, lo, k1, &start) {
        trace.start_us = epoch_range(cs, k1 + 1, k2);
        trace.script = match third {
            Some((a, b)) => if a < b {
                Some(string_of(cs, a, b))
            } else {
                None
            },
            None => None,
        };
    } else if range_is(cs, lo, k1, &end) {
        trace.end_us = epoch_range(cs, k1 + 1, k2);
        trace.exit_code = match third {
            Some((a, b)) => {
                let (ta, tb) = trim_range(cs, a, b);
                parse_i32_range(cs, ta, tb)
            },
            None => None,
        };
    } else {
        trace.skipped = trace.skipped + 1;
    }
}

/// The parser state a trace under construction stands for.
pub open spec fn state_of(t: TraceV) -> ParseState {
    ParseState {
        raw: t.events,
        start_us: t.start_us,
        end_us: t.end_us,
        exit_code: t.exit_code,
        script: t.script,
        skipped: t.skipped,
    }
}

pub open spec fn trace_with_state(st: ParseState) -> TraceV {
    TraceV {
        events: st.raw,
        start_us: st.start_us,
        end_us: st.end_us,
        exit_code: st.exit_code,
        script: st.script,
        skipped: st.skipped,
    }
}

/// Applies one line, `cs[lo..hi]`.
fn parse_line(cs: &Vec<char>, lo: usize, hi: usize, trace: &mut Trace)
    requires
        lo <= hi <= cs@.len(),
        old(trace).skipped < usize::MAX,
    ensures
        final(trace)@ == trace_with_state(
            line_step(state_of(old(trace)@), cs@.subrange(lo as int, hi as int)),
        ),
{
    let ghost line = cs@.subrange(lo as int, hi as int);
    if lo < hi && cs[lo] == FIELD_SEP {
        assert(line.drop_first() =~= cs@.subrange(lo + 1, hi as int));
        parse_control(cs, lo + 1, hi, trace);
        return;
    }
    let mut k = lo;
    while k < hi && cs[k] == '+'
        invariant
            lo <= k <= hi <= cs@.len(),
            line == cs@.subrange(lo as int, hi as int),
            leading_plus(line) == (k - lo) + leading_plus(cs@.subrange(k as int, hi as int)),
        decreases hi - k,
    {
        assert(cs@.subrange(k as int, hi as int).drop_first() =~= cs@.subrange(k + 1, hi as int));
        k += 1;
    }
    assert(leading_plus(line) == k - lo);
    if k > lo && k < hi && cs[k] == FIELD_SEP {
        assert(line.skip((k - lo + 1) as int) =~= cs@.subrange(k + 1, hi as int));
        assert(line[(k - lo) as int] == cs@[k as int]);
        match parse_event(cs, k + 1, hi, (k - lo) as u32) {
            Some(ev) => {
                let ghost before = trace.events@;
                trace.events.push(ev);
                assert(events_view(trace.events@) =~= events_view(before).push(ev@));
            },
            None => {
                trace.skipped = trace.skipped + 1;
            },
        }
    } else if trace.events.len() > 0 {
        let ghost before = trace.events@;
        let mut ev = trace.events.pop().unwrap();
        let ghost old_ev = ev@;
        push_char(&mut ev.command, '\n');
        push_range(&mut ev.command, cs, lo, hi);
        assert(ev.command@ =~= old_ev.command + seq!['\n'] + line);
        let ghost new_ev = ev@;
        assert(new_ev == EventV { command: old_ev.command + seq!['\n'] + line, ..old_ev });
        assert(old_ev == events_view(before).last());
        trace.events.push(ev);
        assert(trace.events@ == before.drop_last().push(ev));
        assert(events_view(trace.events@) =~= events_view(before).update(
            before.len() - 1,
            EventV { command: old_ev.command + seq!['\n'] + line, ..old_ev },
        ));
    } else {
        trace.skipped = trace.skipped + 1;
    }
}

/// Does the event come from the bootstrap itself?
fn internal(ev: &Event, prefix: &Vec<char>) -> (r: bool)
    requires
        prefix@ == internal_prefix(),
    ensures
        r == is_internal(ev@),
{
    if ev.source.as_str().is_empty() {
        return true;
    }
    let f = to_chars(ev.func.as_str());
    assert(f@.subrange(0, f@.len() as int) =~= f@);
    if range_starts_with(&f, 0, f.len(), prefix) {
        return true;
    }
    let c = to_chars(ev.command.as_str());
    assert(c@.subrange(0, c@.len() as int) =~= c@);
    range_starts_with(&c, 0, c.len(), prefix)
}

/// Parse a whole trace file.
pub fn parse(input: &str) -> (t: Trace)
    ensures
        t@ == trace_of(input@),
{
    let cs = to_chars(input);
    let mut trace = Trace::default();
    let mut cur: usize = 0;
    let mut i: usize = 0;
    assert(cs@.take(0) =~= Seq::<char>::empty());
    assert(trace@.events =~= Seq::<EventV>::empty());
    while i < cs.len()
        invariant
            cur <= i <= cs@.len(),
            lines_acc(cs@.take(i as int)).1 == cs@.subrange(cur as int, i as int),
            trace@ == trace_with_state(parse_lines(lines_acc(cs@.take(i as int)).0)),
            trace.skipped <= cur,
        decreases cs@.len() - i,
    {
        let ghost pre = cs@.take(i as int);
        assert(cs@.take(i + 1).drop_last() =~= pre);
        assert(cs@.take(i + 1).last() == cs@[i as int]);
        if cs[i] == '\n' {
            let hi = if i > cur && cs[i - 1] == '\r' {
                i - 1
            } else {
                i
            };
            assert(strip_cr(cs@.subrange(cur as int, i as int)) =~= cs@.subrange(cur as int, hi as int));
            let ghost done = lines_acc(pre).0;
            parse_line(&cs, cur, hi, &mut trace);
            assert(done.push(cs@.subrange(cur as int, hi as int)).drop_last() =~= done);
            cur = i + 1;
            assert(cs@.subrange(cur as int, i + 1) =~= Seq::<char>::empty());
        } else {
            assert(cs@.subrange(cur as int, i + 1) =~= cs@.subrange(cur as int, i as int).push(cs@[i as int]));
        }
        i += 1;
    }
    assert(cs@.take(cs@.len() as int) =~= cs@);
    if cur < cs.len() {
        let ghost done = lines_acc(cs@).0;
        parse_line(&cs, cur, cs.len(), &mut trace);
        assert(done.push(cs@.subrange(cur as int, cs@.len() as int)).drop_last() =~= done);
    }
    // Drop the bootstrap's own events, keeping the order of the rest.
    let prefix = to_chars("__bashprof");
    proof {
        reveal_strlit("__bashprof");
        assert(prefix@ =~= internal_prefix());
    }
    let ghost raw = trace@.events;
    let mut kept: Vec<Event> = Vec::new();
    let Trace { events, start_us, end_us, exit_code, script, skipped } = trace;
    for ev in it: events.into_iter()
        invariant
            it.seq() == events@,
            events_view(events@) == raw,
            prefix@ == internal_prefix(),
            events_view(kept@) == external_events(raw.take(it.index() as int)),
    {
        let ghost idx = it.index() as int;
        assert(raw.take(idx + 1).drop_last() =~= raw.take(idx));
        assert(raw.take(idx + 1).last() == ev@);
        if !internal(&ev, &prefix) {
            let ghost before = kept@;
            kept.push(ev);
            assert(events_view(kept@) =~= events_view(before).push(ev@));
        }
    }
    assert(raw.take(raw.len() as int) =~= raw);
    Trace { events: kept, start_us, end_us, exit_code, script, skipped }
}

// ---------------------------------------------------------------------
// Reading back what is written
// ---------------------------------------------------------------------

pub proof fn lemma_split2_none(a: Seq<char>, c1: char, c2: char)
    requires
        forall|i: int| 0 <= i < a.len() ==> #[trigger] a[i] != c1 && a[i] != c2,
    ensures
        split2(a, c1, c2) == (a, None::<Seq<char>>),
    decreases a.len(),
{
    if a.len() > 0 {
        assert forall|i: int| 0 <= i < a.drop_first().len() implies #[trigger] a.drop_first()[i] != c1
            && a.drop_first()[i] != c2 by {
            assert(a.drop_first()[i] == a[i + 1]);
        }
        lemma_split2_none(a.drop_first(), c1, c2);
        assert(seq![a[0]] + a.drop_first() =~= a);
    }
}

pub proof fn lemma_split2_at(a: Seq<char>, c: char, b: Seq<char>, c1: char, c2: char)
    requires
        forall|i: int| 0 <= i < a.len() ==> #[trigger] a[i] != c1 && a[i] != c2,
        c == c1 || c == c2,
    ensures
        split2(a + seq![c] + b, c1, c2) == (a, Some(b)),
    decreases a.len(),
{
    let s = a + seq![c] + b;
    if a.len() == 0 {
        assert(s[0] == c);
        assert(s.drop_first() =~= b);
    } else {
        assert forall|i: int| 0 <= i < a.drop_first().len() implies #[trigger] a.drop_first()[i] != c1
            && a.drop_first()[i] != c2 by {
            assert(a.drop_first()[i] == a[i + 1]);
        }
        lemma_split2_at(a.drop_first(), c, b, c1, c2);
        assert(s.drop_first() =~= a.drop_first() + seq![c] + b);
        assert(s[0] == a[0]);
        assert(seq![a[0]] + a.drop_first() =~= a);
    }
}

/// No character of `s` is `c`.
pub open spec fn free_of(s: Seq<char>, c: char) -> bool {
    forall|i: int| 0 <= i < s.len() ==> #[trigger] s[i] != c
}

/// An `END` record line: the parser takes its time and exit code and
/// changes nothing else.
pub proof fn lemma_end_line(st: ParseState, ts: Seq<char>, rc: Seq<char>)
    requires
        free_of(ts, FIELD_SEP),
        free_of(rc, FIELD_SEP),
    ensures
        line_step(st, seq![FIELD_SEP] + end_word() + seq![FIELD_SEP] + ts + seq![FIELD_SEP] + rc)
            == (ParseState {
            end_us: epoch_us(ts),
            exit_code: match parse_i32(trim(rc)) {
                Some(v) => Some(v as i32),
                None => None,
            },
            ..st
        }),
{
    let line = seq![FIELD_SEP] + end_word() + seq![FIELD_SEP] + ts + seq![FIELD_SEP] + rc;
    let rest = line.drop_first();
    let r1 = ts + seq![FIELD_SEP] + rc;
    assert(rest =~= end_word() + seq![FIELD_SEP] + r1);
    lemma_split2_at(end_word(), FIELD_SEP, r1, FIELD_SEP, FIELD_SEP);
    lemma_split2_at(ts, FIELD_SEP, rc, FIELD_SEP, FIELD_SEP);
    lemma_split2_none(rc, FIELD_SEP, FIELD_SEP);
    assert(end_word() != start_word());
}

/// `seconds.micros` with six fraction digits, as the `END` record writes
/// a time, reads back as that time.
pub proof fn lemma_epoch_read_back(now: u64)
    ensures
        epoch_us(dec((now / 1_000_000) as nat) + seq!['.'] + zdec((now % 1_000_000) as nat, 6)) == Some(now),
{
    let q = (now / 1_000_000) as nat;
    let r = (now % 1_000_000) as nat;
    let d = dec(q);
    let z = zdec(r, 6);
    let t = d + seq!['.'] + z;
    lemma_dec_digits(q);
    assert(pow10(6) == 1_000_000) by {
        reveal_with_fuel(pow10, 7);
    }
    lemma_zdec_digits(r, 6);
    assert(is_digit(d[0]) && is_digit(z[z.len() - 1]));
    assert(t[0] == d[0]);
    assert(t.last() == z[z.len() - 1]);
    lemma_trim_unchanged(t);
    assert forall|i: int| 0 <= i < d.len() implies #[trigger] d[i] != '.' && d[i] != ',' by {
        assert(is_digit(d[i]));
    }
    lemma_split2_at(d, '.', z, '.', ',');
    assert(unsigned_digits(d) == d);
    assert(q <= u64::MAX);
    assert(parse_unsigned(d, u64::MAX as nat) == Some(q));
    assert(trim(t) == t);
    assert(split2(t, '.', ',') == (d, Some(z)));
    assert(z.len() == 6);
    assert(pow10(0) == 1);
    assert(now == q * 1_000_000 + r);
    assert(digits_val(z) == r);
    assert((6 - z.len()) as nat == 0);
    let p0 = pow10(0);
    assert(digits_val(z) * p0 == digits_val(z)) by (nonlinear_arith)
        requires
            p0 == 1,
    ;
    assert(q * 1_000_000 + digits_val(z) * pow10((6 - z.len()) as nat) == now);
}

/// The decimal text of an `i32` parses back as that number.
pub proof fn lemma_i32_read_back(v: i32)
    ensures
        parse_i32(trim(idec(v as int))) == Some(v as int),
{
    let s = idec(v as int);
    if v < 0 {
        let m = (-(v as int)) as nat;
        lemma_dec_digits(m);
        let d = dec(m);
        assert(s =~= seq!['-'] + d);
        assert(is_digit(d[d.len() - 1]));
        assert(s.last() == d[d.len() - 1]);
        lemma_trim_unchanged(s);
        assert(s.drop_first() =~= d);
    } else {
        lemma_dec_digits(v as nat);
        assert(is_digit(s[0]) && is_digit(s[s.len() - 1]));
        lemma_trim_unchanged(s);
        assert(unsigned_digits(s) == s);
    }
}

proof fn lemma_split2_swap(x: Seq<char>, c1: char, c2: char, y: Seq<char>)
    requires
        c1 == '.' || c1 == ',',
        c2 == '.' || c2 == ',',
    ensures
        ({
            let (p1, r1) = split2(x + seq![c1] + y, '.', ',');
            let (p2, r2) = split2(x + seq![c2] + y, '.', ',');
            &&& p1 == p2
            &&& (r1 == Some(y) && r2 == Some(y)) || exists|w: Seq<char>|
                r1 == Some(w + seq![c1] + y) && r2 == Some(w + seq![c2] + y)
        }),
    decreases x.len(),
{
    let s1 = x + seq![c1] + y;
    let s2 = x + seq![c2] + y;
    if x.len() == 0 {
        assert(s1[0] == c1 && s2[0] == c2);
        assert(s1.drop_first() =~= y && s2.drop_first() =~= y);
    } else {
        assert(s1[0] == x[0] && s2[0] == x[0]);
        let w = x.drop_first();
        assert(s1.drop_first() =~= w + seq![c1] + y);
        assert(s2.drop_first() =~= w + seq![c2] + y);
        if !(x[0] == '.' || x[0] == ',') {
            lemma_split2_swap(w, c1, c2, y);
        }
    }
}

/// The locale's radix does not matter: wherever a `.` stands in a time,
/// a `,` in its place reads the same (`1752.000042` and `1752,000042`
/// are the same instant).
pub proof fn law_epoch_radix(a: Seq<char>, b: Seq<char>)
    ensures
        epoch_us(a + seq!['.'] + b) == epoch_us(a + seq![','] + b),
{
    lemma_trim_around(a, '.', b);
    lemma_trim_around(a, ',', b);
    let x = trim_start(a);
    let y = trim_end(b);
    lemma_split2_swap(x, '.', ',', y);
    let (p1, r1) = split2(x + seq!['.'] + y, '.', ',');
    let (p2, r2) = split2(x + seq![','] + y, '.', ',');
    if !(r1 == Some(y) && r2 == Some(y)) {
        let w = choose|w: Seq<char>| r1 == Some(w + seq!['.'] + y) && r2 == Some(w + seq![','] + y);
        let f1 = w + seq!['.'] + y;
        let f2 = w + seq![','] + y;
        let g1 = if f1.len() > 6 { f1.take(6) } else { f1 };
        let g2 = if f2.len() > 6 { f2.take(6) } else { f2 };
        if w.len() < 6 {
            assert(g1[w.len() as int] == '.');
            assert(g2[w.len() as int] == ',');
            assert(!is_digit(g1[w.len() as int]));
            assert(!is_digit(g2[w.len() as int]));
        } else {
            assert(g1 =~= g2);
        }
    }
}

/// How bash prints a time of `us` microseconds: seconds, the radix and six
/// fraction digits.
pub open spec fn time_text(us: u64) -> Seq<char> {
    dec((us / 1_000_000) as nat) + seq!['.'] + zdec((us % 1_000_000) as nat, 6)
}

/// The line xtrace writes for a command under the bashprof `PS4`: one `+`
/// per subshell level, then the five expanded fields and the command, each
/// after a separator.
pub open spec fn event_line(ev: EventV) -> Seq<char> {
    repeat('+', ev.subshell as nat) + seq![FIELD_SEP] + time_text(ev.ts_us) + seq![FIELD_SEP] + ev.source
        + seq![FIELD_SEP] + dec(ev.line as nat) + seq![FIELD_SEP] + ev.func + seq![FIELD_SEP] + dec(
        ev.func_depth as nat,
    ) + seq![FIELD_SEP] + ev.command
}

proof fn lemma_leading_plus(k: nat, rest: Seq<char>)
    requires
        rest.len() > 0,
        rest[0] != '+',
    ensures
        leading_plus(repeat('+', k) + rest) == k,
    decreases k,
{
    let s = repeat('+', k) + rest;
    if k > 0 {
        assert(s[0] == '+');
        assert(s.drop_first() =~= repeat('+', (k - 1) as nat) + rest);
        lemma_leading_plus((k - 1) as nat, rest);
    } else {
        assert(s =~= rest);
    }
}

proof fn lemma_number_fields(n: nat)
    ensures
        free_of(dec(n), FIELD_SEP),
        unsigned_digits(dec(n)) == dec(n),
        dec(n).len() > 0,
        all_digits(dec(n)),
        digits_val(dec(n)) == n,
{
    lemma_dec_digits(n);
    assert forall|i: int| 0 <= i < dec(n).len() implies #[trigger] dec(n)[i] != FIELD_SEP by {
        assert(is_digit(dec(n)[i]));
    }
    assert(is_digit(dec(n)[0]));
}

proof fn lemma_time_text_fields(us: u64)
    ensures
        free_of(time_text(us), FIELD_SEP),
        free_of(time_text(us), '\n'),
        epoch_us(time_text(us)) == Some(us),
{
    let d = dec((us / 1_000_000) as nat);
    let z = zdec((us % 1_000_000) as nat, 6);
    let t = time_text(us);
    lemma_dec_digits((us / 1_000_000) as nat);
    lemma_zdec_digits((us % 1_000_000) as nat, 6);
    assert forall|i: int| 0 <= i < t.len() implies #[trigger] t[i] != FIELD_SEP && t[i] != '\n' by {
        if i < d.len() {
            assert(is_digit(d[i]));
        } else if i > d.len() {
            assert(t[i] == z[i - d.len() - 1]);
            assert(is_digit(z[i - d.len() - 1]));
        }
    }
    lemma_epoch_read_back(us);
}

/// What the `PS4` prompt makes bash write, the parser reads back: the line
/// of a traced command (at least one subshell level, source and function
/// names without a separator) adds exactly that event and changes nothing
/// else.
#[verifier::spinoff_prover]
#[verifier::rlimit(50)]
pub proof fn law_event_line_read_back(st: ParseState, ev: EventV)
    requires
        ev.subshell >= 1,
        free_of(ev.source, FIELD_SEP),
        free_of(ev.func, FIELD_SEP),
    ensures
        line_step(st, event_line(ev)) == (ParseState { raw: st.raw.push(ev), ..st }),
{
    let ts = time_text(ev.ts_us);
    let ln = dec(ev.line as nat);
    let dp = dec(ev.func_depth as nat);
    let rest = seq![FIELD_SEP] + ts + seq![FIELD_SEP] + ev.source + seq![FIELD_SEP] + ln + seq![FIELD_SEP]
        + ev.func + seq![FIELD_SEP] + dp + seq![FIELD_SEP] + ev.command;
    let line = event_line(ev);
    let k = ev.subshell as nat;
    assert(line =~= repeat('+', k) + rest);
    assert(line[0] == '+');
    lemma_leading_plus(k, rest);
    assert(line[k as int] == FIELD_SEP);
    let body = ts + seq![FIELD_SEP] + ev.source + seq![FIELD_SEP] + ln + seq![FIELD_SEP] + ev.func + seq![
        FIELD_SEP,
    ] + dp + seq![FIELD_SEP] + ev.command;
    assert(line.skip((k + 1) as int) =~= body);
    lemma_time_text_fields(ev.ts_us);
    lemma_number_fields(ev.line as nat);
    lemma_number_fields(ev.func_depth as nat);
    let r1 = ev.source + seq![FIELD_SEP] + ln + seq![FIELD_SEP] + ev.func + seq![FIELD_SEP] + dp + seq![
        FIELD_SEP,
    ] + ev.command;
    let r2 = ln + seq![FIELD_SEP] + ev.func + seq![FIELD_SEP] + dp + seq![FIELD_SEP] + ev.command;
    let r3 = ev.func + seq![FIELD_SEP] + dp + seq![FIELD_SEP] + ev.command;
    let r4 = dp + seq![FIELD_SEP] + ev.command;
    assert(body =~= ts + seq![FIELD_SEP] + r1);
    assert(r1 =~= ev.source + seq![FIELD_SEP] + r2);
    assert(r2 =~= ln + seq![FIELD_SEP] + r3);
    assert(r3 =~= ev.func + seq![FIELD_SEP] + r4);
    lemma_split2_at(ts, FIELD_SEP, r1, FIELD_SEP, FIELD_SEP);
    lemma_split2_at(ev.source, FIELD_SEP, r2, FIELD_SEP, FIELD_SEP);
    lemma_split2_at(ln, FIELD_SEP, r3, FIELD_SEP, FIELD_SEP);
    lemma_split2_at(ev.func, FIELD_SEP, r4, FIELD_SEP, FIELD_SEP);
    lemma_split2_at(dp, FIELD_SEP, ev.command, FIELD_SEP, FIELD_SEP);
}

/// The same, for a whole trace: the line of a traced command that is not
/// the bootstrap's own, appended with its newline to a trace that ends at
/// a line boundary, becomes the trace's last event and changes nothing
/// else. (Source, function and command hold no newline, as xtrace writes a
/// command's later lines as lines of their own.)
pub proof fn law_traced_command_read_back(content: Seq<char>, ev: EventV)
    requires
        content.len() == 0 || content.last() == '\n',
        ev.subshell >= 1,
        free_of(ev.source, FIELD_SEP),
        free_of(ev.func, FIELD_SEP),
        free_of(ev.source, '\n'),
        free_of(ev.func, '\n'),
        free_of(ev.command, '\n'),
        ev.command.len() == 0 || ev.command.last() != '\r',
        !is_internal(ev),
    ensures
        ({
            let before = trace_of(content);
            let after = trace_of(content + event_line(ev) + seq!['\n']);
            &&& after.events == before.events.push(ev)
            &&& after.start_us == before.start_us
            &&& after.end_us == before.end_us
            &&& after.exit_code == before.exit_code
            &&& after.script == before.script
            &&& after.skipped == before.skipped
        }),
{
    let x = event_line(ev);
    let k = ev.subshell as int;
    let ts = time_text(ev.ts_us);
    let ln = dec(ev.line as nat);
    let dp = dec(ev.func_depth as nat);
    lemma_time_text_fields(ev.ts_us);
    lemma_number_fields(ev.line as nat);
    lemma_number_fields(ev.func_depth as nat);
    assert forall|i: int| 0 <= i < x.len() implies #[trigger] x[i] != '\n' by {
        let o1 = k + 1;
        let o2 = o1 + ts.len() + 1;
        let o3 = o2 + ev.source.len() + 1;
        let o4 = o3 + ln.len() + 1;
        let o5 = o4 + ev.func.len() + 1;
        let o6 = o5 + dp.len() + 1;
        if i < k {
            assert(x[i] == '+');
        } else if o1 <= i < o2 - 1 {
            assert(x[i] == ts[i - o1]);
        } else if o2 <= i < o3 - 1 {
            assert(x[i] == ev.source[i - o2]);
        } else if o3 <= i < o4 - 1 {
            assert(x[i] == ln[i - o3]);
            assert(is_digit(ln[i - o3]));
        } else if o4 <= i < o5 - 1 {
            assert(x[i] == ev.func[i - o4]);
        } else if o5 <= i < o6 - 1 {
            assert(x[i] == dp[i - o5]);
            assert(is_digit(dp[i - o5]));
        } else if i >= o6 {
            assert(x[i] == ev.command[i - o6]);
        }
    }
    if ev.command.len() > 0 {
        assert(x.last() == ev.command.last());
    } else {
        assert(x.last() == FIELD_SEP);
    }
    lemma_lines_append_line(content, x);
    let ls = lines(content);
    assert(ls.push(x).drop_last() =~= ls);
    law_event_line_read_back(parse_lines(ls), ev);
    let raw = parse_lines(ls).raw;
    assert(raw.push(ev).drop_last() =~= raw);
}

/// The first six digits of a fraction, padded with zeros to six: the
/// microseconds it stands for, truncated and never rounded.
pub open spec fn micros_of_fraction(f: Seq<char>) -> nat {
    if f.len() >= 6 {
        digits_val(f.take(6))
    } else {
        digits_val(f + repeat('0', (6 - f.len()) as nat))
    }
}

/// `d` seconds and fraction `f` in microseconds, when that fits in `u64`.
pub open spec fn epoch_value(d: Seq<char>, f: Seq<char>) -> Option<u64> {
    let t = digits_val(d) * 1_000_000 + micros_of_fraction(f);
    if t <= u64::MAX {
        Some(t as u64)
    } else {
        None
    }
}

proof fn lemma_fraction_value(f: Seq<char>)
    requires
        all_digits(f),
    ensures
        ({
            let g = if f.len() > 6 {
                f.take(6)
            } else {
                f
            };
            &&& all_digits(g)
            &&& digits_val(g) * pow10((6 - g.len()) as nat) == micros_of_fraction(f)
        }),
{
    let g = if f.len() > 6 {
        f.take(6)
    } else {
        f
    };
    assert forall|i: int| 0 <= i < g.len() implies #[trigger] is_digit(g[i]) by {
        assert(g[i] == f[i]);
    }
    if f.len() >= 6 {
        assert(f.take(6) =~= g);
        assert(pow10(0) == 1);
        let v = digits_val(g);
        assert(v * 1 == v);
    } else {
        lemma_trailing_zeros(f, (6 - f.len()) as nat);
    }
}

/// What `$EPOCHREALTIME` reads as, in full: digits `d` of seconds,
/// optionally the radix (`.` or `,`) and fraction digits `f`, with any
/// white space around, are `d * 10^6` plus the first six fraction digits
/// (padded with zeros, truncated beyond six) microseconds, when that fits
/// in `u64`, and nothing otherwise.
proof fn lemma_seconds_digits(d: Seq<char>)
    requires
        d.len() > 0,
        all_digits(d),
    ensures
        is_digit(d[0]),
        is_digit(d[d.len() - 1]),
        !is_ws(d[0]),
        !is_ws(d[d.len() - 1]),
        unsigned_digits(d) == d,
        forall|i: int| 0 <= i < d.len() ==> #[trigger] d[i] != '.' && d[i] != ',',
{
    assert(is_digit(d[0]) && is_digit(d[d.len() - 1]));
    assert forall|i: int| 0 <= i < d.len() implies #[trigger] d[i] != '.' && d[i] != ',' by {
        assert(is_digit(d[i]));
    }
}

proof fn lemma_epoch_seconds(pre: Seq<char>, d: Seq<char>, post: Seq<char>)
    requires
        d.len() > 0,
        all_digits(d),
        all_ws(pre),
        all_ws(post),
    ensures
        epoch_us(pre + d + post) == epoch_value(d, Seq::empty()),
{
    lemma_seconds_digits(d);
    lemma_trim_padded(pre, d, post);
    lemma_split2_none(d, '.', ',');
    lemma_fraction_value(Seq::empty());
}

proof fn lemma_epoch_fraction(pre: Seq<char>, d: Seq<char>, r: char, f: Seq<char>, post: Seq<char>)
    requires
        d.len() > 0,
        all_digits(d),
        all_digits(f),
        r == '.' || r == ',',
        all_ws(pre),
        all_ws(post),
    ensures
        epoch_us(pre + d + seq![r] + f + post) == epoch_value(d, f),
{
    lemma_seconds_digits(d);
    let core = d + seq![r] + f;
    assert(core[0] == d[0]);
    if f.len() > 0 {
        assert(core.last() == f[f.len() - 1]);
        assert(is_digit(f[f.len() - 1]));
    } else {
        assert(core.last() == r);
    }
    lemma_trim_padded(pre, core, post);
    assert(pre + d + seq![r] + f + post =~= pre + core + post);
    lemma_split2_at(d, r, f, '.', ',');
    lemma_fraction_value(f);
}

/// What `$EPOCHREALTIME` reads as, in full: digits `d` of seconds,
/// optionally the radix (`.` or `,`) and fraction digits `f`, with any
/// white space around, are `d * 10^6` plus the first six fraction digits
/// (padded with zeros, truncated beyond six) microseconds, when that fits
/// in `u64`, and nothing otherwise.
pub proof fn law_epochrealtime(pre: Seq<char>, d: Seq<char>, r: char, f: Seq<char>, post: Seq<char>)
    requires
        d.len() > 0,
        all_digits(d),
        all_digits(f),
        r == '.' || r == ',',
        all_ws(pre),
        all_ws(post),
    ensures
        epoch_us(pre + d + post) == epoch_value(d, Seq::empty()),
        epoch_us(pre + d + seq![r] + f + post) == epoch_value(d, f),
{
    lemma_epoch_seconds(pre, d, post);
    lemma_epoch_fraction(pre, d, r, f, post);
}

} // verus!
