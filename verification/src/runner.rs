//! The decisions around a profiled run: the argument list the shell is
//! started with, the verdict on a shell that cannot profile, and the `END`
//! record appended when the profiled script replaced the bootstrap's EXIT
//! trap.
//!
//! Starting the process, reading the clock and touching files happen
//! outside this module; it only computes.

use vstd::prelude::*;
use crate::ps4::{bootstrap, bootstrap_text, FIELD_SEP};
use crate::text::{
    dec, idec, is_digit, lemma_dec_digits, lemma_lines_append_line, lemma_zdec_digits, lines, lines_acc,
    push_char, push_dec, push_idec, push_range, push_str, push_zdec, range_starts_with, starts_with,
    strip_cr, texts, to_chars, trim, trim_range, zdec,
};
use crate::trace::{
    end_word, free_of, lemma_end_line, lemma_epoch_read_back, lemma_i32_read_back, parse_lines, time_text,
    trace_of,
};

verus! {

/// Everything needed to launch a profiled run. Paths are kept as the text
/// the user gave.
#[derive(Debug, Clone)]
pub struct RunSpec {
    /// The bash binary to use ("bash" resolved via PATH by default).
    pub shell: String,
    /// Target script path.
    pub script: String,
    /// Arguments passed through to the script.
    pub args: Vec<String>,
    /// Where the raw trace is written.
    pub trace_path: String,
}

// ---------------------------------------------------------------------
// The shell's command line
// ---------------------------------------------------------------------

/// `--norc -c <bootstrap> <script> <args...>`: inside the bootstrap the
/// script path is `$0` and its arguments are `$@`.
pub open spec fn command_args_text(script: Seq<char>, args: Seq<Seq<char>>) -> Seq<Seq<char>> {
    seq!["--norc"@, "-c"@, bootstrap_text(), script] + args
}

/// The arguments the shell is started with for `spec`.
pub fn command_args(spec: &RunSpec) -> (r: Vec<String>)
    ensures
        texts(r@) == command_args_text(spec.script@, texts(spec.args@)),
{
    let mut r: Vec<String> = Vec::new();
    r.push("--norc".to_owned());
    r.push("-c".to_owned());
    r.push(bootstrap());
    r.push(spec.script.clone());
    let ghost head = seq!["--norc"@, "-c"@, bootstrap_text(), spec.script@];
    assert(texts(r@) =~= head);
    let mut i: usize = 0;
    while i < spec.args.len()
        invariant
            i <= spec.args@.len(),
            head == seq!["--norc"@, "-c"@, bootstrap_text(), spec.script@],
            texts(r@) == head + texts(spec.args@).take(i as int),
        decreases spec.args@.len() - i,
    {
        let ghost before = r@;
        r.push(spec.args[i].clone());
        assert(texts(r@) =~= texts(before).push(spec.args@[i as int]@));
        assert(texts(spec.args@).take(i + 1) =~= texts(spec.args@).take(i as int).push(
            spec.args@[i as int]@,
        ));
        assert(head + texts(spec.args@).take(i + 1) =~= (head + texts(spec.args@).take(i as int)).push(
            spec.args@[i as int]@,
        ));
        i += 1;
    }
    assert(texts(spec.args@).take(spec.args@.len() as int) =~= texts(spec.args@));
    r
}

// ---------------------------------------------------------------------
// A shell that cannot profile
// ---------------------------------------------------------------------

/// What the probe printed, trimmed; `unknown` when that leaves nothing.
pub open spec fn found_text(out: Seq<char>) -> Seq<char> {
    if trim(out).len() == 0 {
        "unknown"@
    } else {
        trim(out)
    }
}

pub open spec fn probe_error_text(shell: Seq<char>, out: Seq<char>) -> Seq<char> {
    "'"@ + shell + "' does not provide EPOCHREALTIME (need bash >= 5.0, found: "@ + found_text(out)
        + ")"@
}

/// The error for a shell whose probe failed, naming what was found: `out`
/// is what the probe printed (the shell's version, or `not bash`).
pub fn probe_error(shell: &str, out: &str) -> (r: String)
    ensures
        r@ == probe_error_text(shell@, out@),
{
    let cs = to_chars(out);
    assert(cs@.subrange(0, cs@.len() as int) =~= cs@);
    let (a, b) = trim_range(&cs, 0, cs.len());
    let mut r = String::new();
    push_str(&mut r, "'");
    push_str(&mut r, shell);
    push_str(&mut r, "' does not provide EPOCHREALTIME (need bash >= 5.0, found: ");
    if a == b {
        push_str(&mut r, "unknown");
    } else {
        push_range(&mut r, &cs, a, b);
    }
    push_str(&mut r, ")");
    r
}

// ---------------------------------------------------------------------
// The END record
// ---------------------------------------------------------------------

/// A separator and `END`: how an `END` record line begins.
pub open spec fn end_marker() -> Seq<char> {
    seq![FIELD_SEP, 'E', 'N', 'D']
}

/// Does any of the lines begin an `END` record?
pub open spec fn any_end(ls: Seq<Seq<char>>) -> bool
    decreases ls.len(),
{
    ls.len() > 0 && (any_end(ls.drop_last()) || starts_with(ls.last(), end_marker()))
}

/// The trace already holds an `END` record: one of its lines (as
/// `str::lines` splits it) begins with a separator and `END`.
pub open spec fn has_end_text(content: Seq<char>) -> bool {
    exists|i: int| 0 <= i < lines(content).len() && starts_with(#[trigger] lines(content)[i], end_marker())
}

proof fn lemma_any_end(ls: Seq<Seq<char>>)
    ensures
        any_end(ls) == exists|i: int| 0 <= i < ls.len() && starts_with(#[trigger] ls[i], end_marker()),
    decreases ls.len(),
{
    if ls.len() > 0 {
        lemma_any_end(ls.drop_last());
        if any_end(ls.drop_last()) {
            let i = choose|i: int|
                0 <= i < ls.drop_last().len() && starts_with(#[trigger] ls.drop_last()[i], end_marker());
            assert(ls[i] == ls.drop_last()[i]);
        }
        if starts_with(ls.last(), end_marker()) {
            assert(starts_with(ls[ls.len() - 1], end_marker()));
        }
        if exists|i: int| 0 <= i < ls.len() && starts_with(#[trigger] ls[i], end_marker()) {
            let i = choose|i: int| 0 <= i < ls.len() && starts_with(#[trigger] ls[i], end_marker());
            if i < ls.len() - 1 {
                assert(ls.drop_last()[i] == ls[i]);
            }
        }
    }
}

/// Does the trace text already hold an `END` record?
pub fn has_end_record(content: &str) -> (r: bool)
    ensures
        r == has_end_text(content@),
{
    let cs = to_chars(content);
    let marker = vec![FIELD_SEP, 'E', 'N', 'D'];
    assert(marker@ =~= end_marker());
    let mut found = false;
    let mut cur: usize = 0;
    let mut i: usize = 0;
    assert(cs@.take(0) =~= Seq::<char>::empty());
    while i < cs.len()
        invariant
            cur <= i <= cs@.len(),
            marker@ == end_marker(),
            lines_acc(cs@.take(i as int)).1 == cs@.subrange(cur as int, i as int),
            found == any_end(lines_acc(cs@.take(i as int)).0),
        decreases cs@.len() - i,
    {
        let ghost pre = cs@.take(i as int);
        assert(cs@.take(i + 1).drop_last() =~= pre);
        assert(cs@.take(i + 1).last() == cs@[i as int]);
        if cs[i] == '\n' {
            let hi = if i > cur && cs[i - 1] == '\r' {
                i - 1
            } else {
                i
            };
            assert(strip_cr(cs@.subrange(cur as int, i as int)) =~= cs@.subrange(cur as int, hi as int));
            let ghost done = lines_acc(pre).0;
            assert(done.push(cs@.subrange(cur as int, hi as int)).drop_last() =~= done);
            if range_starts_with(&cs, cur, hi, &marker) {
                found = true;
            }
            cur = i + 1;
            assert(cs@.subrange(cur as int, i + 1) =~= Seq::<char>::empty());
        } else {
            assert(cs@.subrange(cur as int, i + 1) =~= cs@.subrange(cur as int, i as int).push(cs@[i as int]));
        }
        i += 1;
    }
    assert(cs@.take(cs@.len() as int) =~= cs@);
    if cur < cs.len() {
        let ghost done = lines_acc(cs@).0;
        assert(done.push(cs@.subrange(cur as int, cs@.len() as int)).drop_last() =~= done);
        if range_starts_with(&cs, cur, cs.len(), &marker) {
            found = true;
        }
    }
    proof {
        lemma_any_end(lines(content@));
    }
    found
}

/// `␟END␟<seconds>.<micros>␟<exit code>` and a newline, the time given in
/// microseconds since the epoch.
pub open spec fn end_record_text(now_us: u64, exit_code: i32) -> Seq<char> {
    end_marker() + seq![FIELD_SEP] + time_text(now_us) + seq![FIELD_SEP] + idec(exit_code as int) + seq![
        '\n',
    ]
}

/// The `END` record appended for a run that ended at `now_us` with
/// `exit_code`.
pub fn end_record(now_us: u64, exit_code: i32) -> (r: String)
    ensures
        r@ == end_record_text(now_us, exit_code),
{
    let mut r = String::new();
    push_char(&mut r, FIELD_SEP);
    push_char(&mut r, 'E');
    push_char(&mut r, 'N');
    push_char(&mut r, 'D');
    push_char(&mut r, FIELD_SEP);
    push_dec(&mut r, now_us / 1_000_000);
    push_char(&mut r, '.');
    push_zdec(&mut r, now_us % 1_000_000, 6);
    push_char(&mut r, FIELD_SEP);
    push_idec(&mut r, exit_code as i64);
    push_char(&mut r, '\n');
    assert(r@ =~= end_record_text(now_us, exit_code));
    r
}

/// What the characters of a number's text can be.
spec fn numeric_char(c: char) -> bool {
    is_digit(c) || c == '.' || c == '-'
}

proof fn lemma_idec_chars(v: int)
    ensures
        idec(v).len() > 0,
        forall|i: int| 0 <= i < idec(v).len() ==> numeric_char(#[trigger] idec(v)[i]),
        is_digit(idec(v).last()),
{
    if v < 0 {
        let d = dec((-v) as nat);
        lemma_dec_digits((-v) as nat);
        assert(idec(v) =~= seq!['-'] + d);
        assert forall|i: int| 0 <= i < idec(v).len() implies numeric_char(#[trigger] idec(v)[i]) by {
            if i > 0 {
                assert(idec(v)[i] == d[i - 1]);
                assert(is_digit(d[i - 1]));
            }
        }
        assert(idec(v).last() == d[d.len() - 1]);
    } else {
        lemma_dec_digits(v as nat);
        assert forall|i: int| 0 <= i < idec(v).len() implies numeric_char(#[trigger] idec(v)[i]) by {
            assert(is_digit(dec(v as nat)[i]));
        }
    }
}

proof fn lemma_time_chars(now_us: u64)
    ensures
        ({
            let ts = time_text(now_us);
            forall|i: int| 0 <= i < ts.len() ==> numeric_char(#[trigger] ts[i])
        }),
{
    let d = dec((now_us / 1_000_000) as nat);
    let z = zdec((now_us % 1_000_000) as nat, 6);
    let ts = d + seq!['.'] + z;
    lemma_dec_digits((now_us / 1_000_000) as nat);
    lemma_zdec_digits((now_us % 1_000_000) as nat, 6);
    assert forall|i: int| 0 <= i < ts.len() implies numeric_char(#[trigger] ts[i]) by {
        if i < d.len() {
            assert(is_digit(d[i]));
        } else if i > d.len() {
            assert(ts[i] == z[i - d.len() - 1]);
            assert(is_digit(z[i - d.len() - 1]));
        }
    }
}

/// What `end_record` writes, the trace parser reads back: appended to a
/// trace that ends at a line boundary, the record keeps the trace's events,
/// `START` and skipped lines, sets its end time and exit code to the
/// record's, and is itself found as an `END` record.
#[verifier::spinoff_prover]
#[verifier::rlimit(50)]
pub proof fn law_end_record_read_back(content: Seq<char>, now_us: u64, exit_code: i32)
    requires
        content.len() == 0 || content.last() == '\n',
    ensures
        ({
            let before = trace_of(content);
            let after = trace_of(content + end_record_text(now_us, exit_code));
            &&& after.events == before.events
            &&& after.start_us == before.start_us
            &&& after.script == before.script
            &&& after.skipped == before.skipped
            &&& after.end_us == Some(now_us)
            &&& after.exit_code == Some(exit_code)
            &&& has_end_text(content + end_record_text(now_us, exit_code))
        }),
{
    let ts = time_text(now_us);
    let rc = idec(exit_code as int);
    let x = seq![FIELD_SEP] + end_word() + seq![FIELD_SEP] + ts + seq![FIELD_SEP] + rc;
    lemma_time_chars(now_us);
    lemma_idec_chars(exit_code as int);
    assert(content + end_record_text(now_us, exit_code) =~= content + x + seq!['\n']);
    assert forall|i: int| 0 <= i < x.len() implies #[trigger] x[i] != '\n' by {
        let k = 6 + ts.len();
        if 5 <= i < 5 + ts.len() {
            assert(x[i] == ts[i - 5]);
            assert(numeric_char(ts[i - 5]));
        } else if i >= k {
            assert(x[i] == rc[i - k]);
            assert(numeric_char(rc[i - k]));
        }
    }
    assert(x.last() == rc.last());
    assert(free_of(ts, FIELD_SEP)) by {
        assert forall|i: int| 0 <= i < ts.len() implies #[trigger] ts[i] != FIELD_SEP by {
            assert(numeric_char(ts[i]));
        }
    }
    assert(free_of(rc, FIELD_SEP)) by {
        assert forall|i: int| 0 <= i < rc.len() implies #[trigger] rc[i] != FIELD_SEP by {
            assert(numeric_char(rc[i]));
        }
    }
    lemma_lines_append_line(content, x);
    let ls = lines(content);
    assert(ls.push(x).drop_last() =~= ls);
    lemma_end_line(parse_lines(ls), ts, rc);
    lemma_epoch_read_back(now_us);
    lemma_i32_read_back(exit_code);
    let all = lines(content + x + seq!['\n']);
    assert(all[all.len() - 1] == x);
    assert(x.take(4) =~= end_marker());
    assert(starts_with(all[all.len() - 1], end_marker()));
}

} // verus!
