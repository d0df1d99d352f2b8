//! Human-facing rendering: the hot-line report and annotated source.

use vstd::prelude::*;
use vstd::string::*;
use crate::binary64::{
    below, brackets, fixed, flog2, lemma_brackets_down, lemma_exponent_exists, lemma_flog2, lemma_rhe_at_least,
    lemma_rhe_at_most, lemma_rhe_bound, lemma_two_mono,
    lemma_two_values, nearest, push_fixed, rhe, round_quotient, scaled, two, Binary64,
};
use crate::profile::{key_lt, lemma_key_lt_irrefl, lemma_key_lt_trans, root_frame, FuncStat, FuncStatV, LineStat, LineStatV, Profile, ProfileV, ROOT_FRAME};
use crate::VERSION;
use vstd::utf8::encode_utf8;
use crate::text::{
    basename, basename_start, chars_eq, chars_lt, dec, idec, pad_left, pad_right, push_char, push_dec,
    pow10, push_idec, push_padded_left, push_padded_right, push_str, push_zdec, seq_lt, to_chars, zdec,
    concat, is_digit, lemma_dec_digits, lemma_dec_len_bound, lemma_zdec_digits, lines,
};

verus! {

/// How the hot-line table is ordered.
#[derive(Debug, Clone, Copy, PartialEq, Eq, Structural)]
pub enum SortKey {
    /// Self-time descending (default: "where did the time go?").
    SelfTime,
    /// Execution count descending ("what ran the most?").
    Count,
    /// File and line number ascending (source order).
    Line,
}

/// The sort key a command-line word names.
pub open spec fn sort_key_of(s: Seq<char>) -> Option<SortKey> {
    if s == seq!['s', 'e', 'l', 'f'] {
        Some(SortKey::SelfTime)
    } else if s == seq!['c', 'o', 'u', 'n', 't'] {
        Some(SortKey::Count)
    } else if s == seq!['l', 'i', 'n', 'e'] {
        Some(SortKey::Line)
    } else {
        None
    }
}

fn word(cs: &Vec<char>, w: &str) -> (r: bool)
    ensures
        r == (cs@ == w@),
{
    let wc = to_chars(w);
    chars_eq(cs, &wc)
}

impl SortKey {
    pub fn parse(s: &str) -> (r: Option<SortKey>)
        ensures
            r == sort_key_of(s@),
    {
        let cs = to_chars(s);
        proof {
            reveal_strlit("self");
            reveal_strlit("count");
            reveal_strlit("line");
        }
        if word(&cs, "self") {
            assert("self"@ =~= seq!['s', 'e', 'l', 'f']);
            Some(SortKey::SelfTime)
        } else if word(&cs, "count") {
            assert("self"@ =~= seq!['s', 'e', 'l', 'f']);
            assert("count"@ =~= seq!['c', 'o', 'u', 'n', 't']);
            Some(SortKey::Count)
        } else if word(&cs, "line") {
            assert("self"@ =~= seq!['s', 'e', 'l', 'f']);
            assert("count"@ =~= seq!['c', 'o', 'u', 'n', 't']);
            assert("line"@ =~= seq!['l', 'i', 'n', 'e']);
            Some(SortKey::Line)
        } else {
            assert("self"@ =~= seq!['s', 'e', 'l', 'f']);
            assert("count"@ =~= seq!['c', 'o', 'u', 'n', 't']);
            assert("line"@ =~= seq!['l', 'i', 'n', 'e']);
            None
        }
    }
}

/// Report shaping options shared by `run` and `report`.
#[derive(Debug, Clone, Copy, PartialEq, Eq, Structural)]
pub struct Options {
    /// Rows in the hot-line table; 0 means all.
    pub top: usize,
    pub sort: SortKey,
    /// Hide lines with less self-time than this (microseconds).
    pub min_us: u64,
}

impl Default for Options {
    fn default() -> (o: Options)
        ensures
            o.top == 15,
            o.sort == SortKey::SelfTime,
            o.min_us == 0,
    {
        Options { top: 15, sort: SortKey::SelfTime, min_us: 0 }
    }
}

// ---------------------------------------------------------------------
// Durations and percentages
// ---------------------------------------------------------------------

/// `us` microseconds for humans: `842us`, `12.3ms`, `1.204s`, `2m06s`.
/// The millisecond and second forms are the binary64 quotient
/// `us / 1000.0` (or `us / 1000000.0`) rendered with one, zero or three
/// decimals.
pub open spec fn duration_text(us: nat) -> Seq<char> {
    if us < 1_000 {
        dec(us) + seq!['u', 's']
    } else if us < 999_500 {
        let ms = nearest(us, 1000, 0);
        if below(ms, 100) {
            fixed(ms, 1) + seq!['m', 's']
        } else {
            fixed(ms, 0) + seq!['m', 's']
        }
    } else if us < 60_000_000 {
        fixed(nearest(us, 1_000_000, 0), 3) + seq!['s']
    } else {
        let secs = us / 1_000_000;
        dec(secs / 60) + seq!['m'] + zdec(secs % 60, 2) + seq!['s']
    }
}

/// The binary64 value of `part * 100.0 / whole`, each operand converted
/// from an integer and each operation rounded.
pub open spec fn percent_value(part: nat, whole: nat) -> Binary64 {
    let p = nearest(part, 1, 0);
    let m = nearest(p.m * 100, 1, p.e);
    let w = nearest(whole, 1, 0);
    nearest(m.m, w.m, m.e - w.e)
}

/// Percentage of `part` in `whole` with one decimal; `0.0%` when `whole`
/// is zero.
pub open spec fn percent_text(part: nat, whole: nat) -> Seq<char> {
    if whole == 0 {
        seq!['0', '.', '0', '%']
    } else {
        fixed(percent_value(part, whole), 1) + seq!['%']
    }
}

/// The millisecond form never reaches a second: for every duration shown
/// in milliseconds (from 1 ms to just under 999.5 ms) the whole
/// milliseconds shown are at most 999, so no duration reads `1000ms`.
pub proof fn law_milliseconds_stay_below_a_second(us: nat)
    requires
        1_000 <= us < 999_500,
    ensures
        scaled(nearest(us, 1000, 0), 0) <= 999,
{
    lemma_two_values();
    lemma_exponent_exists(us, 1000, 0, 10);
    let j = choose|k: nat| 0 <= k < 10 && #[trigger] brackets(us, 1000, k as int) && flog2(us, 1000) == k;
    let kk = (52 - j) as nat;
    let a = us * two(kk);
    let m = rhe(a, 1000);
    assert(nearest(us, 1000, 0) == Binary64 { m, e: j - 52 });
    assert(pow10(0) == 1);
    lemma_rhe_bound(a, 1000);
    lemma_two_mono(10, kk);
    let t = two(kk);
    assert(2 * m < (2 * 999 + 1) * t) by (nonlinear_arith)
        requires
            2 * 1000 * m <= 2 * a + 1000,
            a == us * t,
            us <= 999_499,
            t >= 1024,
    ;
    assert(m * pow10(0) == m);
    lemma_rhe_at_most(m * pow10(0), t, 999);
}

/// Just under a second, from 999.5 ms on, reads as a whole second.
proof fn lemma_just_under_a_second(us: nat)
    requires
        999_500 <= us < 1_000_000,
    ensures
        scaled(nearest(us, 1_000_000, 0), 3) == 1000,
{
    lemma_two_values();
    let t = two(53);
    assert(two(1) == 2);
    lemma_brackets_down(us, 1_000_000, 1);
    lemma_flog2(us, 1_000_000, -1);
    let a = us * t;
    let m = rhe(a, 1_000_000);
    assert(nearest(us, 1_000_000, 0) == Binary64 { m, e: -53 });
    assert(pow10(3) == 1000) by {
        reveal_with_fuel(pow10, 4);
    }
    lemma_rhe_bound(a, 1_000_000);
    assert(2 * m * 1000 < (2 * 1000 + 1) * t) by (nonlinear_arith)
        requires
            2 * 1_000_000 * m <= 2 * a + 1_000_000,
            a == us * t,
            us <= 999_999,
            t >= 1024,
    ;
    lemma_rhe_at_most(m * 1000, t, 1000);
    if us == 999_500 {
        assert(a == 9002695655113621504000);
        assert(a / 1_000_000 == 9002695655113621);
        assert(a % 1_000_000 == 504000);
        assert(m == 9002695655113622);
        assert(2 * (m * 1000) > (2 * 1000 - 1) * t);
    } else {
        assert(2 * (m * 1000) > (2 * 1000 - 1) * t) by (nonlinear_arith)
            requires
                2 * a <= 2 * 1_000_000 * m + 1_000_000,
                a == us * t,
                us >= 999_501,
                t == 0x20_0000_0000_0000,
        ;
    }
    lemma_rhe_at_least(m * 1000, t, 1000);
    assert(m * pow10(3) == m * 1000);
}

/// `1000ms`.
pub open spec fn thousand_ms() -> Seq<char> {
    seq!['1', '0', '0', '0', 'm', 's']
}

proof fn lemma_not_thousand_ms(t: Seq<char>, i: int)
    requires
        0 <= i < t.len(),
        t[i] != '1' && t[i] != '0' && t[i] != 'm' && t[i] != 's',
    ensures
        t != thousand_ms(),
{
    if t == thousand_ms() {
        assert(i < 6);
        assert(thousand_ms()[i] == '1' || thousand_ms()[i] == '0' || thousand_ms()[i] == 'm'
            || thousand_ms()[i] == 's');
    }
}

proof fn lemma_fixed_has_point(x: Binary64, p: nat)
    requires
        p >= 1,
    ensures
        ({
            let n = scaled(x, p);
            let i = dec(n / pow10(p)).len() as int;
            0 <= i < fixed(x, p).len() && fixed(x, p)[i] == '.'
        }),
{
}

/// Every form of a duration: microseconds below a millisecond, minutes and
/// two-digit seconds from a minute on, a whole second from 999.5 ms on
/// (`1.000s`), and never `1000ms`.
pub proof fn law_duration_forms(us: nat)
    ensures
        us < 1_000 ==> duration_text(us) == dec(us) + seq!['u', 's'],
        us >= 60_000_000 ==> duration_text(us) == dec(us / 60_000_000) + seq!['m'] + zdec(
            (us / 1_000_000) % 60,
            2,
        ) + seq!['s'],
        999_500 <= us < 1_000_000 ==> duration_text(us) == seq!['1', '.', '0', '0', '0', 's'],
        duration_text(us) != thousand_ms(),
{
    let t = duration_text(us);
    if us < 1_000 {
        lemma_dec_digits(us);
        lemma_not_thousand_ms(t, t.len() - 2);
    } else if us < 999_500 {
        let ms = nearest(us, 1000, 0);
        if below(ms, 100) {
            lemma_fixed_has_point(ms, 1);
            lemma_not_thousand_ms(t, dec(scaled(ms, 1) / pow10(1)).len() as int);
        } else {
            law_milliseconds_stay_below_a_second(us);
            assert(pow10(3) == 1000) by {
                reveal_with_fuel(pow10, 4);
            }
            lemma_dec_len_bound(scaled(ms, 0), 3);
        }
    } else if us < 60_000_000 {
        let x = nearest(us, 1_000_000, 0);
        lemma_fixed_has_point(x, 3);
        lemma_not_thousand_ms(t, dec(scaled(x, 3) / pow10(3)).len() as int);
        if us < 1_000_000 {
            lemma_just_under_a_second(us);
            assert(pow10(3) == 1000) by {
                reveal_with_fuel(pow10, 4);
            }
            assert(dec(1) == seq!['1']);
            assert(dec(0) == seq!['0']);
            assert(zdec(0, 3) =~= seq!['0', '0', '0']);
            assert(t =~= seq!['1', '.', '0', '0', '0', 's']);
        }
    } else {
        let secs = us / 1_000_000;
        vstd::arithmetic::div_mod::lemma_div_denominator(us as int, 1_000_000, 60);
        assert(secs / 60 == us / 60_000_000);
        lemma_zdec_digits(secs % 60, 2);
        let z = zdec(secs % 60, 2);
        assert(t[t.len() - 2] == z[z.len() - 1]);
        assert(is_digit(z[z.len() - 1]));
        if t == thousand_ms() {
            assert(t[4] == 'm');
        }
    }
}

/// Appends `duration_text(us)`.
pub fn push_duration(out: &mut String, us: u64)
    ensures
        final(out)@ == old(out)@ + duration_text(us as nat),
{
    if us < 1_000 {
        push_dec(out, us);
        push_str(out, "us");
        proof {
            reveal_strlit("us");
        }
    } else if us < 999_500 {
        let (m, e) = round_quotient(us, 1000);
        proof {
            crate::binary64::lemma_two_values();
            assert((us as nat) >= 1000 * two(0));
            assert((us as nat) < 1000 * two(10));
        }
        if crate::binary64::value_below(m, e, 100) {
            push_fixed(out, m, e, 1);
        } else {
            push_fixed(out, m, e, 0);
        }
        push_str(out, "ms");
        proof {
            reveal_strlit("ms");
        }
    } else if us < 60_000_000 {
        let (m, e) = round_quotient(us, 1_000_000);
        proof {
            crate::binary64::lemma_two_values();
            assert((us as nat) < 1_000_000 * two(10));
            assert(2 * (us as nat) >= 1_000_000);
        }
        push_fixed(out, m, e, 3);
        push_char(out, 's');
    } else {
        let secs = us / 1_000_000;
        push_dec(out, secs / 60);
        push_char(out, 'm');
        push_zdec(out, secs % 60, 2);
        push_char(out, 's');
    }
}

/// Format integer microseconds for humans: `842us`, `12.3ms`, `1.204s`,
/// `2m06s`.
pub fn fmt_duration(us: u64) -> (s: String)
    ensures
        s@ == duration_text(us as nat),
{
    let mut s = String::new();
    push_duration(&mut s, us);
    s
}

/// Appends `percent_text(part, whole)`.
pub fn push_percent(out: &mut String, part: u64, whole: u64)
    ensures
        final(out)@ == old(out)@ + percent_text(part as nat, whole as nat),
{
    if whole == 0 {
        push_str(out, "0.0%");
        proof {
            reveal_strlit("0.0%");
        }
        return;
    }
    if part == 0 {
        push_fixed(out, 0, 0, 1);
        push_char(out, '%');
        return;
    }
    proof {
        crate::binary64::lemma_two_values();
    }
    let (mp, ep) = round_quotient(part, 1);
    proof {
        assert((mp as nat) * 100 >= 1 * two(58)) by {
            crate::binary64::lemma_two_adds(52, 6);
            assert(two(6) == 64) by {
                reveal_with_fuel(two, 7);
            }
        }
        assert((mp as nat) * 100 < 1 * two(60)) by {
            crate::binary64::lemma_two_adds(54, 6);
            assert(two(6) == 64) by {
                reveal_with_fuel(two, 7);
            }
        }
    }
    let (mm, em0) = round_quotient(mp * 100, 1);
    let em = em0 + ep;
    let (mw, ew) = round_quotient(whole, 1);
    proof {
        assert((mm as nat) < (mw as nat) * two(2)) by {
            assert(two(2) == 4) by {
                reveal_with_fuel(two, 3);
            }
        }
        assert(2 * (mm as nat) >= mw as nat);
    }
    let (md, ed0) = round_quotient(mm, mw);
    let ed = ed0 + em - ew;
    push_fixed(out, md, ed, 1);
    push_char(out, '%');
}

/// Percentage of `part` in `whole`, one decimal, safe for `whole == 0`.
pub fn fmt_percent(part: u64, whole: u64) -> (s: String)
    ensures
        s@ == percent_text(part as nat, whole as nat),
{
    let mut s = String::new();
    push_percent(&mut s, part, whole);
    s
}

// ---------------------------------------------------------------------
// Selecting the hot lines
// ---------------------------------------------------------------------

/// Is row `a` ordered strictly before row `b` under `sk`? Ties on the
/// sort value fall back to file and line.
pub open spec fn row_before(a: LineStatV, b: LineStatV, sk: SortKey) -> bool {
    match sk {
        SortKey::SelfTime => a.self_us > b.self_us || (a.self_us == b.self_us && key_lt(
            a.file,
            a.line,
            b.file,
            b.line,
        )),
        SortKey::Count => a.count > b.count || (a.count == b.count && key_lt(
            a.file,
            a.line,
            b.file,
            b.line,
        )),
        SortKey::Line => key_lt(a.file, a.line, b.file, b.line),
    }
}

/// `x` placed into `s` before the first row it precedes.
pub open spec fn insert_row(s: Seq<LineStatV>, x: LineStatV, sk: SortKey) -> Seq<LineStatV>
    decreases s.len(),
{
    if s.len() == 0 {
        seq![x]
    } else if row_before(x, s[0], sk) {
        seq![x] + s
    } else {
        seq![s[0]] + insert_row(s.drop_first(), x, sk)
    }
}

/// The rows in `sk` order; rows that compare equal keep their order.
pub open spec fn sort_rows(s: Seq<LineStatV>, sk: SortKey) -> Seq<LineStatV>
    decreases s.len(),
{
    if s.len() == 0 {
        s
    } else {
        insert_row(sort_rows(s.drop_last(), sk), s.last(), sk)
    }
}

/// The rows with at least `min_us` of self-time, in order.
pub open spec fn keep_rows(s: Seq<LineStatV>, min_us: u64) -> Seq<LineStatV>
    decreases s.len(),
{
    if s.len() == 0 {
        s
    } else if s.last().self_us >= min_us {
        keep_rows(s.drop_last(), min_us).push(s.last())
    } else {
        keep_rows(s.drop_last(), min_us)
    }
}

/// The hot-line table: filtered by `min_us`, ordered by `sort`, cut to
/// `top` rows unless `top` is 0.
pub open spec fn selected(ls: Seq<LineStatV>, opts: Options) -> Seq<LineStatV> {
    let r = sort_rows(keep_rows(ls, opts.min_us), opts.sort);
    if opts.top > 0 && r.len() > opts.top {
        r.take(opts.top as int)
    } else {
        r
    }
}

pub open spec fn rows_of(v: Seq<&LineStat>) -> Seq<LineStatV> {
    v.map_values(|l: &LineStat| l@)
}

fn before(a: &LineStat, b: &LineStat, sk: SortKey) -> (r: bool)
    ensures
        r == row_before(a@, b@, sk),
{
    let af = to_chars(a.file.as_str());
    let bf = to_chars(b.file.as_str());
    let kl = chars_lt(&af, &bf) || (a.line < b.line && chars_eq(&af, &bf));
    match sk {
        SortKey::SelfTime => a.self_us > b.self_us || (a.self_us == b.self_us && kl),
        SortKey::Count => a.count > b.count || (a.count == b.count && kl),
        SortKey::Line => kl,
    }
}

/// Order + filter the profile's lines according to `opts`.
pub fn select_lines<'a>(profile: &'a Profile, opts: &Options) -> (r: Vec<&'a LineStat>)
    ensures
        rows_of(r@) == selected(profile@.lines, *opts),
{
    let ghost ls = profile@.lines;
    let lines = &profile.lines;
    assert(ls == lines@.map_values(|l: LineStat| l@));
    let mut out: Vec<&'a LineStat> = Vec::new();
    let mut i: usize = 0;
    assert(ls.take(0) =~= Seq::<LineStatV>::empty());
    while i < lines.len()
        invariant
            i <= lines@.len(),
            ls == lines@.map_values(|l: LineStat| l@),
            rows_of(out@) == sort_rows(keep_rows(ls.take(i as int), opts.min_us), opts.sort),
        decreases lines@.len() - i,
    {
        let ghost pre = ls.take(i as int);
        assert(ls.take(i + 1).drop_last() =~= pre);
        assert(ls.take(i + 1).last() == lines@[i as int]@);
        let x = &lines[i];
        let ghost kept = keep_rows(pre, opts.min_us);
        if x.self_us >= opts.min_us {
            assert(keep_rows(ls.take(i + 1), opts.min_us) == kept.push(x@));
            assert(kept.push(x@).drop_last() =~= kept);
            assert(sort_rows(kept.push(x@), opts.sort) == insert_row(sort_rows(kept, opts.sort), x@, opts.sort));
            let ghost cur = rows_of(out@);
            let mut p: usize = 0;
            assert(cur.skip(0) =~= cur);
            assert(cur.take(0) + insert_row(cur.skip(0), x@, opts.sort) =~= insert_row(cur, x@, opts.sort));
            while p < out.len() && !before(x, out[p], opts.sort)
                invariant
                    p <= out@.len(),
                    rows_of(out@) == cur,
                    insert_row(cur, x@, opts.sort) == cur.take(p as int) + insert_row(cur.skip(p as int), x@, opts.sort),
                decreases out@.len() - p,
            {
                let ghost rest = cur.skip(p as int);
                assert(rest[0] == out@[p as int]@);
                assert(rest.drop_first() =~= cur.skip(p + 1));
                assert(cur.take(p + 1) =~= cur.take(p as int) + seq![rest[0]]);
                assert(cur.take(p as int) + (seq![rest[0]] + insert_row(rest.drop_first(), x@, opts.sort)) =~= cur.take(p + 1) + insert_row(cur.skip(p + 1), x@, opts.sort));
                p += 1;
            }
            out.insert(p, x);
            proof {
                if p == cur.len() {
                    assert(cur.skip(p as int) =~= Seq::<LineStatV>::empty());
                    assert(cur.take(p as int) =~= cur);
                } else {
                    assert(cur.skip(p as int)[0] == cur[p as int]);
                }
                assert(rows_of(out@) =~= cur.take(p as int) + insert_row(cur.skip(p as int), x@, opts.sort));
            }
        } else {
            assert(keep_rows(ls.take(i + 1), opts.min_us) == kept);
        }
        i += 1;
    }
    assert(ls.take(lines@.len() as int) =~= ls);
    if opts.top > 0 && out.len() > opts.top {
        out.truncate(opts.top);
        assert(rows_of(out@) =~= sort_rows(keep_rows(ls, opts.min_us), opts.sort).take(opts.top as int));
    }
    out
}

// ---------------------------------------------------------------------
// Small pieces of text
// ---------------------------------------------------------------------

/// `1 command` / `3 commands`: count-prefixed noun with a plain `s` plural.
pub open spec fn plural_text(n: nat, noun: Seq<char>) -> Seq<char> {
    dec(n) + seq![' '] + noun + (if n == 1 {
        Seq::empty()
    } else {
        seq!['s']
    })
}

fn push_plural(out: &mut String, n: u64, noun: &str)
    ensures
        final(out)@ == old(out)@ + plural_text(n as nat, noun@),
{
    push_dec(out, n);
    push_char(out, ' ');
    push_str(out, noun);
    if n != 1 {
        push_char(out, 's');
    }
    assert(out@ =~= old(out)@ + plural_text(n as nat, noun@));
}

/// `1 command` / `3 commands`.
fn plural(n: u64, noun: &str) -> (s: String)
    ensures
        s@ == plural_text(n as nat, noun@),
{
    let mut s = String::new();
    push_plural(&mut s, n, noun);
    s
}

/// `file:line` with the file reduced to its base name.
pub open spec fn location_text(l: LineStatV) -> Seq<char> {
    basename(l.file) + seq![':'] + dec(l.line as nat)
}

fn location(l: &LineStat) -> (s: String)
    ensures
        s@ == location_text(l@),
{
    let f = to_chars(l.file.as_str());
    let b = basename_start(&f);
    let mut s = String::new();
    crate::text::push_range(&mut s, &f, b, f.len());
    push_char(&mut s, ':');
    push_dec(&mut s, l.line as u64);
    s
}

/// A multi-line command shows as its first line and ` ...`.
pub open spec fn first_line_text(cmd: Seq<char>) -> Seq<char> {
    let (first, rest) = crate::trace::split2(cmd, '\n', '\n');
    match rest {
        Some(_) => first + " ..."@,
        None => cmd,
    }
}

fn push_first_line(out: &mut String, cmd: &str)
    ensures
        final(out)@ == old(out)@ + first_line_text(cmd@),
{
    let cs = to_chars(cmd);
    assert(cs@.subrange(0, cs@.len() as int) =~= cs@);
    let k = crate::trace::find2(&cs, 0, cs.len(), '\n', '\n');
    if k == cs.len() {
        push_str(out, cmd);
    } else {
        crate::text::push_range(out, &cs, 0, k);
        push_str(out, " ...");
    }
}

/// Does a trace source key refer to `wanted`? Exact match, or the same
/// base name.
pub open spec fn source_match(trace_source: Seq<char>, wanted: Seq<char>) -> bool {
    trace_source == wanted || basename(trace_source) == basename(wanted)
}

/// Does a trace source key refer to `wanted`? Exact match first; otherwise
/// compare basenames, because the trace may say `./job.sh` while the user
/// passes `job.sh` (or an absolute path).
pub fn source_matches(trace_source: &str, wanted: &str) -> (r: bool)
    ensures
        r == source_match(trace_source@, wanted@),
{
    let a = to_chars(trace_source);
    let b = to_chars(wanted);
    if chars_eq(&a, &b) {
        return true;
    }
    let ka = basename_start(&a);
    let kb = basename_start(&b);
    let ghost ba = a@.subrange(ka as int, a@.len() as int);
    let ghost bb = b@.subrange(kb as int, b@.len() as int);
    if a.len() - ka != b.len() - kb {
        assert(ba.len() != bb.len());
        return false;
    }
    let alen = a.len();
    let blen = b.len();
    let mut i: usize = 0;
    while i < a.len() - ka
        invariant
            ka <= a@.len(),
            kb <= b@.len(),
            a@.len() - ka == b@.len() - kb,
            i <= a@.len() - ka,
            ba == a@.subrange(ka as int, a@.len() as int),
            bb == b@.subrange(kb as int, b@.len() as int),
            ba.take(i as int) == bb.take(i as int),
            ba == basename(a@),
            bb == basename(b@),
            a@ != b@,
            a@ == trace_source@,
            b@ == wanted@,
            alen == a@.len(),
            blen == b@.len(),
        decreases a@.len() - ka - i,
    {
        if a[ka + i] != b[kb + i] {
            assert(ba[i as int] != bb[i as int]);
            return false;
        }
        assert(ba.take(i + 1) =~= ba.take(i as int).push(ba[i as int]));
        assert(bb.take(i + 1) =~= bb.take(i as int).push(bb[i as int]));
        i += 1;
    }
    assert(ba.take(ba.len() as int) =~= ba);
    assert(bb.take(bb.len() as int) =~= bb);
    true
}

// ---------------------------------------------------------------------
// The report
// ---------------------------------------------------------------------

/// The length `str::len` reports: the UTF-8 encoding's byte count.
pub open spec fn byte_len(s: Seq<char>) -> nat {
    (encode_utf8(s).len() as usize) as nat
}

/// The width of the location column: the longest location among the rows
/// in bytes of UTF-8, at least that of the `LINE` header.
pub open spec fn loc_width(rows: Seq<LineStatV>) -> nat
    decreases rows.len(),
{
    if rows.len() == 0 {
        4
    } else {
        let w = loc_width(rows.drop_last());
        let l = byte_len(location_text(rows.last()));
        if l > w {
            l
        } else {
            w
        }
    }
}

pub open spec fn row_text(l: LineStatV, total: u64, w: nat) -> Seq<char> {
    pad_left(duration_text(l.self_us as nat), 9) + "  "@ + pad_left(
        percent_text(l.self_us as nat, total as nat),
        6,
    ) + "  "@ + pad_left(dec(l.count as nat), 6) + "  "@ + pad_right(location_text(l), w) + "  "@
        + first_line_text(l.command) + "\n"@
}

/// The first `k` rows of the hot-line table.
pub open spec fn table_rows(rows: Seq<LineStatV>, total: u64, w: nat, k: int) -> Seq<char>
    decreases k,
{
    if k <= 0 {
        Seq::empty()
    } else {
        table_rows(rows, total, w, k - 1) + row_text(rows[k - 1], total, w)
    }
}

/// The call count column: `-` for the top-level pseudo-frame.
pub open spec fn calls_text(f: FuncStatV) -> Seq<char> {
    if f.name == root_frame() {
        seq!['-']
    } else {
        dec(f.calls as nat) + seq!['x']
    }
}

pub open spec fn func_row_text(f: FuncStatV, total: u64) -> Seq<char> {
    pad_left(duration_text(f.self_us as nat), 9) + "  "@ + pad_left(
        percent_text(f.self_us as nat, total as nat),
        6,
    ) + "  "@ + pad_left(calls_text(f), 7) + "  "@ + f.name + "\n"@
}

/// The first `k` rows of the functions section.
pub open spec fn func_rows(fs: Seq<FuncStatV>, total: u64, k: int) -> Seq<char>
    decreases k,
{
    if k <= 0 {
        Seq::empty()
    } else {
        func_rows(fs, total, k - 1) + func_row_text(fs[k - 1], total)
    }
}

pub open spec fn script_text(p: ProfileV) -> Seq<char> {
    match p.script {
        Some(s) => s,
        None => "<unknown script>"@,
    }
}

pub open spec fn exit_text(p: ProfileV) -> Seq<char> {
    match p.exit_code {
        Some(c) => idec(c as int),
        None => seq!['?'],
    }
}

/// `bashprof <version>: <script> (exit <code>)`.
pub open spec fn title_line(p: ProfileV) -> Seq<char> {
    "bashprof "@ + VERSION@ + ": "@ + script_text(p) + " (exit "@ + exit_text(p) + ")\n"@
}

/// `total <time> wall, <n> commands traced, <m> source files`.
pub open spec fn totals_line(p: ProfileV) -> Seq<char> {
    "total "@ + duration_text(p.total_us as nat) + " wall, "@ + plural_text(p.commands as nat, "command"@)
        + " traced, "@ + plural_text(p.files.len(), "source file"@) + "\n"@
}

/// The skipped-line note, when lines were skipped.
pub open spec fn note_line(p: ProfileV) -> Seq<char> {
    if p.skipped > 0 {
        "note: "@ + plural_text(p.skipped, "unparseable trace line"@) + " skipped\n"@
    } else {
        Seq::empty()
    }
}

/// The two header lines, the skipped-line note and the blank line.
pub open spec fn header_text(p: ProfileV) -> Seq<char> {
    title_line(p) + totals_line(p) + note_line(p) + "\n"@
}

/// The hot-line table with its column header.
pub open spec fn table_text(p: ProfileV, rows: Seq<LineStatV>) -> Seq<char> {
    let w = loc_width(rows);
    pad_left("SELF"@, 9) + "  "@ + pad_left("%"@, 6) + "  "@ + pad_left("COUNT"@, 6) + "  "@
        + pad_right("LINE"@, w) + "  "@ + "COMMAND"@ + "\n"@ + table_rows(
        rows,
        p.total_us,
        w,
        rows.len() as int,
    )
}

/// The notice of rows the filters hid.
pub open spec fn hidden_text(p: ProfileV, shown: nat, opts: Options) -> Seq<char> {
    let hidden: nat = if p.lines.len() > shown {
        (p.lines.len() - shown) as nat
    } else {
        0
    };
    if hidden > 0 {
        "... "@ + plural_text(hidden, "more line"@) + "; "@ + (if opts.min_us > 0 {
            "--top 0 --min-us 0 shows all"@
        } else {
            "--top 0 shows all"@
        }) + "\n"@
    } else {
        Seq::empty()
    }
}

/// The functions section, present when there is more than one function.
pub open spec fn functions_text(p: ProfileV) -> Seq<char> {
    if p.funcs.len() > 1 {
        "\n"@ + "FUNCTIONS (self-time)\n"@ + func_rows(p.funcs, p.total_us, p.funcs.len() as int)
    } else {
        Seq::empty()
    }
}

/// The standard report.
pub open spec fn report_text(p: ProfileV, opts: Options) -> Seq<char> {
    let rows = selected(p.lines, opts);
    header_text(p) + table_text(p, rows) + hidden_text(p, rows.len(), opts) + functions_text(p)
}

fn push_row(out: &mut String, l: &LineStat, total: u64, w: usize)
    ensures
        final(out)@ == old(out)@ + row_text(l@, total, w as nat),
{
    let d = fmt_duration(l.self_us);
    push_padded_left(out, d.as_str(), 9);
    push_str(out, "  ");
    let pc = fmt_percent(l.self_us, total);
    push_padded_left(out, pc.as_str(), 6);
    push_str(out, "  ");
    let mut c = String::new();
    push_dec(&mut c, l.count);
    push_padded_left(out, c.as_str(), 6);
    push_str(out, "  ");
    let loc = location(l);
    push_padded_right(out, loc.as_str(), w);
    push_str(out, "  ");
    push_first_line(out, l.command.as_str());
    push_str(out, "\n");
    assert(out@ =~= old(out)@ + row_text(l@, total, w as nat));
}

fn push_func_row(out: &mut String, f: &FuncStat, total: u64)
    ensures
        final(out)@ == old(out)@ + func_row_text(f@, total),
{
    let d = fmt_duration(f.self_us);
    push_padded_left(out, d.as_str(), 9);
    push_str(out, "  ");
    let pc = fmt_percent(f.self_us, total);
    push_padded_left(out, pc.as_str(), 6);
    push_str(out, "  ");
    let name = to_chars(f.name.as_str());
    let mut calls = String::new();
    proof {
        reveal_strlit("main");
    }
    if word(&name, ROOT_FRAME) {
        assert(ROOT_FRAME@ =~= root_frame());
        push_char(&mut calls, '-');
    } else {
        assert(ROOT_FRAME@ =~= root_frame());
        push_dec(&mut calls, f.calls);
        push_char(&mut calls, 'x');
    }
    push_padded_left(out, calls.as_str(), 7);
    push_str(out, "  ");
    push_str(out, f.name.as_str());
    push_str(out, "\n");
    assert(out@ =~= old(out)@ + func_row_text(f@, total));
}

fn push_title(out: &mut String, profile: &Profile)
    ensures
        final(out)@ == old(out)@ + title_line(profile@),
{
    push_str(out, "bashprof ");
    push_str(out, VERSION);
    push_str(out, ": ");
    match &profile.script {
        Some(s) => push_str(out, s.as_str()),
        None => push_str(out, "<unknown script>"),
    }
    push_str(out, " (exit ");
    match profile.exit_code {
        Some(c) => push_idec(out, c as i64),
        None => push_char(out, '?'),
    }
    push_str(out, ")\n");
    assert(out@ =~= old(out)@ + title_line(profile@));
}

fn push_totals(out: &mut String, profile: &Profile)
    ensures
        final(out)@ == old(out)@ + totals_line(profile@),
{
    push_str(out, "total ");
    push_duration(out, profile.total_us);
    push_str(out, " wall, ");
    push_plural(out, profile.commands, "command");
    push_str(out, " traced, ");
    push_plural(out, profile.files.len() as u64, "source file");
    push_str(out, "\n");
    assert(out@ =~= old(out)@ + totals_line(profile@));
}

fn push_header(out: &mut String, profile: &Profile)
    ensures
        final(out)@ == old(out)@ + header_text(profile@),
{
    push_title(out, profile);
    push_totals(out, profile);
    let ghost mid = out@;
    if profile.skipped > 0 {
        push_str(out, "note: ");
        push_plural(out, profile.skipped as u64, "unparseable trace line");
        push_str(out, " skipped\n");
    }
    assert(out@ =~= mid + note_line(profile@));
    push_str(out, "\n");
    assert(out@ =~= old(out)@ + header_text(profile@));
}

#[verifier::spinoff_prover]
#[verifier::rlimit(40)]
fn push_table(out: &mut String, profile: &Profile, rows: &Vec<&LineStat>)
    ensures
        final(out)@ == old(out)@ + table_text(profile@, rows_of(rows@)),
{
    let ghost p = profile@;
    let ghost rv = rows_of(rows@);
    let mut w: usize = 4;
    let mut i: usize = 0;
    while i < rows.len()
        invariant
            i <= rows@.len(),
            rv == rows_of(rows@),
            w as nat == loc_width(rv.take(i as int)),
        decreases rows@.len() - i,
    {
        let loc = location(rows[i]);
        let l = loc.as_str().len();
        assert(l == byte_len(loc@));
        assert(rv.take(i + 1).drop_last() =~= rv.take(i as int));
        assert(rv.take(i + 1).last() == rows@[i as int]@);
        if l > w {
            w = l;
        }
        i += 1;
    }
    assert(rv.take(rv.len() as int) =~= rv);
    push_padded_left(out, "SELF", 9);
    push_str(out, "  ");
    push_padded_left(out, "%", 6);
    push_str(out, "  ");
    push_padded_left(out, "COUNT", 6);
    push_str(out, "  ");
    push_padded_right(out, "LINE", w);
    push_str(out, "  ");
    push_str(out, "COMMAND");
    push_str(out, "\n");
    let ghost head = out@;
    let mut j: usize = 0;
    while j < rows.len()
        invariant
            j <= rows@.len(),
            rv == rows_of(rows@),
            out@ == head + table_rows(rv, p.total_us, w as nat, j as int),
            p == profile@,
        decreases rows@.len() - j,
    {
        assert(rv[j as int] == rows@[j as int]@);
        push_row(out, rows[j], profile.total_us, w);
        j += 1;
    }
    assert(out@ =~= old(out)@ + table_text(p, rv));
}

fn push_tail(out: &mut String, profile: &Profile, shown: usize, opts: &Options)
    ensures
        final(out)@ == old(out)@ + hidden_text(profile@, shown as nat, *opts) + functions_text(profile@),
{
    let ghost p = profile@;
    let hidden = if profile.lines.len() > shown {
        profile.lines.len() - shown
    } else {
        0
    };
    if hidden > 0 {
        push_str(out, "... ");
        push_plural(out, hidden as u64, "more line");
        push_str(out, "; ");
        if opts.min_us > 0 {
            push_str(out, "--top 0 --min-us 0 shows all");
        } else {
            push_str(out, "--top 0 shows all");
        }
        push_str(out, "\n");
    }
    let ghost mid = out@;
    assert(mid =~= old(out)@ + hidden_text(p, shown as nat, *opts));
    if profile.funcs.len() > 1 {
        push_str(out, "\n");
        push_str(out, "FUNCTIONS (self-time)\n");
        let ghost head = out@;
        let mut k: usize = 0;
        while k < profile.funcs.len()
            invariant
                k <= profile.funcs@.len(),
                p == profile@,
                out@ == head + func_rows(p.funcs, p.total_us, k as int),
            decreases profile.funcs@.len() - k,
        {
            assert(p.funcs[k as int] == profile.funcs@[k as int]@);
            push_func_row(out, &profile.funcs[k], profile.total_us);
            k += 1;
        }
    }
    assert(out@ =~= mid + functions_text(p));
}

/// Render the standard report.
pub fn render(profile: &Profile, opts: &Options) -> (out: String)
    ensures
        out@ == report_text(profile@, *opts),
{
    let mut out = String::new();
    push_header(&mut out, profile);
    let rows = select_lines(profile, opts);
    push_table(&mut out, profile, &rows);
    push_tail(&mut out, profile, rows.len(), opts);
    assert(out@ =~= report_text(profile@, *opts));
    out
}

// ---------------------------------------------------------------------
// Annotated source
// ---------------------------------------------------------------------

/// The first row of `ls` for line `lineno` of the file `name` refers to.
pub open spec fn first_match(ls: Seq<LineStatV>, lineno: u32, name: Seq<char>) -> Option<LineStatV>
    decreases ls.len(),
{
    if ls.len() == 0 {
        None
    } else if ls[0].line == lineno && source_match(ls[0].file, name) {
        Some(ls[0])
    } else {
        first_match(ls.drop_first(), lineno, name)
    }
}

/// The gutter and text of source line `idx` (0-based).
pub open spec fn annotate_row(ls: Seq<LineStatV>, name: Seq<char>, idx: nat, text: Seq<char>) -> Seq<char> {
    match first_match(ls, (idx + 1) as u32, name) {
        Some(l) => pad_left(duration_text(l.self_us as nat), 9) + " "@ + pad_left(dec(l.count as nat), 6)
            + "  "@ + text + "\n"@,
        None => pad_left("-"@, 9) + " "@ + pad_left("-"@, 6) + "  "@ + text + "\n"@,
    }
}

pub open spec fn annotate_rows(ls: Seq<LineStatV>, name: Seq<char>, src: Seq<Seq<char>>) -> Seq<char>
    decreases src.len(),
{
    if src.len() == 0 {
        Seq::empty()
    } else {
        annotate_rows(ls, name, src.drop_last()) + annotate_row(
            ls,
            name,
            (src.len() - 1) as nat,
            src.last(),
        )
    }
}

/// A source file with per-line timing in the left gutter.
pub open spec fn annotate_text(ls: Seq<LineStatV>, name: Seq<char>, content: Seq<char>) -> Seq<char> {
    pad_left("SELF"@, 9) + " "@ + pad_left("COUNT"@, 6) + "  "@ + name + "\n"@ + annotate_rows(
        ls,
        name,
        crate::text::lines(content),
    )
}

/// Appends the row for source line `idx`, whose text is `cs[lo..hi]`.
fn push_annotate_row(
    out: &mut String,
    profile: &Profile,
    source_name: &str,
    idx: usize,
    cs: &Vec<char>,
    lo: usize,
    hi: usize,
)
    requires
        lo <= hi <= cs@.len(),
        idx < usize::MAX,
    ensures
        final(out)@ == old(out)@ + annotate_row(
            profile@.lines,
            source_name@,
            idx as nat,
            cs@.subrange(lo as int, hi as int),
        ),
{
    let ghost ls = profile@.lines;
    let lineno = (idx + 1) as u32;
    let mut k: usize = 0;
    let n = profile.lines.len();
    assert(ls.skip(0) =~= ls);
    while k < n && !(profile.lines[k].line == lineno && source_matches(profile.lines[k].file.as_str(), source_name))
        invariant
            k <= n == profile.lines@.len(),
            ls == profile@.lines,
            first_match(ls, lineno, source_name@) == first_match(ls.skip(k as int), lineno, source_name@),
        decreases n - k,
    {
        assert(ls.skip(k as int)[0] == profile.lines@[k as int]@);
        assert(ls.skip(k as int).drop_first() =~= ls.skip(k + 1));
        k += 1;
    }
    if k < n {
        assert(ls.skip(k as int)[0] == profile.lines@[k as int]@);
        let l = &profile.lines[k];
        let d = fmt_duration(l.self_us);
        push_padded_left(out, d.as_str(), 9);
        push_str(out, " ");
        let mut c = String::new();
        push_dec(&mut c, l.count);
        push_padded_left(out, c.as_str(), 6);
    } else {
        assert(ls.skip(k as int) =~= Seq::<LineStatV>::empty());
        push_padded_left(out, "-", 9);
        push_str(out, " ");
        push_padded_left(out, "-", 6);
    }
    push_str(out, "  ");
    crate::text::push_range(out, cs, lo, hi);
    push_str(out, "\n");
    assert(out@ =~= old(out)@ + annotate_row(ls, source_name@, idx as nat, cs@.subrange(lo as int, hi as int)));
}

/// Render a source file with per-line timing in the left gutter.
///
/// `source_name` is the key the trace recorded (what `BASH_SOURCE` said);
/// `content` is the file's text. Lines that never executed show a bare
/// gutter, which alone is a useful coverage view.
pub fn render_annotate(profile: &Profile, source_name: &str, content: &str) -> (out: String)
    ensures
        out@ == annotate_text(profile@.lines, source_name@, content@),
{
    let ghost ls = profile@.lines;
    let mut out = String::new();
    push_padded_left(&mut out, "SELF", 9);
    push_str(&mut out, " ");
    push_padded_left(&mut out, "COUNT", 6);
    push_str(&mut out, "  ");
    push_str(&mut out, source_name);
    push_str(&mut out, "\n");
    let ghost head = out@;
    let cs = to_chars(content);
    let mut cur: usize = 0;
    let mut idx: usize = 0;
    let mut i: usize = 0;
    assert(cs@.take(0) =~= Seq::<char>::empty());
    while i < cs.len()
        invariant
            cur <= i <= cs@.len(),
            idx <= cur,
            ls == profile@.lines,
            crate::text::lines_acc(cs@.take(i as int)).1 == cs@.subrange(cur as int, i as int),
            crate::text::lines_acc(cs@.take(i as int)).0.len() == idx,
            out@ == head + annotate_rows(ls, source_name@, crate::text::lines_acc(cs@.take(i as int)).0),
        decreases cs@.len() - i,
    {
        let ghost pre = cs@.take(i as int);
        assert(cs@.take(i + 1).drop_last() =~= pre);
        assert(cs@.take(i + 1).last() == cs@[i as int]);
        if cs[i] == '\n' {
            let hi = if i > cur && cs[i - 1] == '\r' {
                i - 1
            } else {
                i
            };
            assert(crate::text::strip_cr(cs@.subrange(cur as int, i as int)) =~= cs@.subrange(cur as int, hi as int));
            let ghost done = crate::text::lines_acc(pre).0;
            push_annotate_row(&mut out, profile, source_name, idx, &cs, cur, hi);
            assert(done.push(cs@.subrange(cur as int, hi as int)).drop_last() =~= done);
            cur = i + 1;
            idx += 1;
            assert(cs@.subrange(cur as int, i + 1) =~= Seq::<char>::empty());
        } else {
            assert(cs@.subrange(cur as int, i + 1) =~= cs@.subrange(cur as int, i as int).push(cs@[i as int]));
        }
        i += 1;
    }
    assert(cs@.take(cs@.len() as int) =~= cs@);
    if cur < cs.len() {
        let ghost done = crate::text::lines_acc(cs@).0;
        push_annotate_row(&mut out, profile, source_name, idx, &cs, cur, cs.len());
        assert(done.push(cs@.subrange(cur as int, cs@.len() as int)).drop_last() =~= done);
    }
    out
}

// ---------------------------------------------------------------------
// What the hot-line table promises
// ---------------------------------------------------------------------

/// No row comes after a row it should precede.
pub open spec fn sorted_rows(r: Seq<LineStatV>, sk: SortKey) -> bool {
    forall|i: int, j: int| 0 <= i < j < r.len() ==> !row_before(#[trigger] r[j], #[trigger] r[i], sk)
}

/// The rows `--min-us` lets through, in table order.
pub open spec fn kept_rows(ls: Seq<LineStatV>, min_us: u64) -> Seq<LineStatV> {
    ls.filter(|l: LineStatV| l.self_us >= min_us)
}

proof fn lemma_row_before_order(a: LineStatV, b: LineStatV, c: LineStatV, sk: SortKey)
    ensures
        !row_before(a, a, sk),
        row_before(a, b, sk) && row_before(b, c, sk) ==> row_before(a, c, sk),
{
    lemma_key_lt_irrefl(a.file, a.line);
    if key_lt(a.file, a.line, b.file, b.line) && key_lt(b.file, b.line, c.file, c.line) {
        lemma_key_lt_trans(a.file, a.line, b.file, b.line, c.file, c.line);
    }
}

proof fn lemma_keep_rows_filter(s: Seq<LineStatV>, min_us: u64)
    ensures
        keep_rows(s, min_us) == kept_rows(s, min_us),
    decreases s.len(),
{
    reveal(Seq::filter);
    if s.len() > 0 {
        lemma_keep_rows_filter(s.drop_last(), min_us);
    }
}

proof fn lemma_insert_row(s: Seq<LineStatV>, x: LineStatV, sk: SortKey)
    requires
        sorted_rows(s, sk),
    ensures
        sorted_rows(insert_row(s, x, sk), sk),
        insert_row(s, x, sk).to_multiset() =~= s.to_multiset().insert(x),
    decreases s.len(),
{
    broadcast use vstd::multiset::group_multiset_axioms;
    broadcast use vstd::seq_lib::group_to_multiset_ensures;

    let r = insert_row(s, x, sk);
    if s.len() == 0 {
        assert(r =~= s.insert(0, x));
    } else if row_before(x, s[0], sk) {
        assert(r =~= seq![x] + s);
        assert forall|i: int, j: int| 0 <= i < j < r.len() implies !row_before(#[trigger] r[j], #[trigger] r[i], sk) by {
            if i == 0 {
                lemma_row_before_order(s[j - 1], x, s[0], sk);
                if j - 1 > 0 {
                    assert(!row_before(s[j - 1], s[0], sk));
                }
            } else {
                assert(r[i] == s[i - 1] && r[j] == s[j - 1]);
            }
        }
        assert(r =~= s.insert(0, x));
    } else {
        let t = s.drop_first();
        assert(sorted_rows(t, sk)) by {
            assert forall|i: int, j: int| 0 <= i < j < t.len() implies !row_before(#[trigger] t[j], #[trigger] t[i], sk) by {
                assert(t[i] == s[i + 1] && t[j] == s[j + 1]);
            }
        }
        lemma_insert_row(t, x, sk);
        let u = insert_row(t, x, sk);
        assert(r =~= seq![s[0]] + u);
        assert forall|k: int| 0 <= k < u.len() implies !row_before(#[trigger] u[k], s[0], sk) by {
            assert(u.to_multiset().count(u[k]) > 0);
            if u[k] != x {
                assert(t.to_multiset().count(u[k]) > 0);
                assert(t.contains(u[k]));
                let m = choose|m: int| 0 <= m < t.len() && t[m] == u[k];
                assert(s[m + 1] == t[m]);
            }
        }
        assert forall|i: int, j: int| 0 <= i < j < r.len() implies !row_before(#[trigger] r[j], #[trigger] r[i], sk) by {
            if i == 0 {
                assert(r[j] == u[j - 1]);
            } else {
                assert(r[i] == u[i - 1] && r[j] == u[j - 1]);
            }
        }
        assert(r =~= u.insert(0, s[0]));
        assert(s =~= t.insert(0, s[0]));
        assert(r.to_multiset() =~= u.to_multiset().insert(s[0]));
        assert(s.to_multiset() =~= t.to_multiset().insert(s[0]));
    }
}

proof fn lemma_sort_rows(s: Seq<LineStatV>, sk: SortKey)
    ensures
        sorted_rows(sort_rows(s, sk), sk),
        sort_rows(s, sk).to_multiset() =~= s.to_multiset(),
    decreases s.len(),
{
    broadcast use vstd::seq_lib::group_to_multiset_ensures;

    if s.len() > 0 {
        lemma_sort_rows(s.drop_last(), sk);
        lemma_insert_row(sort_rows(s.drop_last(), sk), s.last(), sk);
        assert(s.drop_last().push(s.last()) =~= s);
    }
}

/// The hot-line table keeps its promises: only lines with at least
/// `--min-us` of self-time appear, in `--sort` order; `--top N` cuts the
/// table to the first `N` of them and keeps every line that ranks before
/// one it shows; with nothing cut, every line that passes the filter
/// appears exactly as often as in the profile.
pub proof fn law_hot_lines(ls: Seq<LineStatV>, opts: Options)
    ensures
        ({
            let kept = kept_rows(ls, opts.min_us);
            let r = selected(ls, opts);
            let cut = opts.top > 0 && kept.len() > opts.top;
            &&& forall|i: int| 0 <= i < r.len() ==> (#[trigger] r[i]).self_us >= opts.min_us && kept.contains(r[i])
            &&& sorted_rows(r, opts.sort)
            &&& r.len() == (if cut {
                opts.top as nat
            } else {
                kept.len()
            })
            &&& !cut ==> r.to_multiset() == kept.to_multiset()
            &&& forall|y: LineStatV, i: int|
                kept.contains(y) && 0 <= i < r.len() && #[trigger] row_before(y, r[i], opts.sort) ==> r.contains(y)
        }),
{
    broadcast use vstd::seq_lib::group_to_multiset_ensures;

    let kept = kept_rows(ls, opts.min_us);
    lemma_keep_rows_filter(ls, opts.min_us);
    let sorted = sort_rows(kept, opts.sort);
    lemma_sort_rows(kept, opts.sort);
    let r = selected(ls, opts);
    let cut = opts.top > 0 && kept.len() > opts.top;
    assert(sorted.len() == kept.len()) by {
        assert(sorted.to_multiset().len() == kept.to_multiset().len());
    }
    assert forall|i: int| 0 <= i < r.len() implies (#[trigger] r[i]).self_us >= opts.min_us && kept.contains(r[i]) by {
        assert(r[i] == sorted[i]);
        assert(sorted.to_multiset().count(sorted[i]) > 0);
        assert(kept.contains(r[i]));
        let m = choose|m: int| 0 <= m < kept.len() && kept[m] == r[i];
        ls.lemma_filter_pred(|l: LineStatV| l.self_us >= opts.min_us, m);
    }
    assert forall|y: LineStatV, i: int|
        kept.contains(y) && 0 <= i < r.len() && #[trigger] row_before(y, r[i], opts.sort) implies r.contains(y) by {
        assert(kept.to_multiset().count(y) > 0);
        assert(sorted.contains(y));
        let m = choose|m: int| 0 <= m < sorted.len() && sorted[m] == y;
        assert(r[i] == sorted[i]);
        if m < r.len() {
            assert(r[m] == y);
        } else {
            assert(!row_before(sorted[m], sorted[i], opts.sort));
        }
    }
}

// ---------------------------------------------------------------------
// The functions section and the annotated listing
// ---------------------------------------------------------------------

/// The row of the functions section for `f`: its self-time, its share of
/// `total`, its call count (`-` for the top-level pseudo-frame), its name.
pub open spec fn function_line(f: FuncStatV, total: u64) -> Seq<char> {
    pad_left(duration_text(f.self_us as nat), 9) + "  "@ + pad_left(percent_text(f.self_us as nat, total as nat), 6)
        + "  "@ + pad_left(
        if f.name == root_frame() {
            seq!['-']
        } else {
            dec(f.calls as nat) + seq!['x']
        },
        7,
    ) + "  "@ + f.name + "\n"@
}

proof fn lemma_func_rows(fs: Seq<FuncStatV>, total: u64, k: int)
    requires
        0 <= k <= fs.len(),
    ensures
        func_rows(fs, total, k) == concat(Seq::new(k as nat, |i: int| function_line(fs[i], total))),
    decreases k,
{
    let parts = Seq::new(k as nat, |i: int| function_line(fs[i], total));
    if k > 0 {
        lemma_func_rows(fs, total, k - 1);
        assert(parts.drop_last() =~= Seq::new((k - 1) as nat, |i: int| function_line(fs[i], total)));
        assert(func_row_text(fs[k - 1], total) == function_line(fs[k - 1], total));
    } else {
        assert(parts =~= Seq::<Seq<char>>::empty());
    }
}

/// The report ends with the functions section whenever the profile has
/// more than one function: one row per function in table order, each with
/// its self-time, share, call count followed by `x` (`-` for `main`) and
/// name; with a single function the report has no such section.
pub proof fn law_functions_section(p: ProfileV, opts: Options)
    ensures
        p.funcs.len() > 1 ==> exists|head: Seq<char>|
            report_text(p, opts) == head + "\n"@ + "FUNCTIONS (self-time)\n"@ + concat(
                Seq::new(p.funcs.len(), |i: int| function_line(p.funcs[i], p.total_us)),
            ),
        p.funcs.len() <= 1 ==> functions_text(p) == Seq::<char>::empty(),
{
    if p.funcs.len() > 1 {
        lemma_func_rows(p.funcs, p.total_us, p.funcs.len() as int);
        let rows = selected(p.lines, opts);
        let head = header_text(p) + table_text(p, rows) + hidden_text(p, rows.len(), opts);
        assert(report_text(p, opts) =~= head + "\n"@ + "FUNCTIONS (self-time)\n"@ + concat(
            Seq::new(p.funcs.len(), |i: int| function_line(p.funcs[i], p.total_us)),
        ));
    }
}

/// Line row `l` holds line `lineno` of the source called `name`.
pub open spec fn row_for(l: LineStatV, lineno: u32, name: Seq<char>) -> bool {
    l.line == lineno && source_match(l.file, name)
}

/// An annotated source line showing the statistics of `l`.
pub open spec fn timed_line(l: LineStatV, text: Seq<char>) -> Seq<char> {
    pad_left(duration_text(l.self_us as nat), 9) + " "@ + pad_left(dec(l.count as nat), 6) + "  "@ + text + "\n"@
}

/// An annotated source line that never ran: a bare gutter.
pub open spec fn untimed_line(text: Seq<char>) -> Seq<char> {
    pad_left("-"@, 9) + " "@ + pad_left("-"@, 6) + "  "@ + text + "\n"@
}

proof fn lemma_first_match(ls: Seq<LineStatV>, lineno: u32, name: Seq<char>)
    ensures
        (forall|j: int| 0 <= j < ls.len() ==> !row_for(#[trigger] ls[j], lineno, name)) ==> first_match(
            ls,
            lineno,
            name,
        ) is None,
        forall|j: int|
            0 <= j < ls.len() && row_for(#[trigger] ls[j], lineno, name) && (forall|j2: int|
                0 <= j2 < j ==> !row_for(#[trigger] ls[j2], lineno, name)) ==> first_match(ls, lineno, name)
                == Some(ls[j]),
    decreases ls.len(),
{
    if ls.len() > 0 {
        let t = ls.drop_first();
        lemma_first_match(t, lineno, name);
        if forall|j: int| 0 <= j < ls.len() ==> !row_for(#[trigger] ls[j], lineno, name) {
            assert(!row_for(ls[0], lineno, name));
            assert forall|j: int| 0 <= j < t.len() implies !row_for(#[trigger] t[j], lineno, name) by {
                assert(t[j] == ls[j + 1]);
            }
        }
        assert forall|j: int|
            0 <= j < ls.len() && row_for(#[trigger] ls[j], lineno, name) && (forall|j2: int|
                0 <= j2 < j ==> !row_for(#[trigger] ls[j2], lineno, name)) implies first_match(ls, lineno, name)
            == Some(ls[j]) by {
            if j > 0 {
                assert(!row_for(ls[0], lineno, name));
                assert(t[j - 1] == ls[j]);
                assert forall|j2: int| 0 <= j2 < j - 1 implies !row_for(#[trigger] t[j2], lineno, name) by {
                    assert(t[j2] == ls[j2 + 1]);
                }
            }
        }
    }
}

proof fn lemma_annotate_rows(ls: Seq<LineStatV>, name: Seq<char>, src: Seq<Seq<char>>)
    ensures
        annotate_rows(ls, name, src) == concat(
            Seq::new(src.len(), |i: int| annotate_row(ls, name, i as nat, src[i])),
        ),
    decreases src.len(),
{
    let parts = Seq::new(src.len(), |i: int| annotate_row(ls, name, i as nat, src[i]));
    if src.len() > 0 {
        let init = src.drop_last();
        lemma_annotate_rows(ls, name, init);
        assert(parts.drop_last() =~= Seq::new(init.len(), |i: int| annotate_row(ls, name, i as nat, init[i])));
    } else {
        assert(parts =~= Seq::<Seq<char>>::empty());
    }
}

/// The annotated listing: a header, then one line per source line, in
/// order. A source line shows the statistics of the first line row that
/// holds it for the annotated source (same line number, a file that refers
/// to that source); when no row does, it shows a bare gutter.
pub proof fn law_annotate_listing(ls: Seq<LineStatV>, name: Seq<char>, content: Seq<char>)
    ensures
        exists|rows: Seq<Seq<char>>|
            {
                &&& rows.len() == lines(content).len()
                &&& annotate_text(ls, name, content) == pad_left("SELF"@, 9) + " "@ + pad_left("COUNT"@, 6)
                    + "  "@ + name + "\n"@ + concat(rows)
                &&& forall|i: int|
                    0 <= i < rows.len() && (forall|j: int|
                        0 <= j < ls.len() ==> !row_for(#[trigger] ls[j], (i + 1) as u32, name)) ==> #[trigger] rows[i]
                        == untimed_line(lines(content)[i])
                &&& forall|i: int, j: int|
                    #![trigger rows[i], ls[j]]
                    0 <= i < rows.len() && 0 <= j < ls.len() && row_for(ls[j], (i + 1) as u32, name) && (forall|
                        j2: int,
                    | 0 <= j2 < j ==> !row_for(#[trigger] ls[j2], (i + 1) as u32, name)) ==> rows[i] == timed_line(
                        ls[j],
                        lines(content)[i],
                    )
            },
{
    let src = lines(content);
    let rows = Seq::new(src.len(), |i: int| annotate_row(ls, name, i as nat, src[i]));
    lemma_annotate_rows(ls, name, src);
    assert forall|i: int|
        0 <= i < rows.len() && (forall|j: int| 0 <= j < ls.len() ==> !row_for(#[trigger] ls[j], (i + 1) as u32, name))
            implies #[trigger] rows[i] == untimed_line(src[i]) by {
        lemma_first_match(ls, (i + 1) as u32, name);
        assert(((i as nat) + 1) as u32 == (i + 1) as u32);
    }
    assert forall|i: int, j: int|
        #![trigger rows[i], ls[j]]
        0 <= i < rows.len() && 0 <= j < ls.len() && row_for(ls[j], (i + 1) as u32, name) && (forall|j2: int|
            0 <= j2 < j ==> !row_for(#[trigger] ls[j2], (i + 1) as u32, name)) implies rows[i] == timed_line(
        ls[j],
        src[i],
    ) by {
        lemma_first_match(ls, (i + 1) as u32, name);
        assert(((i as nat) + 1) as u32 == (i + 1) as u32);
    }
}

// ---------------------------------------------------------------------
// The layout of the report
// ---------------------------------------------------------------------

/// `n` and a noun, with an `s` unless `n` is one.
pub open spec fn counted(n: nat, noun: Seq<char>) -> Seq<char> {
    dec(n) + seq![' '] + noun + (if n == 1 {
        Seq::empty()
    } else {
        seq!['s']
    })
}

/// A command as the table shows it: up to its first newline followed by
/// ` ...` when it spans lines, whole otherwise.
pub open spec fn shown_command(cmd: Seq<char>) -> Seq<char> {
    if exists|k: int| 0 <= k < cmd.len() && cmd[k] == '\n' {
        let k = choose|k: int| 0 <= k < cmd.len() && cmd[k] == '\n' && forall|j: int| 0 <= j < k ==> cmd[j] != '\n';
        cmd.take(k) + " ..."@
    } else {
        cmd
    }
}

/// Where a line row points: its file's base name, `:` and its line.
pub open spec fn place(l: LineStatV) -> Seq<char> {
    basename(l.file) + seq![':'] + dec(l.line as nat)
}

/// A row of the hot-line table.
pub open spec fn hot_line(l: LineStatV, total: u64, w: nat) -> Seq<char> {
    pad_left(duration_text(l.self_us as nat), 9) + "  "@ + pad_left(percent_text(l.self_us as nat, total as nat), 6)
        + "  "@ + pad_left(dec(l.count as nat), 6) + "  "@ + pad_right(place(l), w) + "  "@ + shown_command(l.command)
        + "\n"@
}

proof fn lemma_first_newline_exists(s: Seq<char>)
    requires
        exists|k: int| 0 <= k < s.len() && s[k] == '\n',
    ensures
        exists|k: int| 0 <= k < s.len() && s[k] == '\n' && forall|j: int| 0 <= j < k ==> s[j] != '\n',
    decreases s.len(),
{
    if s[0] == '\n' {
        assert(forall|j: int| 0 <= j < 0 ==> s[j] != '\n');
    } else {
        let t = s.drop_first();
        let k = choose|k: int| 0 <= k < s.len() && s[k] == '\n';
        assert(t[k - 1] == '\n');
        lemma_first_newline_exists(t);
        let k1 = choose|k: int| 0 <= k < t.len() && t[k] == '\n' && forall|j: int| 0 <= j < k ==> t[j] != '\n';
        assert(s[k1 + 1] == '\n');
        assert forall|j: int| 0 <= j < k1 + 1 implies s[j] != '\n' by {
            if j > 0 {
                assert(s[j] == t[j - 1]);
            }
        }
    }
}

proof fn lemma_shown_command(cmd: Seq<char>)
    ensures
        first_line_text(cmd) == shown_command(cmd),
{
    if exists|k: int| 0 <= k < cmd.len() && cmd[k] == '\n' {
        lemma_first_newline_exists(cmd);
        let k = choose|k: int| 0 <= k < cmd.len() && cmd[k] == '\n' && forall|j: int| 0 <= j < k ==> cmd[j] != '\n';
        assert(cmd =~= cmd.take(k) + seq!['\n'] + cmd.skip(k + 1));
        crate::trace::lemma_split2_at(cmd.take(k), '\n', cmd.skip(k + 1), '\n', '\n');
    } else {
        crate::trace::lemma_split2_none(cmd, '\n', '\n');
    }
}

proof fn lemma_table_rows(rows: Seq<LineStatV>, total: u64, w: nat, k: int)
    requires
        0 <= k <= rows.len(),
    ensures
        table_rows(rows, total, w, k) == concat(Seq::new(k as nat, |i: int| hot_line(rows[i], total, w))),
    decreases k,
{
    let parts = Seq::new(k as nat, |i: int| hot_line(rows[i], total, w));
    if k > 0 {
        lemma_table_rows(rows, total, w, k - 1);
        assert(parts.drop_last() =~= Seq::new((k - 1) as nat, |i: int| hot_line(rows[i], total, w)));
        lemma_shown_command(rows[k - 1].command);
        assert(row_text(rows[k - 1], total, w) == hot_line(rows[k - 1], total, w));
    } else {
        assert(parts =~= Seq::<Seq<char>>::empty());
    }
}

proof fn lemma_loc_width(rows: Seq<LineStatV>)
    ensures
        loc_width(rows) >= 4,
        forall|i: int| 0 <= i < rows.len() ==> loc_width(rows) >= byte_len(place(#[trigger] rows[i])),
        loc_width(rows) == 4 || exists|i: int| 0 <= i < rows.len() && loc_width(rows) == byte_len(place(#[trigger] rows[i])),
    decreases rows.len(),
{
    if rows.len() > 0 {
        let init = rows.drop_last();
        lemma_loc_width(init);
        assert forall|i: int| 0 <= i < rows.len() implies loc_width(rows) >= byte_len(place(#[trigger] rows[i])) by {
            if i < init.len() {
                assert(init[i] == rows[i]);
            }
        }
        if loc_width(rows) != 4 {
            if loc_width(rows) == loc_width(init) {
                let i = choose|i: int| 0 <= i < init.len() && loc_width(init) == byte_len(place(#[trigger] init[i]));
                assert(init[i] == rows[i]);
            } else {
                assert(loc_width(rows) == byte_len(place(rows[rows.len() - 1])));
            }
        }
    }
}

/// The title line: the script (`<unknown script>` when unknown) and its
/// exit code (`?` when unknown).
pub open spec fn report_title(p: ProfileV) -> Seq<char> {
    "bashprof "@ + VERSION@ + ": "@ + (match p.script {
        Some(s) => s,
        None => "<unknown script>"@,
    }) + " (exit "@ + (match p.exit_code {
        Some(c) => idec(c as int),
        None => seq!['?'],
    }) + ")\n"@
}

/// The totals line: wall time, commands traced, source files.
pub open spec fn report_totals(p: ProfileV) -> Seq<char> {
    "total "@ + duration_text(p.total_us as nat) + " wall, "@ + counted(p.commands as nat, "command"@) + " traced, "@
        + counted(p.files.len(), "source file"@) + "\n"@
}

/// The note of skipped trace lines, only when there are some.
pub open spec fn report_note(p: ProfileV) -> Seq<char> {
    if p.skipped > 0 {
        "note: "@ + counted(p.skipped, "unparseable trace line"@) + " skipped\n"@
    } else {
        Seq::empty()
    }
}

/// The header of the hot-line table, its location column `w` wide.
pub open spec fn column_header(w: nat) -> Seq<char> {
    pad_left("SELF"@, 9) + "  "@ + pad_left("%"@, 6) + "  "@ + pad_left("COUNT"@, 6) + "  "@ + pad_right("LINE"@, w)
        + "  "@ + "COMMAND"@ + "\n"@
}

/// The notice of the line rows not shown, naming the filters to undo.
pub open spec fn hidden_notice(p: ProfileV, shown: nat, opts: Options) -> Seq<char> {
    if p.lines.len() > shown {
        "... "@ + counted((p.lines.len() - shown) as nat, "more line"@) + "; "@ + (if opts.min_us > 0 {
            "--top 0 --min-us 0 shows all"@
        } else {
            "--top 0 shows all"@
        }) + "\n"@
    } else {
        Seq::empty()
    }
}

/// The report, part by part: the title, the totals, the note of skipped
/// lines, a blank line, the hot-line table (its location column as wide
/// as the widest `file:line` shown, at least as wide as its header), one
/// row per selected line in order, the notice of hidden rows, and the
/// functions section.
pub proof fn law_report_layout(p: ProfileV, opts: Options)
    ensures
        ({
            let rows = selected(p.lines, opts);
            exists|w: nat|
                {
                    &&& w >= 4
                    &&& forall|i: int| 0 <= i < rows.len() ==> w >= byte_len(place(#[trigger] rows[i]))
                    &&& (w == 4 || exists|i: int| 0 <= i < rows.len() && w == byte_len(place(#[trigger] rows[i])))
                    &&& report_text(p, opts) == report_title(p) + report_totals(p) + report_note(p) + "\n"@
                        + column_header(w) + concat(Seq::new(rows.len(), |i: int| hot_line(rows[i], p.total_us, w)))
                        + hidden_notice(p, rows.len(), opts) + functions_text(p)
                }
        }),
{
    let rows = selected(p.lines, opts);
    let w = loc_width(rows);
    lemma_loc_width(rows);
    lemma_table_rows(rows, p.total_us, w, rows.len() as int);
    let body = concat(Seq::new(rows.len(), |i: int| hot_line(rows[i], p.total_us, w)));
    assert(title_line(p) == report_title(p));
    assert(totals_line(p) == report_totals(p));
    assert(note_line(p) == report_note(p));
    assert(table_text(p, rows) == column_header(w) + body);
    assert(hidden_text(p, rows.len(), opts) == hidden_notice(p, rows.len(), opts));
    let a = report_title(p);
    let b = report_totals(p);
    let c = report_note(p);
    let d = column_header(w);
    let h = hidden_notice(p, rows.len(), opts);
    let f = functions_text(p);
    assert(report_text(p, opts) == (a + b + c + "\n"@) + (d + body) + h + f);
    assert((a + b + c + "\n"@) + (d + body) + h + f =~= a + b + c + "\n"@ + d + body + h + f);
}

} // verus!
