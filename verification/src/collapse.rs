//! Collapsed-stack output, the interchange format flamegraph tooling eats.
//!
//! One line per distinct stack: `frame;frame;...;leaf <value>`, where the
//! value is accumulated self-time in microseconds. The innermost frame is
//! the `file:line` of the traced command, so the flamegraph is line-level.

use vstd::prelude::*;
use crate::profile::{lemma_samples_total, profile_ok, sample_self_total, self_total, Profile, ProfileV, Sample, SampleV};
use crate::trace::TraceV;
use crate::sorted::{lemma_sorted_unique, strictly_sorted};
use crate::tally::{
    group_sum, has_key_row, keys_distinct, lemma_groups_add_up, lemma_sum_rows_congruent, lemma_sum_rows_new,
    sum_rows,
};
use crate::text::{
    basename, basename_start, chars_eq, chars_lt, concat, dec, digit_char, lemma_seq_lt_irrefl, lemma_seq_lt_total,
    lemma_seq_lt_trans, push_char, push_dec, push_str, seq_lt, to_chars,
};

verus! {

/// Frame names must not contain the two structural characters of the
/// format: `;` (frame separator) and white space (value separator).
pub open spec fn sanitize_char(c: char) -> char {
    if c == ';' {
        ':'
    } else if c == ' ' || c == '\t' || c == '\n' {
        '_'
    } else {
        c
    }
}

pub open spec fn sanitize(s: Seq<char>) -> Seq<char> {
    s.map_values(|c: char| sanitize_char(c))
}

/// The frames of a stack, each sanitized and followed by `;`.
pub open spec fn frames_text(stack: Seq<Seq<char>>) -> Seq<char>
    decreases stack.len(),
{
    if stack.len() == 0 {
        Seq::empty()
    } else {
        frames_text(stack.drop_last()) + sanitize(stack.last()) + seq![';']
    }
}

/// `frame;frame;...;file:line` for a sample, the file reduced to its
/// base name.
pub open spec fn stack_key(s: SampleV) -> Seq<char> {
    frames_text(s.stack) + sanitize(basename(s.file)) + seq![':'] + dec(s.line as nat)
}

/// Total self-time of the first `n` samples whose stack is `key`.
pub open spec fn key_sum(samples: Seq<SampleV>, n: int, key: Seq<char>) -> nat
    decreases n,
{
    if n <= 0 {
        0
    } else {
        key_sum(samples, n - 1, key) + if stack_key(samples[n - 1]) == key {
            samples[n - 1].self_us as nat
        } else {
            0nat
        }
    }
}

/// How many of the first `n` samples have stack `key`.
pub open spec fn key_count(samples: Seq<SampleV>, n: int, key: Seq<char>) -> nat
    decreases n,
{
    if n <= 0 {
        0
    } else {
        key_count(samples, n - 1, key) + if stack_key(samples[n - 1]) == key {
            1nat
        } else {
            0nat
        }
    }
}

pub open spec fn has_stack_row(rows: Seq<(Seq<char>, u64)>, key: Seq<char>) -> bool {
    exists|i: int| 0 <= i < rows.len() && #[trigger] rows[i].0 == key
}

/// The folded rows over the first `n` samples: one per distinct stack, in
/// code-point order of the stack text, with the stack's total self-time.
pub open spec fn rows_upto(samples: Seq<SampleV>, n: int, rows: Seq<(Seq<char>, u64)>) -> bool {
    &&& forall|i: int, j: int| 0 <= i < j < rows.len() ==> seq_lt(rows[i].0, rows[j].0)
    &&& forall|i: int|
        0 <= i < rows.len() ==> #[trigger] rows[i].1 == key_sum(samples, n, rows[i].0)
            && key_count(samples, n, rows[i].0) > 0
    &&& forall|k: int| 0 <= k < n ==> #[trigger] has_stack_row(rows, stack_key(samples[k]))
}

pub open spec fn rows_ok(samples: Seq<SampleV>, rows: Seq<(Seq<char>, u64)>) -> bool {
    rows_upto(samples, samples.len() as int, rows)
}

/// `stack value` lines, one per row.
pub open spec fn rows_text(rows: Seq<(Seq<char>, u64)>) -> Seq<char>
    decreases rows.len(),
{
    if rows.len() == 0 {
        Seq::empty()
    } else {
        rows_text(rows.drop_last()) + rows.last().0 + seq![' '] + dec(rows.last().1 as nat) + seq!['\n']
    }
}

/// Every stack's total over the first `n` samples fits in `u64`.
pub open spec fn stack_sums_fit_upto(samples: Seq<SampleV>, n: int) -> bool {
    forall|key: Seq<char>| #[trigger] key_sum(samples, n, key) <= u64::MAX
}

/// Every stack's total fits in `u64`.
pub open spec fn stack_sums_fit(samples: Seq<SampleV>) -> bool {
    stack_sums_fit_upto(samples, samples.len() as int)
}

/// What [`render`] prints for these samples.
pub open spec fn collapsed(samples: Seq<SampleV>, out: Seq<char>) -> bool {
    exists|rows: Seq<(Seq<char>, u64)>| rows_ok(samples, rows) && out == rows_text(rows)
}

proof fn lemma_key_count_witness(samples: Seq<SampleV>, n: int, key: Seq<char>)
    requires
        key_count(samples, n, key) > 0,
    ensures
        exists|k: int| 0 <= k < n && #[trigger] stack_key(samples[k]) == key,
    decreases n,
{
    if n > 0 && stack_key(samples[n - 1]) != key {
        lemma_key_count_witness(samples, n - 1, key);
    }
}

proof fn lemma_key_count_zero(samples: Seq<SampleV>, n: int, key: Seq<char>)
    requires
        key_count(samples, n, key) == 0,
    ensures
        key_sum(samples, n, key) == 0,
    decreases n,
{
    if n > 0 {
        lemma_key_count_zero(samples, n - 1, key);
    }
}

proof fn lemma_key_sum_mono(samples: Seq<SampleV>, n: int, m: int, key: Seq<char>)
    requires
        n <= m,
    ensures
        key_sum(samples, n, key) <= key_sum(samples, m, key),
    decreases m - n,
{
    if n < m {
        lemma_key_sum_mono(samples, n, m - 1, key);
    }
}

/// Appends `sanitize(cs[lo..])`.
fn push_sanitized(out: &mut String, cs: &Vec<char>, lo: usize)
    requires
        lo <= cs@.len(),
    ensures
        final(out)@ == old(out)@ + sanitize(cs@.subrange(lo as int, cs@.len() as int)),
{
    let mut i = lo;
    while i < cs.len()
        invariant
            lo <= i <= cs@.len(),
            out@ == old(out)@ + sanitize(cs@.subrange(lo as int, i as int)),
        decreases cs@.len() - i,
    {
        let c = cs[i];
        let d = if c == ';' {
            ':'
        } else if c == ' ' || c == '\t' || c == '\n' {
            '_'
        } else {
            c
        };
        push_char(out, d);
        assert(sanitize(cs@.subrange(lo as int, i + 1)) =~= sanitize(cs@.subrange(lo as int, i as int)).push(d));
        i += 1;
    }
}

/// The stack text of a sample.
fn sample_key(s: &Sample) -> (k: String)
    ensures
        k@ == stack_key(s@),
{
    let mut k = String::new();
    let mut j: usize = 0;
    while j < s.stack.len()
        invariant
            j <= s.stack@.len(),
            k@ == frames_text(s@.stack.take(j as int)),
        decreases s.stack@.len() - j,
    {
        let f = to_chars(s.stack[j].as_str());
        assert(f@.subrange(0, f@.len() as int) =~= f@);
        push_sanitized(&mut k, &f, 0);
        push_char(&mut k, ';');
        assert(s@.stack.take(j + 1).drop_last() =~= s@.stack.take(j as int));
        j += 1;
    }
    assert(s@.stack.take(s@.stack.len() as int) =~= s@.stack);
    let fc = to_chars(s.file.as_str());
    let b = basename_start(&fc);
    push_sanitized(&mut k, &fc, b);
    push_char(&mut k, ':');
    push_dec(&mut k, s.line as u64);
    k
}

/// A folded row under construction: the stack text as characters and as a
/// string, and its total.
struct Row {
    key: Vec<char>,
    text: String,
    total: u64,
}

spec fn rows_view(v: Seq<Row>) -> Seq<(Seq<char>, u64)> {
    v.map_values(|r: Row| (r.key@, r.total))
}

spec fn rows_sound(v: Seq<Row>) -> bool {
    forall|i: int| 0 <= i < v.len() ==> #[trigger] v[i].text@ == v[i].key@
}

/// Folds sample `i` into the rows; `false` when the stack's total would
/// overflow.
fn fold_sample(rows: &mut Vec<Row>, samples: &Vec<Sample>, i: usize, Ghost(sv): Ghost<Seq<SampleV>>) -> (ok: bool)
    requires
        sv == samples@.map_values(|s: Sample| s@),
        i < sv.len(),
        rows_upto(sv, i as int, rows_view(old(rows)@)),
        rows_sound(old(rows)@),
        stack_sums_fit_upto(sv, i as int),
    ensures
        ok ==> rows_upto(sv, i + 1, rows_view(final(rows)@)) && rows_sound(final(rows)@)
            && stack_sums_fit_upto(sv, i + 1),
        !ok ==> !stack_sums_fit(sv),
{
    let ghost n = sv.len() as int;
    let ghost old_r = rows_view(rows@);
    let ghost old_rows = rows@;
    assert(sv[i as int] == samples@[i as int]@);
    let text = sample_key(&samples[i]);
    let key = to_chars(text.as_str());
    let ghost kk = key@;
    let us = samples[i].self_us;
    assert(kk == stack_key(sv[i as int]));
    assert(us == sv[i as int].self_us);
    assert(key_sum(sv, i + 1, kk) == key_sum(sv, i as int, kk) + us);
    let mut p: usize = 0;
    while p < rows.len() && chars_lt(&rows[p].key, &key)
        invariant
            p <= rows@.len(),
            rows_view(rows@) == old_r,
            rows@ == old_rows,
            key@ == kk,
            forall|q: int| 0 <= q < p ==> seq_lt(#[trigger] old_r[q].0, kk),
        decreases rows@.len() - p,
    {
        assert(old_r[p as int] == (rows@[p as int].key@, rows@[p as int].total));
        p += 1;
    }
    proof {
        lemma_key_sum_mono(sv, i + 1, n, kk);
        lemma_key_sum_mono(sv, i as int, i + 1, kk);
        assert(key_sum(sv, i as int, kk) <= u64::MAX);
        assert forall|f: Seq<char>| f != kk implies #[trigger] key_sum(sv, i + 1, f) == key_sum(sv, i as int, f) by {}
    }
    if p < rows.len() && chars_eq(&rows[p].key, &key) {
        assert(old_r[p as int] == (rows@[p as int].key@, rows@[p as int].total));
        assert(old_r[p as int].1 == key_sum(sv, i as int, old_r[p as int].0));
        assert(old_r[p as int].0 == kk);
        if rows[p].total > u64::MAX - us {
            return false;
        }
        let old = rows.remove(p);
        let upd = Row { key: old.key, text: old.text, total: old.total + us };
        rows.insert(p, upd);
        proof {
            let r = rows_view(rows@);
            assert(r =~= old_r.update(p as int, (kk, upd.total)));
            assert forall|q: int| 0 <= q < r.len() implies #[trigger] r[q].1 == key_sum(sv, i + 1, r[q].0)
                && key_count(sv, i + 1, r[q].0) > 0 by {
                if q != p {
                    if q < p {
                        assert(seq_lt(old_r[q].0, old_r[p as int].0));
                    } else {
                        assert(seq_lt(old_r[p as int].0, old_r[q].0));
                    }
                    lemma_seq_lt_irrefl(kk);
                    assert(r[q] == old_r[q]);
                    assert(old_r[q].1 == key_sum(sv, i as int, old_r[q].0));
                    assert(stack_key(sv[i as int]) != r[q].0);
                    assert(key_sum(sv, i + 1, r[q].0) == key_sum(sv, i as int, r[q].0));
                    assert(key_count(sv, i + 1, r[q].0) == key_count(sv, i as int, r[q].0));
                } else {
                    assert(key_count(sv, i + 1, kk) == key_count(sv, i as int, kk) + 1);
                }
            }
            assert forall|k: int| 0 <= k < i + 1 implies #[trigger] has_stack_row(r, stack_key(sv[k])) by {
                if k == i {
                    assert(r[p as int].0 == stack_key(sv[k]));
                } else {
                    assert(has_stack_row(old_r, stack_key(sv[k])));
                    let q = choose|q: int| 0 <= q < old_r.len() && #[trigger] old_r[q].0 == stack_key(sv[k]);
                    assert(r[q].0 == old_r[q].0);
                }
            }
            assert forall|q: int| 0 <= q < rows@.len() implies #[trigger] rows@[q].text@ == rows@[q].key@ by {
                if q != p {
                    assert(rows@[q] == old_rows[q]);
                }
            }
            assert(stack_sums_fit_upto(sv, i + 1));
        }
        true
    } else {
        proof {
            assert forall|q: int| 0 <= q < old_r.len() implies #[trigger] old_r[q].0 != kk by {
                if q < p {
                    lemma_seq_lt_irrefl(kk);
                } else {
                    assert(old_r[p as int] == (rows@[p as int].key@, rows@[p as int].total));
                    lemma_seq_lt_total(old_r[p as int].0, kk);
                    if q > p {
                        assert(seq_lt(old_r[p as int].0, old_r[q].0));
                        lemma_seq_lt_trans(kk, old_r[p as int].0, old_r[q].0);
                        lemma_seq_lt_irrefl(kk);
                    }
                }
            }
            if key_count(sv, i as int, kk) > 0 {
                lemma_key_count_witness(sv, i as int, kk);
                let k = choose|k: int| 0 <= k < i && #[trigger] stack_key(sv[k]) == kk;
                assert(has_stack_row(old_r, stack_key(sv[k])));
                let q = choose|q: int| 0 <= q < old_r.len() && #[trigger] old_r[q].0 == stack_key(sv[k]);
                assert(false);
            }
            lemma_key_count_zero(sv, i as int, kk);
        }
        let row = Row { key, text, total: us };
        rows.insert(p, row);
        proof {
            let r = rows_view(rows@);
            assert(r =~= old_r.insert(p as int, (kk, us)));
            assert forall|a: int, b: int| 0 <= a < b < r.len() implies seq_lt(r[a].0, r[b].0) by {
                if p < old_r.len() {
                    assert(old_r[p as int] == (rows@[p as int + 1].key@, rows@[p as int + 1].total));
                    lemma_seq_lt_total(old_r[p as int].0, kk);
                }
                if a < p && b == p {
                } else if a == p && b > p {
                    if b > p + 1 {
                        assert(seq_lt(old_r[p as int].0, old_r[b - 1].0));
                        lemma_seq_lt_trans(kk, old_r[p as int].0, old_r[b - 1].0);
                    }
                } else if a < p && b > p {
                    assert(seq_lt(old_r[a].0, old_r[b - 1].0));
                } else if a > p {
                    assert(seq_lt(old_r[a - 1].0, old_r[b - 1].0));
                }
            }
            assert forall|q: int| 0 <= q < r.len() implies #[trigger] r[q].1 == key_sum(sv, i + 1, r[q].0)
                && key_count(sv, i + 1, r[q].0) > 0 by {
                if q != p {
                    let oq = if q < p {
                        q
                    } else {
                        q - 1
                    };
                    assert(r[q] == old_r[oq]);
                    assert(old_r[oq].0 != kk);
                    assert(old_r[oq].1 == key_sum(sv, i as int, old_r[oq].0));
                    assert(key_sum(sv, i + 1, r[q].0) == key_sum(sv, i as int, r[q].0));
                    assert(key_count(sv, i + 1, r[q].0) == key_count(sv, i as int, r[q].0));
                } else {
                    assert(key_count(sv, i + 1, kk) == key_count(sv, i as int, kk) + 1);
                }
            }
            assert forall|k: int| 0 <= k < i + 1 implies #[trigger] has_stack_row(r, stack_key(sv[k])) by {
                if k == i {
                    assert(r[p as int].0 == stack_key(sv[k]));
                } else {
                    assert(has_stack_row(old_r, stack_key(sv[k])));
                    let q = choose|q: int| 0 <= q < old_r.len() && #[trigger] old_r[q].0 == stack_key(sv[k]);
                    if q < p {
                        assert(r[q].0 == old_r[q].0);
                    } else {
                        assert(r[q + 1].0 == old_r[q].0);
                    }
                }
            }
            assert forall|q: int| 0 <= q < rows@.len() implies #[trigger] rows@[q].text@ == rows@[q].key@ by {
                if q < p {
                    assert(rows@[q] == old_rows[q]);
                } else if q > p {
                    assert(rows@[q] == old_rows[q - 1]);
                }
            }
            assert(stack_sums_fit_upto(sv, i + 1));
        }
        true
    }
}

/// The collapsed stacks, or `None` when a stack's total self-time does not
/// fit in `u64`.
pub fn try_render(profile: &Profile) -> (r: Option<String>)
    ensures
        r is Some <==> stack_sums_fit(profile@.samples),
        r matches Some(out) ==> collapsed(profile@.samples, out@),
{
    let ghost sv = profile@.samples;
    let samples = &profile.samples;
    assert(sv == samples@.map_values(|s: Sample| s@));
    let mut rows: Vec<Row> = Vec::new();
    let mut i: usize = 0;
    while i < samples.len()
        invariant
            i <= samples@.len(),
            sv == samples@.map_values(|s: Sample| s@),
            sv == profile@.samples,
            stack_sums_fit_upto(sv, i as int),
            rows_upto(sv, i as int, rows_view(rows@)),
            rows_sound(rows@),
        decreases samples@.len() - i,
    {
        if !fold_sample(&mut rows, samples, i, Ghost(sv)) {
            return None;
        }
        i += 1;
    }
    let ghost rv = rows_view(rows@);
    let mut out = String::new();
    let mut j: usize = 0;
    while j < rows.len()
        invariant
            j <= rows@.len(),
            rv == rows_view(rows@),
            rows_sound(rows@),
            out@ == rows_text(rv.take(j as int)),
        decreases rows@.len() - j,
    {
        assert(rows@[j as int].text@ == rows@[j as int].key@);
        push_str(&mut out, rows[j].text.as_str());
        push_char(&mut out, ' ');
        push_dec(&mut out, rows[j].total);
        push_char(&mut out, '\n');
        assert(rv.take(j + 1).drop_last() =~= rv.take(j as int));
        j += 1;
    }
    assert(rv.take(rv.len() as int) =~= rv);
    Some(out)
}

/// Render the profile as collapsed stacks.
///
/// Identical stacks are merged (values summed). Output is sorted by stack
/// text so it is byte-stable across runs of the same trace. Zero-value
/// stacks are kept: a line that executed matters even if it was too fast
/// for the clock to see.
pub fn render(profile: &Profile) -> (out: String)
    requires
        stack_sums_fit(profile@.samples),
    ensures
        collapsed(profile@.samples, out@),
{
    match try_render(profile) {
        Some(out) => out,
        None => {
            assert(false);
            String::new()
        },
    }
}

// ---------------------------------------------------------------------
// Laws
// ---------------------------------------------------------------------

pub open spec fn row_order() -> spec_fn((Seq<char>, u64), (Seq<char>, u64)) -> bool {
    |a: (Seq<char>, u64), b: (Seq<char>, u64)| seq_lt(a.0, b.0)
}

proof fn lemma_row_in(samples: Seq<SampleV>, a: Seq<(Seq<char>, u64)>, b: Seq<(Seq<char>, u64)>, x: (Seq<char>, u64))
    requires
        rows_ok(samples, a),
        rows_ok(samples, b),
        a.contains(x),
    ensures
        b.contains(x),
{
    let n = samples.len() as int;
    let i = choose|i: int| 0 <= i < a.len() && a[i] == x;
    assert(rows_upto(samples, n, a));
    assert(0 <= i < a.len());
    assert(a[i].1 == key_sum(samples, n, a[i].0));
    assert(key_count(samples, n, a[i].0) > 0);
    lemma_key_count_witness(samples, n, x.0);
    let k = choose|k: int| 0 <= k < n && #[trigger] stack_key(samples[k]) == x.0;
    assert(has_stack_row(b, stack_key(samples[k])));
    let j = choose|j: int| 0 <= j < b.len() && #[trigger] b[j].0 == stack_key(samples[k]);
    assert(b[j].1 == key_sum(samples, n, b[j].0));
    assert(b[j] == x);
}

/// The collapsed output is byte-stable: whatever renders it, the samples
/// determine it to the last byte.
pub proof fn law_collapsed_is_determined(samples: Seq<SampleV>, o1: Seq<char>, o2: Seq<char>)
    requires
        collapsed(samples, o1),
        collapsed(samples, o2),
    ensures
        o1 == o2,
{
    let r1 = choose|rows: Seq<(Seq<char>, u64)>| rows_ok(samples, rows) && o1 == rows_text(rows);
    let r2 = choose|rows: Seq<(Seq<char>, u64)>| rows_ok(samples, rows) && o2 == rows_text(rows);
    let n = samples.len() as int;
    let lt = row_order();
    assert(strictly_sorted(r1, lt));
    assert(strictly_sorted(r2, lt));
    assert forall|x: (Seq<char>, u64)| !#[trigger] lt(x, x) by {
        lemma_seq_lt_irrefl(x.0);
    }
    assert forall|x: (Seq<char>, u64), y: (Seq<char>, u64), z: (Seq<char>, u64)|
        #[trigger] lt(x, y) && #[trigger] lt(y, z) implies lt(x, z) by {
        lemma_seq_lt_trans(x.0, y.0, z.0);
    }
    assert forall|x: (Seq<char>, u64), y: (Seq<char>, u64)|
        r1.contains(x) && r1.contains(y) && x != y implies #[trigger] lt(x, y) || #[trigger] lt(y, x) by {
        let i = choose|i: int| 0 <= i < r1.len() && r1[i] == x;
        let j = choose|j: int| 0 <= j < r1.len() && r1[j] == y;
        assert(r1[i].1 == key_sum(samples, n, r1[i].0));
        assert(r1[j].1 == key_sum(samples, n, r1[j].0));
        lemma_seq_lt_total(x.0, y.0);
    }
    assert forall|x: (Seq<char>, u64)| r1.contains(x) <==> r2.contains(x) by {
        if r1.contains(x) {
            lemma_row_in(samples, r1, r2, x);
        }
        if r2.contains(x) {
            lemma_row_in(samples, r2, r1, x);
        }
    }
    lemma_sorted_unique(r1, r2, lt);
}

/// The value column of the collapsed rows.
pub open spec fn rows_total(rows: Seq<(Seq<char>, u64)>) -> nat {
    sum_rows(rows, |r: (Seq<char>, u64)| r.1 as nat)
}

proof fn lemma_key_groups(samples: Seq<SampleV>, n: int, key: Seq<char>)
    ensures
        key_sum(samples, n, key) == group_sum(
            |j: int| stack_key(samples[j]),
            |j: int| samples[j].self_us as nat,
            n,
            key,
        ),
    decreases n,
{
    if n > 0 {
        lemma_key_groups(samples, n - 1, key);
    }
}

/// Merging identical stacks neither loses nor double-counts time: the
/// values of the collapsed rows add up to the samples' total self-time.
pub proof fn law_collapsed_total(samples: Seq<SampleV>, rows: Seq<(Seq<char>, u64)>)
    requires
        rows_ok(samples, rows),
    ensures
        rows_total(rows) == sample_self_total(samples),
{
    let n = samples.len() as int;
    let key_of = |j: int| stack_key(samples[j]);
    let w = |j: int| samples[j].self_us as nat;
    let rk = |r: (Seq<char>, u64)| r.0;
    assert(keys_distinct(rows, rk)) by {
        assert forall|i: int, j: int| 0 <= i < j < rows.len() implies rk(#[trigger] rows[i]) != rk(
            #[trigger] rows[j],
        ) by {
            lemma_seq_lt_irrefl(rows[i].0);
        }
    }
    assert forall|j: int| 0 <= j < n implies has_key_row(rows, rk, #[trigger] key_of(j)) by {
        assert(has_stack_row(rows, stack_key(samples[j])));
        let i = choose|i: int| 0 <= i < rows.len() && #[trigger] rows[i].0 == stack_key(samples[j]);
        assert(rk(rows[i]) == key_of(j));
    }
    lemma_groups_add_up(rows, rk, key_of, w, n);
    assert forall|i: int| 0 <= i < rows.len() implies (|r: (Seq<char>, u64)| r.1 as nat)(#[trigger] rows[i])
        == (|a: (Seq<char>, u64)| group_sum(key_of, w, n, rk(a)))(rows[i]) by {
        assert(rows[i].1 == key_sum(samples, n, rows[i].0));
        lemma_key_groups(samples, n, rows[i].0);
    }
    lemma_sum_rows_congruent(rows, |r: (Seq<char>, u64)| r.1 as nat, |a: (Seq<char>, u64)| group_sum(key_of, w, n, rk(a)));
    lemma_sum_rows_new(n as nat, |j: int| samples[j], |s: SampleV| s.self_us as nat);
    assert(Seq::new(n as nat, |j: int| samples[j]) =~= samples);
    assert((|j: int| (|s: SampleV| s.self_us as nat)((|j: int| samples[j])(j))) =~= w);
}

/// The collapsed stacks of a profile account for exactly the self-time of
/// its trace: a flamegraph drawn from them shows inclusive time without
/// counting any command twice.
pub proof fn law_flamegraph_total(tr: TraceV, p: ProfileV, rows: Seq<(Seq<char>, u64)>)
    requires
        profile_ok(tr, p),
        rows_ok(p.samples, rows),
    ensures
        rows_total(rows) == self_total(tr),
{
    law_collapsed_total(p.samples, rows);
    lemma_samples_total(tr);
}

/// Some sample has stack text `key`.
pub open spec fn seen_stack(samples: Seq<SampleV>, key: Seq<char>) -> bool {
    exists|k: int| 0 <= k < samples.len() && #[trigger] stack_key(samples[k]) == key
}

/// What the collapsed output is: one `stack value` line per distinct stack
/// text of the samples, in strictly ascending code-point order, the value
/// being the total self-time of the samples with that stack (zero totals
/// kept); nothing at all without samples.
pub proof fn law_collapsed_lines(samples: Seq<SampleV>, out: Seq<char>)
    requires
        collapsed(samples, out),
    ensures
        exists|rows: Seq<(Seq<char>, u64)>|
            {
                &&& out == rows_text(rows)
                &&& forall|i: int, j: int| 0 <= i < j < rows.len() ==> seq_lt(#[trigger] rows[i].0, #[trigger] rows[j].0)
                &&& forall|i: int| 0 <= i < rows.len() ==> #[trigger] seen_stack(samples, rows[i].0)
                &&& forall|k: int| 0 <= k < samples.len() ==> #[trigger] has_stack_row(rows, stack_key(samples[k]))
                &&& forall|i: int| 0 <= i < rows.len() ==> #[trigger] rows[i].1 == key_sum(samples, samples.len() as int, rows[i].0)
            },
        samples.len() == 0 ==> out.len() == 0,
{
    let n = samples.len() as int;
    let rows = choose|rows: Seq<(Seq<char>, u64)>| rows_ok(samples, rows) && out == rows_text(rows);
    assert forall|i: int| 0 <= i < rows.len() implies #[trigger] seen_stack(samples, rows[i].0) by {
        assert(rows_upto(samples, n, rows));
        assert(rows[i].1 == key_sum(samples, n, rows[i].0));
        assert(key_count(samples, n, rows[i].0) > 0);
        lemma_key_count_witness(samples, n, rows[i].0);
    }
    assert forall|i: int| 0 <= i < rows.len() implies #[trigger] rows[i].1 == key_sum(samples, samples.len() as int, rows[i].0) by {
        assert(rows_upto(samples, n, rows));
    }
    if samples.len() == 0 {
        if rows.len() > 0 {
            assert(seen_stack(samples, rows[0].0));
        }
        assert(rows =~= Seq::<(Seq<char>, u64)>::empty());
    }
}

/// How many times `c` occurs in `s`.
pub open spec fn occurrences(s: Seq<char>, c: char) -> nat
    decreases s.len(),
{
    if s.len() == 0 {
        0
    } else {
        occurrences(s.drop_last(), c) + if s.last() == c {
            1nat
        } else {
            0nat
        }
    }
}

proof fn lemma_occurrences_concat(a: Seq<char>, b: Seq<char>, c: char)
    ensures
        occurrences(a + b, c) == occurrences(a, c) + occurrences(b, c),
    decreases b.len(),
{
    if b.len() == 0 {
        assert(a + b =~= a);
    } else {
        lemma_occurrences_concat(a, b.drop_last(), c);
        assert((a + b).drop_last() =~= a + b.drop_last());
    }
}

proof fn lemma_sanitized_has_no_separator(s: Seq<char>)
    ensures
        occurrences(sanitize(s), ';') == 0,
    decreases s.len(),
{
    if s.len() > 0 {
        lemma_sanitized_has_no_separator(s.drop_last());
        assert(sanitize(s).drop_last() =~= sanitize(s.drop_last()));
    }
}

proof fn lemma_frames_text(stack: Seq<Seq<char>>)
    ensures
        frames_text(stack) == concat(Seq::new(stack.len(), |i: int| sanitize(stack[i]) + seq![';'])),
        occurrences(frames_text(stack), ';') == stack.len(),
    decreases stack.len(),
{
    if stack.len() > 0 {
        let init = stack.drop_last();
        lemma_frames_text(init);
        let parts = Seq::new(stack.len(), |i: int| sanitize(stack[i]) + seq![';']);
        assert(parts.drop_last() =~= Seq::new(init.len(), |i: int| sanitize(init[i]) + seq![';']));
        assert(parts.last() == sanitize(stack.last()) + seq![';']);
        lemma_sanitized_has_no_separator(stack.last());
        lemma_occurrences_concat(frames_text(init), sanitize(stack.last()) + seq![';'], ';');
        lemma_occurrences_concat(sanitize(stack.last()), seq![';'], ';');
        assert(occurrences(seq![';'], ';') == 1) by {
            assert(seq![';'].drop_last() =~= Seq::<char>::empty());
            assert(occurrences(Seq::<char>::empty(), ';') == 0);
            assert(seq![';'].last() == ';');
        }
        assert(frames_text(stack) =~= frames_text(init) + (sanitize(stack.last()) + seq![';']));
    }
}

proof fn lemma_digits_have_no_separator(n: nat)
    ensures
        occurrences(dec(n), ';') == 0,
    decreases n,
{
    if n >= 10 {
        lemma_digits_have_no_separator(n / 10);
        assert(dec(n).drop_last() =~= dec(n / 10));
        let m = (n % 10) as int;
        assert((digit_char(m) as u32) == m + 48);
        assert(dec(n).last() == digit_char(m));
    } else {
        assert(dec(n).drop_last() =~= Seq::<char>::empty());
        assert((digit_char(n as int) as u32) == n + 48);
        assert(dec(n).last() == digit_char(n as int));
        assert(occurrences(Seq::<char>::empty(), ';') == 0);
    }
}

/// The stack text of a sample keeps every frame of its stack, in order and
/// each once (repeated frames of recursion included), each sanitized and
/// followed by `;`, then the sanitized base name of its file, `:` and its
/// line; so it holds exactly as many `;` as the stack has frames.
pub proof fn law_stack_text_keeps_every_frame(s: SampleV)
    ensures
        stack_key(s) == concat(Seq::new(s.stack.len(), |i: int| sanitize(s.stack[i]) + seq![';']))
            + sanitize(basename(s.file)) + seq![':'] + dec(s.line as nat),
        occurrences(stack_key(s), ';') == s.stack.len(),
{
    lemma_frames_text(s.stack);
    let tail = sanitize(basename(s.file)) + seq![':'] + dec(s.line as nat);
    lemma_sanitized_has_no_separator(basename(s.file));
    lemma_digits_have_no_separator(s.line as nat);
    lemma_occurrences_concat(sanitize(basename(s.file)), seq![':'], ';');
    assert(occurrences(seq![':'], ';') == 0) by {
        assert(seq![':'].drop_last() =~= Seq::<char>::empty());
        assert(occurrences(Seq::<char>::empty(), ';') == 0);
        assert(seq![':'].last() == ':');
    }
    lemma_occurrences_concat(sanitize(basename(s.file)) + seq![':'], dec(s.line as nat), ';');
    lemma_occurrences_concat(frames_text(s.stack), tail, ';');
    assert(stack_key(s) =~= frames_text(s.stack) + tail);
}

} // verus!
