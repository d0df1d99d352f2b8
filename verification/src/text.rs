//! Character-level helpers shared by the parsers and renderers: decimal
//! rendering and parsing with the standard library's rules, padding,
//! whitespace trimming, line splitting and code-point ordering of text.

use vstd::prelude::*;
use vstd::string::*;

verus! {

// ---------------------------------------------------------------------
// Building strings
// ---------------------------------------------------------------------

/// Appends one character to a string, by `String::push` of the standard
/// library, which vstd gives no contract. Trusted: the contract claims
/// that afterwards the string holds its old characters followed by `c`.
#[verifier::external_body]
pub(crate) fn push_char(s: &mut String, c: char)
    ensures
        final(s)@ == old(s)@.push(c),
{
    s.push(c);
}

/// Appends a string slice.
pub fn push_str(s: &mut String, t: &str)
    ensures
        final(s)@ == old(s)@ + t@,
{
    s.append(t);
}

/// The characters of a string slice, one element each.
pub fn to_chars(s: &str) -> (v: Vec<char>)
    ensures
        v@ == s@,
{
    let mut v: Vec<char> = Vec::new();
    for c in it: s.chars()
        invariant
            v@ == it.seq().take(it.index() as int),
            it.seq() == s@,
    {
        v.push(c);
    }
    v
}

/// The string made of `cs[lo..hi]`.
pub fn string_of(cs: &Vec<char>, lo: usize, hi: usize) -> (s: String)
    requires
        lo <= hi <= cs@.len(),
    ensures
        s@ == cs@.subrange(lo as int, hi as int),
{
    let mut s = String::new();
    let mut i = lo;
    while i < hi
        invariant
            lo <= i <= hi <= cs@.len(),
            s@ == cs@.subrange(lo as int, i as int),
        decreases hi - i,
    {
        push_char(&mut s, cs[i]);
        assert(cs@.subrange(lo as int, i + 1) == cs@.subrange(lo as int, i as int).push(cs@[i as int]));
        i += 1;
    }
    s
}

/// Appends `cs[lo..hi]`.
pub fn push_range(s: &mut String, cs: &Vec<char>, lo: usize, hi: usize)
    requires
        lo <= hi <= cs@.len(),
    ensures
        final(s)@ == old(s)@ + cs@.subrange(lo as int, hi as int),
{
    let mut i = lo;
    while i < hi
        invariant
            lo <= i <= hi <= cs@.len(),
            s@ == old(s)@ + cs@.subrange(lo as int, i as int),
        decreases hi - i,
    {
        push_char(s, cs[i]);
        assert(cs@.subrange(lo as int, i + 1) == cs@.subrange(lo as int, i as int).push(cs@[i as int]));
        i += 1;
    }
}

/// The texts of a sequence of strings.
pub open spec fn texts(v: Seq<String>) -> Seq<Seq<char>> {
    v.map_values(|s: String| s@)
}

/// The texts, one after another.
pub open spec fn concat(parts: Seq<Seq<char>>) -> Seq<char>
    decreases parts.len(),
{
    if parts.len() == 0 {
        Seq::empty()
    } else {
        concat(parts.drop_last()) + parts.last()
    }
}

/// `n` copies of `c`.
pub open spec fn repeat(c: char, n: nat) -> Seq<char> {
    Seq::new(n, |i: int| c)
}

pub fn push_repeat(s: &mut String, c: char, n: usize)
    ensures
        final(s)@ == old(s)@ + repeat(c, n as nat),
{
    let mut i: usize = 0;
    while i < n
        invariant
            i <= n,
            s@ == old(s)@ + repeat(c, i as nat),
        decreases n - i,
    {
        push_char(s, c);
        assert(repeat(c, (i + 1) as nat) == repeat(c, i as nat).push(c));
        i += 1;
    }
}

/// Right-aligned in a field of `w` characters (`{:>w}`).
pub open spec fn pad_left(s: Seq<char>, w: nat) -> Seq<char> {
    if s.len() < w {
        repeat(' ', (w - s.len()) as nat) + s
    } else {
        s
    }
}

/// Left-aligned in a field of `w` characters (`{:<w}`).
pub open spec fn pad_right(s: Seq<char>, w: nat) -> Seq<char> {
    if s.len() < w {
        s + repeat(' ', (w - s.len()) as nat)
    } else {
        s
    }
}

/// Appends `t` right-aligned in a field of `w` characters.
pub fn push_padded_left(s: &mut String, t: &str, w: usize)
    ensures
        final(s)@ == old(s)@ + pad_left(t@, w as nat),
{
    let n = t.unicode_len();
    if n < w {
        push_repeat(s, ' ', w - n);
    }
    push_str(s, t);
}

/// Appends `t` left-aligned in a field of `w` characters.
pub fn push_padded_right(s: &mut String, t: &str, w: usize)
    ensures
        final(s)@ == old(s)@ + pad_right(t@, w as nat),
{
    let n = t.unicode_len();
    push_str(s, t);
    if n < w {
        push_repeat(s, ' ', w - n);
    }
}

// ---------------------------------------------------------------------
// Decimal rendering
// ---------------------------------------------------------------------

pub open spec fn digit_char(d: int) -> char {
    (d + 48) as char
}

/// Decimal rendering of a natural number, most significant digit first.
pub open spec fn dec(n: nat) -> Seq<char>
    decreases n,
{
    if n < 10 {
        seq![digit_char(n as int)]
    } else {
        dec(n / 10).push(digit_char((n % 10) as int))
    }
}

/// Decimal rendering of an integer, with a leading `-` when negative.
pub open spec fn idec(n: int) -> Seq<char> {
    if n < 0 {
        seq!['-'] + dec((-n) as nat)
    } else {
        dec(n as nat)
    }
}

/// `dec(n)` left-padded with zeros to `w` digits (`{:0w}`).
pub open spec fn zdec(n: nat, w: nat) -> Seq<char> {
    let d = dec(n);
    if d.len() < w {
        repeat('0', (w - d.len()) as nat) + d
    } else {
        d
    }
}

pub proof fn lemma_dec_nonempty(n: nat)
    ensures
        dec(n).len() >= 1,
    decreases n,
{
    if n >= 10 {
        lemma_dec_nonempty(n / 10);
    }
}

pub fn digit(d: u64) -> (c: char)
    requires
        d < 10,
    ensures
        c == digit_char(d as int),
{
    ((d as u8) + 48u8) as char
}

pub fn push_dec(s: &mut String, n: u64)
    ensures
        final(s)@ == old(s)@ + dec(n as nat),
    decreases n,
{
    if n < 10 {
        push_char(s, digit(n));
    } else {
        push_dec(s, n / 10);
        push_char(s, digit(n % 10));
    }
}

pub fn push_dec128(s: &mut String, n: u128)
    ensures
        final(s)@ == old(s)@ + dec(n as nat),
    decreases n,
{
    if n < 10 {
        push_char(s, digit(n as u64));
    } else {
        push_dec128(s, n / 10);
        push_char(s, digit((n % 10) as u64));
    }
}

pub fn push_idec(s: &mut String, n: i64)
    ensures
        final(s)@ == old(s)@ + idec(n as int),
{
    if n < 0 {
        push_char(s, '-');
        let m: u128 = (0i128 - (n as i128)) as u128;
        push_dec128(s, m);
    } else {
        push_dec(s, n as u64);
    }
}

/// The number of characters of `dec(n)`.
pub fn dec_len(n: u64) -> (l: usize)
    ensures
        l as nat == dec(n as nat).len(),
        1 <= l <= 20,
    decreases n,
{
    if n < 10 {
        1
    } else {
        proof {
            lemma_dec_nonempty((n / 10) as nat);
            assert(pow10(19) == 10_000_000_000_000_000_000) by {
                reveal_with_fuel(pow10, 20);
            }
            lemma_dec_len_bound((n / 10) as nat, 19);
        }
        let k = dec_len(n / 10);
        k + 1
    }
}

pub open spec fn pow10(k: nat) -> nat
    decreases k,
{
    if k == 0 {
        1
    } else {
        10 * pow10((k - 1) as nat)
    }
}

pub proof fn lemma_dec_len_bound(n: nat, k: nat)
    requires
        n < pow10(k),
        k >= 1,
    ensures
        dec(n).len() <= k,
    decreases k,
{
    if n >= 10 {
        assert(k >= 2) by {
            if k == 1 {
                assert(pow10(1) == 10) by {
                    reveal_with_fuel(pow10, 2);
                }
            }
        }
        lemma_dec_len_bound(n / 10, (k - 1) as nat);
    }
}

pub fn push_zdec(s: &mut String, n: u64, w: usize)
    ensures
        final(s)@ == old(s)@ + zdec(n as nat, w as nat),
{
    let l = dec_len(n);
    if l < w {
        push_repeat(s, '0', w - l);
    }
    push_dec(s, n);
    assert(s@ == old(s)@ + zdec(n as nat, w as nat));
}

pub fn push_zdec128(s: &mut String, n: u128, w: usize)
    requires
        n <= u64::MAX,
    ensures
        final(s)@ == old(s)@ + zdec(n as nat, w as nat),
{
    push_zdec(s, n as u64, w);
}

// ---------------------------------------------------------------------
// Code-point order and prefixes
// ---------------------------------------------------------------------

/// Lexicographic order by code point; on UTF-8 text this is the byte
/// order in which `String`s compare.
pub open spec fn seq_lt(a: Seq<char>, b: Seq<char>) -> bool
    decreases a.len(),
{
    if a.len() == 0 {
        b.len() > 0
    } else if b.len() == 0 {
        false
    } else if a[0] != b[0] {
        (a[0] as int) < (b[0] as int)
    } else {
        seq_lt(a.drop_first(), b.drop_first())
    }
}

pub proof fn lemma_seq_lt_irrefl(a: Seq<char>)
    ensures
        !seq_lt(a, a),
    decreases a.len(),
{
    if a.len() > 0 {
        lemma_seq_lt_irrefl(a.drop_first());
    }
}

pub proof fn lemma_seq_lt_total(a: Seq<char>, b: Seq<char>)
    ensures
        a == b || seq_lt(a, b) || seq_lt(b, a),
    decreases a.len(),
{
    if a.len() > 0 && b.len() > 0 && a[0] == b[0] {
        lemma_seq_lt_total(a.drop_first(), b.drop_first());
        if a.drop_first() == b.drop_first() {
            assert(a =~= seq![a[0]] + a.drop_first());
            assert(b =~= seq![b[0]] + b.drop_first());
        }
    } else if a.len() > 0 && b.len() > 0 {
        assert((a[0] as int) != (b[0] as int));
    } else if a.len() == 0 && b.len() == 0 {
        assert(a =~= b);
    }
}

pub proof fn lemma_seq_lt_asym(a: Seq<char>, b: Seq<char>)
    ensures
        !(seq_lt(a, b) && seq_lt(b, a)),
    decreases a.len(),
{
    if a.len() > 0 && b.len() > 0 && a[0] == b[0] {
        lemma_seq_lt_asym(a.drop_first(), b.drop_first());
    }
}

pub proof fn lemma_seq_lt_trans(a: Seq<char>, b: Seq<char>, c: Seq<char>)
    requires
        seq_lt(a, b),
        seq_lt(b, c),
    ensures
        seq_lt(a, c),
    decreases a.len(),
{
    if a.len() > 0 && b.len() > 0 && c.len() > 0 && a[0] == b[0] && b[0] == c[0] {
        lemma_seq_lt_trans(a.drop_first(), b.drop_first(), c.drop_first());
    }
}

/// Is `a` before `b` in code-point order?
pub fn chars_lt(a: &Vec<char>, b: &Vec<char>) -> (r: bool)
    ensures
        r == seq_lt(a@, b@),
{
    let mut i: usize = 0;
    assert(a@.skip(0) =~= a@);
    assert(b@.skip(0) =~= b@);
    while i < a.len() && i < b.len() && a[i] == b[i]
        invariant
            i <= a@.len(),
            i <= b@.len(),
            seq_lt(a@, b@) == seq_lt(a@.skip(i as int), b@.skip(i as int)),
        decreases a@.len() - i,
    {
        assert(a@.skip(i as int).drop_first() =~= a@.skip(i + 1));
        assert(b@.skip(i as int).drop_first() =~= b@.skip(i + 1));
        i += 1;
    }
    if i == a.len() {
        i < b.len()
    } else if i == b.len() {
        false
    } else {
        a[i] < b[i]
    }
}

/// Do the two character vectors hold the same text?
pub fn chars_eq(a: &Vec<char>, b: &Vec<char>) -> (r: bool)
    ensures
        r == (a@ == b@),
{
    if a.len() != b.len() {
        return false;
    }
    let mut i: usize = 0;
    while i < a.len()
        invariant
            i <= a@.len(),
            a@.len() == b@.len(),
            a@.take(i as int) == b@.take(i as int),
        decreases a@.len() - i,
    {
        if a[i] != b[i] {
            assert(a@[i as int] != b@[i as int]);
            return false;
        }
        assert(a@.take(i + 1) == a@.take(i as int).push(a@[i as int]));
        assert(b@.take(i + 1) == b@.take(i as int).push(b@[i as int]));
        i += 1;
    }
    assert(a@ == a@.take(a@.len() as int));
    assert(b@ == b@.take(b@.len() as int));
    true
}

/// Does `s` begin with `p`?
pub open spec fn starts_with(s: Seq<char>, p: Seq<char>) -> bool {
    p.len() <= s.len() && s.take(p.len() as int) == p
}

/// Does `cs[lo..hi]` begin with `p`?
pub fn range_starts_with(cs: &Vec<char>, lo: usize, hi: usize, p: &Vec<char>) -> (r: bool)
    requires
        lo <= hi <= cs@.len(),
    ensures
        r == starts_with(cs@.subrange(lo as int, hi as int), p@),
{
    let ghost s = cs@.subrange(lo as int, hi as int);
    if p.len() > hi - lo {
        return false;
    }
    let mut i: usize = 0;
    while i < p.len()
        invariant
            i <= p@.len() <= hi - lo,
            lo <= hi <= cs@.len(),
            s == cs@.subrange(lo as int, hi as int),
            s.take(i as int) == p@.take(i as int),
        decreases p@.len() - i,
    {
        if cs[lo + i] != p[i] {
            assert(s.take(p@.len() as int)[i as int] != p@[i as int]);
            return false;
        }
        assert(s.take(i + 1) == s.take(i as int).push(s[i as int]));
        assert(p@.take(i + 1) == p@.take(i as int).push(p@[i as int]));
        i += 1;
    }
    assert(p@ == p@.take(p@.len() as int));
    true
}

/// The text after the last `/` (all of it when there is none).
pub open spec fn basename(s: Seq<char>) -> Seq<char>
    decreases s.len(),
{
    if s.len() == 0 {
        s
    } else if s.last() == '/' {
        Seq::empty()
    } else {
        basename(s.drop_last()).push(s.last())
    }
}

/// Where `basename(cs[..])` starts.
pub fn basename_start(cs: &Vec<char>) -> (k: usize)
    ensures
        k <= cs@.len(),
        cs@.subrange(k as int, cs@.len() as int) == basename(cs@),
{
    let mut k = cs.len();
    while k > 0 && cs[k - 1] != '/'
        invariant
            k <= cs@.len(),
            forall|j: int| k <= j <= cs@.len() ==>
                #[trigger] basename(cs@.take(j)) == basename(cs@.take(k as int)) + cs@.subrange(k as int, j),
        decreases k,
    {
        assert forall|j: int| (k - 1) as int <= j <= cs@.len() implies
            #[trigger] basename(cs@.take(j)) == basename(cs@.take(k - 1)) + cs@.subrange(k - 1, j) by {
            if j == k - 1 {
                assert(cs@.subrange(k - 1, j) =~= Seq::<char>::empty());
                assert(basename(cs@.take(j)) + Seq::<char>::empty() =~= basename(cs@.take(j)));
            } else {
                assert(cs@.take(k as int).drop_last() =~= cs@.take(k - 1));
                assert(cs@.take(k as int).last() == cs@[k - 1]);
                assert(cs@.subrange(k - 1, j) =~= seq![cs@[k - 1]] + cs@.subrange(k as int, j));
                assert(basename(cs@.take(k - 1)) + cs@.subrange(k - 1, j) =~= basename(cs@.take(k - 1)).push(cs@[k - 1]) + cs@.subrange(k as int, j));
            }
        }
        k -= 1;
    }
    assert(basename(cs@.take(cs@.len() as int)) == basename(cs@.take(k as int)) + cs@.subrange(k as int, cs@.len() as int));
    assert(cs@.take(cs@.len() as int) =~= cs@);
    if k == 0 {
        assert(cs@.take(0) =~= Seq::<char>::empty());
    } else {
        assert(cs@.take(k as int).last() == '/');
        assert(basename(cs@.take(k as int)) =~= Seq::<char>::empty());
    }
    assert(Seq::<char>::empty() + cs@.subrange(k as int, cs@.len() as int) =~= cs@.subrange(k as int, cs@.len() as int));
    k
}

// ---------------------------------------------------------------------
// Whitespace and trimming
// ---------------------------------------------------------------------

/// Unicode `White_Space`, as `char::is_whitespace` decides it.
pub open spec fn is_ws(c: char) -> bool {
    let u = c as u32;
    u == 0x20 || (0x09 <= u && u <= 0x0d) || u == 0x85 || u == 0xa0 || u == 0x1680
        || (0x2000 <= u && u <= 0x200a) || u == 0x2028 || u == 0x2029 || u == 0x202f
        || u == 0x205f || u == 0x3000
}

pub fn ws(c: char) -> (r: bool)
    ensures
        r == is_ws(c),
{
    let u = c as u32;
    u == 0x20 || (0x09 <= u && u <= 0x0d) || u == 0x85 || u == 0xa0 || u == 0x1680
        || (0x2000 <= u && u <= 0x200a) || u == 0x2028 || u == 0x2029 || u == 0x202f
        || u == 0x205f || u == 0x3000
}

pub open spec fn trim_start(s: Seq<char>) -> Seq<char>
    decreases s.len(),
{
    if s.len() > 0 && is_ws(s[0]) {
        trim_start(s.drop_first())
    } else {
        s
    }
}

pub open spec fn trim_end(s: Seq<char>) -> Seq<char>
    decreases s.len(),
{
    if s.len() > 0 && is_ws(s.last()) {
        trim_end(s.drop_last())
    } else {
        s
    }
}

/// `str::trim`: leading and trailing white space removed.
pub open spec fn trim(s: Seq<char>) -> Seq<char> {
    trim_end(trim_start(s))
}

/// The bounds of `trim(cs[lo..hi])` inside `cs`.
pub fn trim_range(cs: &Vec<char>, lo: usize, hi: usize) -> (r: (usize, usize))
    requires
        lo <= hi <= cs@.len(),
    ensures
        lo <= r.0 <= r.1 <= hi,
        cs@.subrange(r.0 as int, r.1 as int) == trim(cs@.subrange(lo as int, hi as int)),
{
    let mut a = lo;
    while a < hi && ws(cs[a])
        invariant
            lo <= a <= hi <= cs@.len(),
            trim_start(cs@.subrange(lo as int, hi as int)) == trim_start(cs@.subrange(a as int, hi as int)),
        decreases hi - a,
    {
        assert(cs@.subrange(a as int, hi as int).drop_first() =~= cs@.subrange(a + 1, hi as int));
        a += 1;
    }
    let mut b = hi;
    while b > a && ws(cs[b - 1])
        invariant
            lo <= a <= b <= hi <= cs@.len(),
            trim_end(cs@.subrange(a as int, hi as int)) == trim_end(cs@.subrange(a as int, b as int)),
        decreases b,
    {
        assert(cs@.subrange(a as int, b as int).drop_last() =~= cs@.subrange(a as int, b - 1));
        b -= 1;
    }
    (a, b)
}

// ---------------------------------------------------------------------
// Number parsing with the rules of `FromStr` for integers
// ---------------------------------------------------------------------

pub open spec fn is_digit(c: char) -> bool {
    48 <= (c as u32) && (c as u32) <= 57
}

pub open spec fn all_digits(s: Seq<char>) -> bool {
    forall|i: int| 0 <= i < s.len() ==> #[trigger] is_digit(s[i])
}

/// The value of a string of decimal digits.
pub open spec fn digits_val(s: Seq<char>) -> nat
    decreases s.len(),
{
    if s.len() == 0 {
        0
    } else {
        digits_val(s.drop_last()) * 10 + ((s.last() as u32) - 48) as nat
    }
}

/// The digits of an unsigned number: an optional leading `+` removed.
pub open spec fn unsigned_digits(s: Seq<char>) -> Seq<char> {
    if s.len() > 0 && s[0] == '+' {
        s.drop_first()
    } else {
        s
    }
}

/// `str::parse` for an unsigned integer type whose largest value is `max`.
pub open spec fn parse_unsigned(s: Seq<char>, max: nat) -> Option<nat> {
    let d = unsigned_digits(s);
    if d.len() > 0 && all_digits(d) && digits_val(d) <= max {
        Some(digits_val(d))
    } else {
        None
    }
}

/// `str::parse::<i32>`.
pub open spec fn parse_i32(s: Seq<char>) -> Option<int> {
    if s.len() > 0 && s[0] == '-' {
        let d = s.drop_first();
        if d.len() > 0 && all_digits(d) && digits_val(d) <= 0x8000_0000 {
            Some(-(digits_val(d) as int))
        } else {
            None
        }
    } else {
        match parse_unsigned(s, 0x7fff_ffff) {
            Some(v) => Some(v as int),
            None => None,
        }
    }
}

proof fn lemma_digits_val_prefix(s: Seq<char>, k: int)
    requires
        0 <= k <= s.len(),
        all_digits(s),
    ensures
        digits_val(s.take(k)) <= digits_val(s),
    decreases s.len() - k,
{
    if k < s.len() {
        lemma_digits_val_prefix(s, k + 1);
        assert(s.take(k + 1).drop_last() =~= s.take(k));
        assert(is_digit(s[k]));
    } else {
        assert(s.take(k) =~= s);
    }
}

/// `dec(n)` is a non-empty string of digits whose value is `n`.
pub proof fn lemma_dec_digits(n: nat)
    ensures
        dec(n).len() > 0,
        all_digits(dec(n)),
        digits_val(dec(n)) == n,
    decreases n,
{
    if n >= 10 {
        lemma_dec_digits(n / 10);
        let d = dec(n);
        assert(d.drop_last() =~= dec(n / 10));
        let m = (n % 10) as int;
        assert((digit_char(m) as u32) == m + 48);
        assert(digits_val(d) == digits_val(dec(n / 10)) * 10 + m);
        assert(n == (n / 10) * 10 + m);
        assert(digits_val(dec(n)) == n);
        assert forall|i: int| 0 <= i < d.len() implies #[trigger] is_digit(d[i]) by {
            if i < d.len() - 1 {
                assert(d[i] == dec(n / 10)[i]);
            }
        }
    } else {
        assert(dec(n).drop_last() =~= Seq::<char>::empty());
        assert((digit_char(n as int) as u32) == n + 48);
        assert(digits_val(Seq::<char>::empty()) == 0);
        assert(digits_val(dec(n)) == n);
    }
}

proof fn lemma_leading_zeros(k: nat, d: Seq<char>)
    requires
        all_digits(d),
    ensures
        all_digits(repeat('0', k) + d),
        digits_val(repeat('0', k) + d) == digits_val(d),
    decreases d.len(), k,
{
    let s = repeat('0', k) + d;
    assert forall|i: int| 0 <= i < s.len() implies #[trigger] is_digit(s[i]) by {
        if i >= k {
            assert(s[i] == d[i - k]);
        }
    }
    if d.len() > 0 {
        lemma_leading_zeros(k, d.drop_last());
        assert(s.drop_last() =~= repeat('0', k) + d.drop_last());
        assert(all_digits(d.drop_last()));
    } else if k > 0 {
        lemma_leading_zeros((k - 1) as nat, d);
        assert(s.drop_last() =~= repeat('0', (k - 1) as nat) + d);
    } else {
        assert(s =~= Seq::<char>::empty());
    }
}

/// `zdec(n, w)` is a string of digits whose value is `n`, `w` long when
/// `n` has at most `w` digits.
pub proof fn lemma_zdec_digits(n: nat, w: nat)
    ensures
        all_digits(zdec(n, w)),
        digits_val(zdec(n, w)) == n,
        n < pow10(w) && w >= 1 ==> zdec(n, w).len() == w,
        zdec(n, w).len() > 0,
{
    lemma_dec_digits(n);
    let d = dec(n);
    if d.len() < w {
        lemma_leading_zeros((w - d.len()) as nat, d);
    }
    if n < pow10(w) && w >= 1 {
        lemma_dec_len_bound(n, w);
    }
}

/// Parses `cs[lo..hi]` as digits only (no sign), failing above `max`.
fn parse_digits(cs: &Vec<char>, lo: usize, hi: usize, max: u64) -> (r: Option<u64>)
    requires
        lo <= hi <= cs@.len(),
    ensures
        ({
            let d = cs@.subrange(lo as int, hi as int);
            r == (if d.len() > 0 && all_digits(d) && digits_val(d) <= max {
                Some(digits_val(d) as u64)
            } else {
                None::<u64>
            })
        }),
{
    let ghost d = cs@.subrange(lo as int, hi as int);
    if lo == hi {
        return None;
    }
    let mut v: u128 = 0;
    let mut i = lo;
    while i < hi
        invariant
            lo <= i <= hi <= cs@.len(),
            d == cs@.subrange(lo as int, hi as int),
            all_digits(d.take(i - lo)),
            v == digits_val(d.take(i - lo)),
            v <= max,
        decreases hi - i,
    {
        let c = cs[i];
        let u = c as u32;
        if u < 48 || u > 57 {
            assert(!is_digit(d[i - lo]));
            return None;
        }
        assert(d.take(i - lo + 1).drop_last() =~= d.take(i - lo));
        assert(d.take(i - lo + 1).last() == c);
        v = v * 10 + ((u - 48) as u128);
        if v > max as u128 {
            proof {
                if all_digits(d) {
                    lemma_digits_val_prefix(d, i - lo + 1);
                }
            }
            return None;
        }
        i += 1;
    }
    assert(d.take(hi - lo) =~= d);
    Some(v as u64)
}

/// `cs[lo..hi].parse()` for an unsigned type whose largest value is `max`.
pub fn parse_unsigned_range(cs: &Vec<char>, lo: usize, hi: usize, max: u64) -> (r: Option<u64>)
    requires
        lo <= hi <= cs@.len(),
    ensures
        r matches Some(v) ==> parse_unsigned(cs@.subrange(lo as int, hi as int), max as nat) == Some(v as nat),
        r is None ==> parse_unsigned(cs@.subrange(lo as int, hi as int), max as nat) is None,
{
    let ghost s = cs@.subrange(lo as int, hi as int);
    if lo < hi && cs[lo] == '+' {
        assert(s.drop_first() =~= cs@.subrange(lo + 1, hi as int));
        parse_digits(cs, lo + 1, hi, max)
    } else {
        parse_digits(cs, lo, hi, max)
    }
}

/// `cs[lo..hi].parse::<i32>()`.
pub fn parse_i32_range(cs: &Vec<char>, lo: usize, hi: usize) -> (r: Option<i32>)
    requires
        lo <= hi <= cs@.len(),
    ensures
        r matches Some(v) ==> parse_i32(cs@.subrange(lo as int, hi as int)) == Some(v as int),
        r is None ==> parse_i32(cs@.subrange(lo as int, hi as int)) is None,
{
    let ghost s = cs@.subrange(lo as int, hi as int);
    if lo < hi && cs[lo] == '-' {
        assert(s.drop_first() =~= cs@.subrange(lo + 1, hi as int));
        match parse_digits(cs, lo + 1, hi, 0x8000_0000) {
            Some(v) => Some((0i64 - (v as i64)) as i32),
            None => None,
        }
    } else {
        match parse_unsigned_range(cs, lo, hi, 0x7fff_ffff) {
            Some(v) => Some(v as i32),
            None => None,
        }
    }
}

// ---------------------------------------------------------------------
// Lines
// ---------------------------------------------------------------------

/// A line's text once its `\n` terminator is gone: a `\r` right before the
/// terminator goes too.
pub open spec fn strip_cr(s: Seq<char>) -> Seq<char> {
    if s.len() > 0 && s.last() == '\r' {
        s.drop_last()
    } else {
        s
    }
}

/// Scanning `s` from the left: the finished lines and the unfinished one.
pub open spec fn lines_acc(s: Seq<char>) -> (Seq<Seq<char>>, Seq<char>)
    decreases s.len(),
{
    if s.len() == 0 {
        (Seq::empty(), Seq::empty())
    } else {
        let (done, cur) = lines_acc(s.drop_last());
        if s.last() == '\n' {
            (done.push(strip_cr(cur)), Seq::empty())
        } else {
            (done, cur.push(s.last()))
        }
    }
}

/// `str::lines`: split at `\n` (or `\r\n`); a final terminator does not
/// start another line.
pub open spec fn lines(s: Seq<char>) -> Seq<Seq<char>> {
    let (done, cur) = lines_acc(s);
    if cur.len() == 0 {
        done
    } else {
        done.push(cur)
    }
}

/// Text that neither begins nor ends with white space is its own trim.
pub proof fn lemma_trim_unchanged(s: Seq<char>)
    requires
        s.len() > 0,
        !is_ws(s[0]),
        !is_ws(s.last()),
    ensures
        trim(s) == s,
{
}

proof fn lemma_lines_acc_append(s: Seq<char>, x: Seq<char>)
    requires
        forall|i: int| 0 <= i < x.len() ==> #[trigger] x[i] != '\n',
    ensures
        lines_acc(s + x) == (lines_acc(s).0, lines_acc(s).1 + x),
    decreases x.len(),
{
    if x.len() == 0 {
        assert(s + x =~= s);
        assert(lines_acc(s).1 + x =~= lines_acc(s).1);
    } else {
        assert forall|i: int| 0 <= i < x.drop_last().len() implies #[trigger] x.drop_last()[i] != '\n' by {
            assert(x.drop_last()[i] == x[i]);
        }
        lemma_lines_acc_append(s, x.drop_last());
        assert((s + x).drop_last() =~= s + x.drop_last());
        assert((s + x).last() == x[x.len() - 1]);
        assert(lines_acc(s).1 + x.drop_last() + seq![x.last()] =~= lines_acc(s).1 + x);
    }
}

/// A line appended, with its terminator, to text that ends at a line
/// boundary becomes the last of its lines.
pub proof fn lemma_lines_append_line(s: Seq<char>, x: Seq<char>)
    requires
        s.len() == 0 || s.last() == '\n',
        forall|i: int| 0 <= i < x.len() ==> #[trigger] x[i] != '\n',
        x.len() > 0,
        x.last() != '\r',
    ensures
        lines(s + x + seq!['\n']) == lines(s).push(x),
{
    assert(lines_acc(s).1 =~= Seq::<char>::empty()) by {
        if s.len() > 0 {
        }
    }
    lemma_lines_acc_append(s, x);
    assert((s + x + seq!['\n']).drop_last() =~= s + x);
    assert(lines_acc(s).1 + x =~= x);
    assert(strip_cr(x) == x);
}

/// Trimming the front of `a + y` stops at `y` when `y` begins with a
/// character that is not white space.
proof fn lemma_trim_start_concat(a: Seq<char>, y: Seq<char>)
    requires
        y.len() > 0,
        !is_ws(y[0]),
    ensures
        trim_start(a + y) == trim_start(a) + y,
    decreases a.len(),
{
    if a.len() > 0 {
        assert((a + y).drop_first() =~= a.drop_first() + y);
        lemma_trim_start_concat(a.drop_first(), y);
    } else {
        assert(a + y =~= y);
        assert(trim_start(a) + y =~= y);
    }
}

/// Trimming the back of `y + b` stops at `y` when `y` ends with a
/// character that is not white space.
proof fn lemma_trim_end_concat(y: Seq<char>, b: Seq<char>)
    requires
        y.len() > 0,
        !is_ws(y.last()),
    ensures
        trim_end(y + b) == y + trim_end(b),
    decreases b.len(),
{
    if b.len() > 0 {
        assert((y + b).drop_last() =~= y + b.drop_last());
        lemma_trim_end_concat(y, b.drop_last());
    } else {
        assert(y + b =~= y);
        assert(y + trim_end(b) =~= y);
    }
}

/// Trimming `a + [c] + b` for a character `c` that is not white space
/// trims `a` at the front and `b` at the back.
pub proof fn lemma_trim_around(a: Seq<char>, c: char, b: Seq<char>)
    requires
        !is_ws(c),
    ensures
        trim(a + seq![c] + b) == trim_start(a) + seq![c] + trim_end(b),
{
    lemma_trim_start_concat(a, seq![c] + b);
    assert(a + seq![c] + b =~= a + (seq![c] + b));
    let x = trim_start(a);
    assert(x + (seq![c] + b) =~= (x + seq![c]) + b);
    lemma_trim_end_concat(x + seq![c], b);
    assert((x + seq![c]) + trim_end(b) =~= x + seq![c] + trim_end(b));
}

/// Every character of `s` is white space.
pub open spec fn all_ws(s: Seq<char>) -> bool {
    forall|i: int| 0 <= i < s.len() ==> is_ws(#[trigger] s[i])
}

proof fn lemma_trim_start_all_ws(s: Seq<char>)
    requires
        all_ws(s),
    ensures
        trim_start(s) == Seq::<char>::empty(),
    decreases s.len(),
{
    if s.len() > 0 {
        assert(is_ws(s[0]));
        assert(all_ws(s.drop_first())) by {
            assert forall|i: int| 0 <= i < s.drop_first().len() implies is_ws(#[trigger] s.drop_first()[i]) by {
                assert(s.drop_first()[i] == s[i + 1]);
            }
        }
        lemma_trim_start_all_ws(s.drop_first());
    }
}

proof fn lemma_trim_end_all_ws(s: Seq<char>)
    requires
        all_ws(s),
    ensures
        trim_end(s) == Seq::<char>::empty(),
    decreases s.len(),
{
    if s.len() > 0 {
        assert(is_ws(s[s.len() - 1]));
        assert(all_ws(s.drop_last())) by {
            assert forall|i: int| 0 <= i < s.drop_last().len() implies is_ws(#[trigger] s.drop_last()[i]) by {
                assert(s.drop_last()[i] == s[i]);
            }
        }
        lemma_trim_end_all_ws(s.drop_last());
    }
}

/// White space around text that neither begins nor ends with white space
/// is what trimming removes.
pub proof fn lemma_trim_padded(pre: Seq<char>, core: Seq<char>, post: Seq<char>)
    requires
        all_ws(pre),
        all_ws(post),
        core.len() > 0,
        !is_ws(core[0]),
        !is_ws(core.last()),
    ensures
        trim(pre + core + post) == core,
{
    lemma_trim_start_concat(pre, core + post);
    assert(pre + core + post =~= pre + (core + post));
    lemma_trim_start_all_ws(pre);
    assert(Seq::<char>::empty() + (core + post) =~= core + post);
    lemma_trim_end_concat(core, post);
    lemma_trim_end_all_ws(post);
    assert(core + Seq::<char>::empty() =~= core);
}

/// Zeros appended to digits multiply their value by a power of ten.
pub proof fn lemma_trailing_zeros(g: Seq<char>, k: nat)
    ensures
        digits_val(g + repeat('0', k)) == digits_val(g) * pow10(k),
    decreases k,
{
    if k == 0 {
        assert(g + repeat('0', 0) =~= g);
        assert(pow10(0) == 1);
        let v = digits_val(g);
        assert(v * 1 == v);
    } else {
        lemma_trailing_zeros(g, (k - 1) as nat);
        let s = g + repeat('0', k);
        assert(s.drop_last() =~= g + repeat('0', (k - 1) as nat));
        assert(s.last() == '0');
        let v = digits_val(g);
        let p = pow10((k - 1) as nat);
        assert((v * p) * 10 == v * (10 * p)) by (nonlinear_arith);
        assert(pow10(k) == 10 * p);
        assert(digits_val(s) == digits_val(s.drop_last()) * 10 + (('0' as u32) - 48));
        assert(digits_val(s.drop_last()) == v * p);
    }
}

/// The base name of a path is what follows its last `/`: it holds no `/`,
/// and the path is a (possibly empty) directory part ending in `/`
/// followed by it.
pub proof fn law_basename(s: Seq<char>)
    ensures
        forall|i: int| 0 <= i < basename(s).len() ==> #[trigger] basename(s)[i] != '/',
        exists|dir: Seq<char>| s == dir + basename(s) && (dir.len() == 0 || dir.last() == '/'),
    decreases s.len(),
{
    if s.len() > 0 {
        law_basename(s.drop_last());
        let b0 = basename(s.drop_last());
        let dir0 = choose|dir: Seq<char>| s.drop_last() == dir + b0 && (dir.len() == 0 || dir.last() == '/');
        if s.last() == '/' {
            assert(s == s + basename(s));
        } else {
            assert forall|i: int| 0 <= i < basename(s).len() implies #[trigger] basename(s)[i] != '/' by {
                if i < b0.len() {
                    assert(basename(s)[i] == b0[i]);
                }
            }
            assert(basename(s) == b0.push(s.last()));
            assert(s =~= s.drop_last().push(s.last()));
            assert(dir0 + b0.push(s.last()) =~= (dir0 + b0).push(s.last()));
            assert(s =~= dir0 + basename(s));
        }
    }
}

} // verus!
