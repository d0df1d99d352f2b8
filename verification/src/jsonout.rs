//! Minimal JSON emission: just enough to serialize a [`Profile`] without a
//! serializer dependency. Emission only; the profiler never parses JSON.

use vstd::prelude::*;
use crate::profile::{FuncStat, FuncStatV, LineStat, LineStatV, Profile, ProfileV};
use crate::text::{dec, idec, push_char, push_dec, push_idec, push_str};
use crate::VERSION;

verus! {

pub open spec fn hex_digit(d: nat) -> char {
    if d < 10 {
        (d + 48) as char
    } else {
        (d + 87) as char
    }
}

/// Four lowercase hex digits (`{:04x}`) of a value below `0x10000`.
pub open spec fn hex4(n: nat) -> Seq<char> {
    seq![hex_digit((n / 4096) % 16), hex_digit((n / 256) % 16), hex_digit((n / 16) % 16), hex_digit(n % 16)]
}

/// The escape of one character per RFC 8259.
pub open spec fn escape_char(c: char) -> Seq<char> {
    if c == '"' {
        seq!['\\', '"']
    } else if c == '\\' {
        seq!['\\', '\\']
    } else if c == '\n' {
        seq!['\\', 'n']
    } else if c == '\r' {
        seq!['\\', 'r']
    } else if c == '\t' {
        seq!['\\', 't']
    } else if (c as u32) < 0x20 {
        seq!['\\', 'u'] + hex4(c as u32 as nat)
    } else {
        seq![c]
    }
}

/// A string escaped per RFC 8259 (quotes, backslash, control characters).
pub open spec fn escaped(s: Seq<char>) -> Seq<char>
    decreases s.len(),
{
    if s.len() == 0 {
        Seq::empty()
    } else {
        escaped(s.drop_last()) + escape_char(s.last())
    }
}

/// A character that JSON strings may hold as it is.
pub open spec fn plain_json_char(c: char) -> bool {
    (c as u32) >= 0x20 && c != '"' && c != '\\'
}

/// Escaping leaves no control character behind: every character of
/// `escaped(s)` is at or above U+0020, so the string is a valid JSON string
/// body wherever `s` came from.
pub proof fn law_escaped_has_no_controls(s: Seq<char>)
    ensures
        forall|i: int| 0 <= i < escaped(s).len() ==> (#[trigger] escaped(s)[i] as u32) >= 0x20,
    decreases s.len(),
{
    if s.len() > 0 {
        law_escaped_has_no_controls(s.drop_last());
        let a = escaped(s.drop_last());
        let b = escape_char(s.last());
        assert forall|i: int| 0 <= i < b.len() implies (#[trigger] b[i] as u32) >= 0x20 by {
            let c = s.last();
            if (c as u32) < 0x20 && c != '\n' && c != '\r' && c != '\t' {
                let n = c as u32 as nat;
                assert(hex_digit((n / 4096) % 16) as u32 >= 0x30);
                assert(hex_digit((n / 256) % 16) as u32 >= 0x30);
                assert(hex_digit((n / 16) % 16) as u32 >= 0x30);
                assert(hex_digit(n % 16) as u32 >= 0x30);
            }
        }
        assert forall|i: int| 0 <= i < escaped(s).len() implies (#[trigger] escaped(s)[i] as u32) >= 0x20 by {
            if i < a.len() {
                assert(escaped(s)[i] == a[i]);
            } else {
                assert(escaped(s)[i] == b[i - a.len()]);
            }
        }
    }
}

/// Text without quotes, backslashes or control characters is emitted as
/// it is.
pub proof fn law_plain_text_unchanged(s: Seq<char>)
    requires
        forall|i: int| 0 <= i < s.len() ==> plain_json_char(#[trigger] s[i]),
    ensures
        escaped(s) == s,
    decreases s.len(),
{
    if s.len() > 0 {
        assert forall|i: int| 0 <= i < s.drop_last().len() implies plain_json_char(
            #[trigger] s.drop_last()[i],
        ) by {
            assert(s.drop_last()[i] == s[i]);
        }
        law_plain_text_unchanged(s.drop_last());
        assert(plain_json_char(s[s.len() - 1]));
        assert(s.drop_last().push(s.last()) =~= s);
        assert(escape_char(s.last()) =~= seq![s.last()]);
        assert(escaped(s) =~= s.drop_last() + seq![s.last()]);
    }
}

// ---------------------------------------------------------------------
// Reading a JSON string back
// ---------------------------------------------------------------------

pub open spec fn is_hex(c: char) -> bool {
    ('0' <= c && c <= '9') || ('a' <= c && c <= 'f') || ('A' <= c && c <= 'F')
}

pub open spec fn hex_val(c: char) -> nat {
    if '0' <= c && c <= '9' {
        (c as u32 - 48) as nat
    } else if 'a' <= c && c <= 'f' {
        (c as u32 - 87) as nat
    } else {
        (c as u32 - 55) as nat
    }
}

/// The four hex digits at `s[i..i + 4]`, when they are hex digits.
pub open spec fn hex4_at(s: Seq<char>, i: int) -> Option<nat> {
    if 0 <= i && i + 4 <= s.len() && is_hex(s[i]) && is_hex(s[i + 1]) && is_hex(s[i + 2]) && is_hex(s[i + 3]) {
        Some(hex_val(s[i]) * 4096 + hex_val(s[i + 1]) * 256 + hex_val(s[i + 2]) * 16 + hex_val(s[i + 3]))
    } else {
        None
    }
}

pub open spec fn prepend(c: char, rest: Option<Seq<char>>) -> Option<Seq<char>> {
    match rest {
        Some(t) => Some(seq![c] + t),
        None => None,
    }
}

/// The text a JSON string body stands for, per RFC 8259: the two-character
/// escapes, `\uXXXX` (a surrogate pair for characters above U+FFFF), and
/// every other character as it is. `None` when the body is not valid: a
/// bare quote or control character, an unknown or cut-off escape, or a
/// lone surrogate.
pub open spec fn unescaped(s: Seq<char>) -> Option<Seq<char>>
    decreases s.len(),
{
    if s.len() == 0 {
        Some(Seq::empty())
    } else if s[0] == '"' || (s[0] as u32) < 0x20 {
        None
    } else if s[0] != '\\' {
        prepend(s[0], unescaped(s.drop_first()))
    } else if s.len() < 2 {
        None
    } else {
        let e = s[1];
        if e == '"' || e == '\\' || e == '/' {
            prepend(e, unescaped(s.skip(2)))
        } else if e == 'b' {
            prepend('\u{8}', unescaped(s.skip(2)))
        } else if e == 'f' {
            prepend('\u{c}', unescaped(s.skip(2)))
        } else if e == 'n' {
            prepend('\n', unescaped(s.skip(2)))
        } else if e == 'r' {
            prepend('\r', unescaped(s.skip(2)))
        } else if e == 't' {
            prepend('\t', unescaped(s.skip(2)))
        } else if e == 'u' {
            match hex4_at(s, 2) {
                None => None,
                Some(v) => if v < 0xd800 || v >= 0xe000 {
                    prepend(v as char, unescaped(s.skip(6)))
                } else if v < 0xdc00 && s.len() >= 8 && s[6] == '\\' && s[7] == 'u' {
                    match hex4_at(s, 8) {
                        Some(w) => if 0xdc00 <= w && w < 0xe000 {
                            prepend(
                                (0x10000 + (v - 0xd800) * 0x400 + (w - 0xdc00)) as char,
                                unescaped(s.skip(12)),
                            )
                        } else {
                            None
                        },
                        None => None,
                    }
                } else {
                    None
                },
            }
        } else {
            None
        }
    }
}

proof fn lemma_escaped_front(s: Seq<char>)
    requires
        s.len() > 0,
    ensures
        escaped(s) == escape_char(s[0]) + escaped(s.drop_first()),
    decreases s.len(),
{
    if s.len() == 1 {
        assert(s.drop_last() =~= Seq::<char>::empty());
        assert(s.drop_first() =~= Seq::<char>::empty());
        assert(escape_char(s[0]) + Seq::<char>::empty() =~= escape_char(s[0]));
    } else {
        let init = s.drop_last();
        lemma_escaped_front(init);
        assert(init.drop_first() =~= s.drop_first().drop_last());
        assert(s.drop_first().last() == s.last());
        assert(init[0] == s[0]);
        assert(escaped(s) =~= escape_char(s[0]) + escaped(s.drop_first()));
    }
}

proof fn lemma_hex_digit(d: nat)
    requires
        d < 16,
    ensures
        is_hex(hex_digit(d)),
        hex_val(hex_digit(d)) == d,
{
}

/// One character's escape reads back as that character.
proof fn lemma_unescape_char(c: char, rest: Seq<char>)
    ensures
        unescaped(escape_char(c) + rest) == prepend(c, unescaped(rest)),
{
    let s = escape_char(c) + rest;
    if c == '"' || c == '\\' || c == '\n' || c == '\r' || c == '\t' {
        assert(s.skip(2) =~= rest);
    } else if (c as u32) < 0x20 {
        let n = c as u32 as nat;
        lemma_hex_digit((n / 4096) % 16);
        lemma_hex_digit((n / 256) % 16);
        lemma_hex_digit((n / 16) % 16);
        lemma_hex_digit(n % 16);
        assert(s[2] == hex_digit((n / 4096) % 16));
        assert(s[3] == hex_digit((n / 256) % 16));
        assert(s[4] == hex_digit((n / 16) % 16));
        assert(s[5] == hex_digit(n % 16));
        assert(hex4_at(s, 2) == Some(n));
        assert(s.skip(6) =~= rest);
        assert((n as char) == c);
    } else {
        assert(s.drop_first() =~= rest);
    }
}

/// Escaping loses nothing: the JSON string body `escape` makes is valid
/// and reads back, per RFC 8259, as exactly the text it came from.
pub proof fn law_escape_round_trip(s: Seq<char>)
    ensures
        unescaped(escaped(s)) == Some(s),
    decreases s.len(),
{
    if s.len() == 0 {
    } else {
        lemma_escaped_front(s);
        law_escape_round_trip(s.drop_first());
        lemma_unescape_char(s[0], escaped(s.drop_first()));
        assert(seq![s[0]] + s.drop_first() =~= s);
    }
}

fn hex(d: u32) -> (c: char)
    requires
        d < 16,
    ensures
        c == hex_digit(d as nat),
{
    if d < 10 {
        ((d as u8) + 48u8) as char
    } else {
        ((d as u8) + 87u8) as char
    }
}

fn push_escaped_char(out: &mut String, c: char)
    ensures
        final(out)@ == old(out)@ + escape_char(c),
{
    if c == '"' {
        push_char(out, '\\');
        push_char(out, '"');
    } else if c == '\\' {
        push_char(out, '\\');
        push_char(out, '\\');
    } else if c == '\n' {
        push_char(out, '\\');
        push_char(out, 'n');
    } else if c == '\r' {
        push_char(out, '\\');
        push_char(out, 'r');
    } else if c == '\t' {
        push_char(out, '\\');
        push_char(out, 't');
    } else if (c as u32) < 0x20 {
        let u = c as u32;
        push_char(out, '\\');
        push_char(out, 'u');
        push_char(out, hex((u / 4096) % 16));
        push_char(out, hex((u / 256) % 16));
        push_char(out, hex((u / 16) % 16));
        push_char(out, hex(u % 16));
    } else {
        push_char(out, c);
    }
}

/// Appends `escaped(s)`.
pub fn push_escaped(out: &mut String, s: &str)
    ensures
        final(out)@ == old(out)@ + escaped(s@),
{
    let ghost start = out@;
    for c in it: s.chars()
        invariant
            it.seq() == s@,
            out@ == start + escaped(s@.take(it.index() as int)),
    {
        let ghost i = it.index() as int;
        push_escaped_char(out, c);
        assert(s@.take(i + 1).drop_last() =~= s@.take(i));
        assert(s@.take(i + 1).last() == c);
    }
    assert(s@.take(s@.len() as int) =~= s@);
}

/// Escape a string per RFC 8259 (quotes, backslash, control characters).
pub fn escape(s: &str) -> (r: String)
    ensures
        r@ == escaped(s@),
{
    let mut out = String::new();
    push_escaped(&mut out, s);
    out
}

// ---------------------------------------------------------------------
// The document
// ---------------------------------------------------------------------

pub open spec fn quoted(s: Seq<char>) -> Seq<char> {
    seq!['"'] + escaped(s) + seq!['"']
}

/// `"a", "b", ...` for the first `k` files.
pub open spec fn files_list(files: Seq<Seq<char>>, k: int) -> Seq<char>
    decreases k,
{
    if k <= 0 {
        Seq::empty()
    } else if k == 1 {
        quoted(files[0])
    } else {
        files_list(files, k - 1) + ", "@ + quoted(files[k - 1])
    }
}

pub open spec fn line_json(l: LineStatV, last: bool) -> Seq<char> {
    "    {\"file\": "@ + quoted(l.file) + ", \"line\": "@ + dec(l.line as nat) + ", \"count\": "@
        + dec(l.count as nat) + ", \"self_us\": "@ + dec(l.self_us as nat) + ", \"max_us\": "@
        + dec(l.max_us as nat) + ", \"command\": "@ + quoted(l.command) + seq!['}'] + (if last {
        Seq::empty()
    } else {
        seq![',']
    }) + seq!['\n']
}

/// The first `k` rows of the `lines` array.
pub open spec fn lines_json(ls: Seq<LineStatV>, k: int) -> Seq<char>
    decreases k,
{
    if k <= 0 {
        Seq::empty()
    } else {
        lines_json(ls, k - 1) + line_json(ls[k - 1], k == ls.len())
    }
}

pub open spec fn func_json(f: FuncStatV, last: bool) -> Seq<char> {
    "    {\"name\": "@ + quoted(f.name) + ", \"calls\": "@ + dec(f.calls as nat) + ", \"commands\": "@
        + dec(f.commands as nat) + ", \"self_us\": "@ + dec(f.self_us as nat) + seq!['}'] + (if last {
        Seq::empty()
    } else {
        seq![',']
    }) + seq!['\n']
}

/// The first `k` rows of the `functions` array.
pub open spec fn funcs_json(fs: Seq<FuncStatV>, k: int) -> Seq<char>
    decreases k,
{
    if k <= 0 {
        Seq::empty()
    } else {
        funcs_json(fs, k - 1) + func_json(fs[k - 1], k == fs.len())
    }
}

/// The profile as a single JSON object (2-space indent, integer
/// microseconds).
pub open spec fn json_text(p: ProfileV) -> Seq<char> {
    "{\n"@ + "  \"tool\": \"bashprof\",\n"@ + "  \"version\": \""@ + VERSION@ + "\",\n"@
        + "  \"script\": "@ + (match p.script {
        Some(s) => quoted(s),
        None => "null"@,
    }) + ",\n"@ + "  \"exit_code\": "@ + (match p.exit_code {
        Some(rc) => idec(rc as int),
        None => "null"@,
    }) + ",\n"@ + "  \"total_us\": "@ + dec(p.total_us as nat) + ",\n"@ + "  \"commands\": "@ + dec(
        p.commands as nat,
    ) + ",\n"@ + "  \"skipped_lines\": "@ + dec(p.skipped) + ",\n"@ + "  \"files\": ["@ + files_list(
        p.files,
        p.files.len() as int,
    ) + "],\n"@ + "  \"lines\": [\n"@ + lines_json(p.lines, p.lines.len() as int) + "  ],\n"@
        + "  \"functions\": [\n"@ + funcs_json(p.funcs, p.funcs.len() as int) + "  ]\n"@ + "}\n"@
}

fn push_quoted(out: &mut String, s: &str)
    ensures
        final(out)@ == old(out)@ + quoted(s@),
{
    push_char(out, '"');
    push_escaped(out, s);
    push_char(out, '"');
}

fn push_line_json(out: &mut String, l: &LineStat, last: bool)
    ensures
        final(out)@ == old(out)@ + line_json(l@, last),
{
    push_str(out, "    {\"file\": ");
    push_quoted(out, l.file.as_str());
    push_str(out, ", \"line\": ");
    push_dec(out, l.line as u64);
    push_str(out, ", \"count\": ");
    push_dec(out, l.count);
    push_str(out, ", \"self_us\": ");
    push_dec(out, l.self_us);
    push_str(out, ", \"max_us\": ");
    push_dec(out, l.max_us);
    push_str(out, ", \"command\": ");
    push_quoted(out, l.command.as_str());
    push_char(out, '}');
    if !last {
        push_char(out, ',');
    }
    push_char(out, '\n');
    assert(out@ =~= old(out)@ + line_json(l@, last));
}

fn push_func_json(out: &mut String, f: &FuncStat, last: bool)
    ensures
        final(out)@ == old(out)@ + func_json(f@, last),
{
    push_str(out, "    {\"name\": ");
    push_quoted(out, f.name.as_str());
    push_str(out, ", \"calls\": ");
    push_dec(out, f.calls);
    push_str(out, ", \"commands\": ");
    push_dec(out, f.commands);
    push_str(out, ", \"self_us\": ");
    push_dec(out, f.self_us);
    push_char(out, '}');
    if !last {
        push_char(out, ',');
    }
    push_char(out, '\n');
    assert(out@ =~= old(out)@ + func_json(f@, last));
}

/// Serialize a profile as a single JSON object (pretty, 2-space indent).
///
/// Times are integer microseconds so consumers never deal with float
/// rounding.
pub fn render(profile: &Profile) -> (o: String)
    ensures
        o@ == json_text(profile@),
{
    let ghost p = profile@;
    let mut o = String::new();
    push_str(&mut o, "{\n");
    push_str(&mut o, "  \"tool\": \"bashprof\",\n");
    push_str(&mut o, "  \"version\": \"");
    push_str(&mut o, VERSION);
    push_str(&mut o, "\",\n");
    push_str(&mut o, "  \"script\": ");
    match &profile.script {
        Some(s) => push_quoted(&mut o, s.as_str()),
        None => push_str(&mut o, "null"),
    }
    push_str(&mut o, ",\n");
    push_str(&mut o, "  \"exit_code\": ");
    match profile.exit_code {
        Some(rc) => push_idec(&mut o, rc as i64),
        None => push_str(&mut o, "null"),
    }
    push_str(&mut o, ",\n");
    push_str(&mut o, "  \"total_us\": ");
    push_dec(&mut o, profile.total_us);
    push_str(&mut o, ",\n");
    push_str(&mut o, "  \"commands\": ");
    push_dec(&mut o, profile.commands);
    push_str(&mut o, ",\n");
    push_str(&mut o, "  \"skipped_lines\": ");
    push_dec(&mut o, profile.skipped as u64);
    push_str(&mut o, ",\n");
    push_str(&mut o, "  \"files\": [");
    let ghost head = o@;
    let mut i: usize = 0;
    while i < profile.files.len()
        invariant
            i <= profile.files@.len(),
            p == profile@,
            o@ == head + files_list(p.files, i as int),
        decreases profile.files@.len() - i,
    {
        if i > 0 {
            push_str(&mut o, ", ");
        }
        assert(p.files[i as int] == profile.files@[i as int]@);
        push_quoted(&mut o, profile.files[i].as_str());
        proof {
            if i == 0 {
                assert(files_list(p.files, 0) =~= Seq::<char>::empty());
            }
        }
        i += 1;
    }
    push_str(&mut o, "],\n");
    push_str(&mut o, "  \"lines\": [\n");
    let ghost head2 = o@;
    let n = profile.lines.len();
    let mut j: usize = 0;
    while j < n
        invariant
            j <= n == profile.lines@.len(),
            p == profile@,
            o@ == head2 + lines_json(p.lines, j as int),
        decreases n - j,
    {
        assert(p.lines[j as int] == profile.lines@[j as int]@);
        push_line_json(&mut o, &profile.lines[j], j + 1 == n);
        j += 1;
    }
    push_str(&mut o, "  ],\n");
    push_str(&mut o, "  \"functions\": [\n");
    let ghost head3 = o@;
    let m = profile.funcs.len();
    let mut k: usize = 0;
    while k < m
        invariant
            k <= m == profile.funcs@.len(),
            p == profile@,
            o@ == head3 + funcs_json(p.funcs, k as int),
        decreases m - k,
    {
        assert(p.funcs[k as int] == profile.funcs@[k as int]@);
        push_func_json(&mut o, &profile.funcs[k], k + 1 == m);
        k += 1;
    }
    push_str(&mut o, "  ]\n");
    push_str(&mut o, "}\n");
    assert(o@ =~= json_text(p));
    o
}

// ---------------------------------------------------------------------
// The arrays are well formed
// ---------------------------------------------------------------------

/// The items with `sep` between each two of them.
pub open spec fn join(items: Seq<Seq<char>>, sep: Seq<char>) -> Seq<char>
    decreases items.len(),
{
    if items.len() == 0 {
        Seq::empty()
    } else if items.len() == 1 {
        items[0]
    } else {
        join(items.drop_last(), sep) + sep + items.last()
    }
}

/// A JSON array of one object per line, as the report lays it out: the
/// objects indented by four spaces, a comma and a newline between each two
/// of them, a newline after the last.
pub open spec fn array_body(objects: Seq<Seq<char>>) -> Seq<char> {
    if objects.len() == 0 {
        Seq::empty()
    } else {
        join(objects.map_values(|o: Seq<char>| "    "@ + o), seq![',', '\n']) + seq!['\n']
    }
}

/// The JSON object of a per-line row.
pub open spec fn line_object(l: LineStatV) -> Seq<char> {
    "{\"file\": "@ + quoted(l.file) + ", \"line\": "@ + dec(l.line as nat) + ", \"count\": "@ + dec(
        l.count as nat,
    ) + ", \"self_us\": "@ + dec(l.self_us as nat) + ", \"max_us\": "@ + dec(l.max_us as nat)
        + ", \"command\": "@ + quoted(l.command) + seq!['}']
}

/// The JSON object of a per-function row.
pub open spec fn func_object(f: FuncStatV) -> Seq<char> {
    "{\"name\": "@ + quoted(f.name) + ", \"calls\": "@ + dec(f.calls as nat) + ", \"commands\": "@
        + dec(f.commands as nat) + ", \"self_us\": "@ + dec(f.self_us as nat) + seq!['}']
}

proof fn lemma_join_push(items: Seq<Seq<char>>, x: Seq<char>, sep: Seq<char>)
    requires
        items.len() > 0,
    ensures
        join(items.push(x), sep) == join(items, sep) + sep + x,
{
    assert(items.push(x).drop_last() =~= items);
}

proof fn lemma_lines_array(ls: Seq<LineStatV>, k: int)
    requires
        1 <= k <= ls.len(),
    ensures
        ({
            let objs = Seq::new(k as nat, |i: int| line_object(ls[i])).map_values(|o: Seq<char>| "    "@ + o);
            lines_json(ls, k) == join(objs, seq![',', '\n']) + (if k == ls.len() {
                seq!['\n']
            } else {
                seq![',', '\n']
            })
        }),
    decreases k,
{
    let objs = Seq::new(k as nat, |i: int| line_object(ls[i])).map_values(|o: Seq<char>| "    "@ + o);
    let row = "    "@ + line_object(ls[k - 1]);
    assert("    "@ + "{\"file\": "@ =~= "    {\"file\": "@) by {
        reveal_strlit("    ");
        reveal_strlit("{\"file\": ");
        reveal_strlit("    {\"file\": ");
    }
    assert(line_json(ls[k - 1], k == ls.len()) =~= row + (if k == ls.len() {
        seq!['\n']
    } else {
        seq![',', '\n']
    }));
    if k == 1 {
        assert(objs =~= seq![row]);
        assert(lines_json(ls, 0) == Seq::<char>::empty());
        assert(lines_json(ls, 1) =~= row + (if k == ls.len() {
            seq!['\n']
        } else {
            seq![',', '\n']
        }));
    } else {
        lemma_lines_array(ls, k - 1);
        let prev = Seq::new((k - 1) as nat, |i: int| line_object(ls[i])).map_values(|o: Seq<char>| "    "@ + o);
        assert(objs =~= prev.push(row));
        lemma_join_push(prev, row, seq![',', '\n']);
        assert(lines_json(ls, k) =~= join(objs, seq![',', '\n']) + (if k == ls.len() {
            seq!['\n']
        } else {
            seq![',', '\n']
        }));
    }
}

proof fn lemma_funcs_array(fs: Seq<FuncStatV>, k: int)
    requires
        1 <= k <= fs.len(),
    ensures
        ({
            let objs = Seq::new(k as nat, |i: int| func_object(fs[i])).map_values(|o: Seq<char>| "    "@ + o);
            funcs_json(fs, k) == join(objs, seq![',', '\n']) + (if k == fs.len() {
                seq!['\n']
            } else {
                seq![',', '\n']
            })
        }),
    decreases k,
{
    let objs = Seq::new(k as nat, |i: int| func_object(fs[i])).map_values(|o: Seq<char>| "    "@ + o);
    let row = "    "@ + func_object(fs[k - 1]);
    assert("    "@ + "{\"name\": "@ =~= "    {\"name\": "@) by {
        reveal_strlit("    ");
        reveal_strlit("{\"name\": ");
        reveal_strlit("    {\"name\": ");
    }
    assert(func_json(fs[k - 1], k == fs.len()) =~= row + (if k == fs.len() {
        seq!['\n']
    } else {
        seq![',', '\n']
    }));
    if k == 1 {
        assert(objs =~= seq![row]);
        assert(funcs_json(fs, 0) == Seq::<char>::empty());
        assert(funcs_json(fs, 1) =~= row + (if k == fs.len() {
            seq!['\n']
        } else {
            seq![',', '\n']
        }));
    } else {
        lemma_funcs_array(fs, k - 1);
        let prev = Seq::new((k - 1) as nat, |i: int| func_object(fs[i])).map_values(|o: Seq<char>| "    "@ + o);
        assert(objs =~= prev.push(row));
        lemma_join_push(prev, row, seq![',', '\n']);
        assert(funcs_json(fs, k) =~= join(objs, seq![',', '\n']) + (if k == fs.len() {
            seq!['\n']
        } else {
            seq![',', '\n']
        }));
    }
}

/// The `lines` and `functions` arrays of the JSON document are well
/// formed: each holds one object per row of its table, in table order,
/// with a comma after every object but the last, and the document ends
/// with the two arrays and the closing brace.
pub proof fn law_json_arrays(p: ProfileV)
    ensures
        exists|head: Seq<char>|
            json_text(p) == head + "  \"lines\": [\n"@ + array_body(
                Seq::new(p.lines.len(), |i: int| line_object(p.lines[i])),
            ) + "  ],\n"@ + "  \"functions\": [\n"@ + array_body(
                Seq::new(p.funcs.len(), |i: int| func_object(p.funcs[i])),
            ) + "  ]\n"@ + "}\n"@,
{
    let lo = Seq::new(p.lines.len(), |i: int| line_object(p.lines[i]));
    let fo = Seq::new(p.funcs.len(), |i: int| func_object(p.funcs[i]));
    if p.lines.len() > 0 {
        lemma_lines_array(p.lines, p.lines.len() as int);
    } else {
        assert(lines_json(p.lines, 0) == Seq::<char>::empty());
    }
    if p.funcs.len() > 0 {
        lemma_funcs_array(p.funcs, p.funcs.len() as int);
    } else {
        assert(funcs_json(p.funcs, 0) == Seq::<char>::empty());
    }
    assert(lines_json(p.lines, p.lines.len() as int) == array_body(lo));
    assert(funcs_json(p.funcs, p.funcs.len() as int) == array_body(fo));
    let head = "{\n"@ + "  \"tool\": \"bashprof\",\n"@ + "  \"version\": \""@ + VERSION@ + "\",\n"@
        + "  \"script\": "@ + (match p.script {
        Some(s) => quoted(s),
        None => "null"@,
    }) + ",\n"@ + "  \"exit_code\": "@ + (match p.exit_code {
        Some(rc) => idec(rc as int),
        None => "null"@,
    }) + ",\n"@ + "  \"total_us\": "@ + dec(p.total_us as nat) + ",\n"@ + "  \"commands\": "@ + dec(
        p.commands as nat,
    ) + ",\n"@ + "  \"skipped_lines\": "@ + dec(p.skipped) + ",\n"@ + "  \"files\": ["@ + files_list(
        p.files,
        p.files.len() as int,
    ) + "],\n"@;
    assert(json_text(p) =~= head + "  \"lines\": [\n"@ + array_body(lo) + "  ],\n"@ + "  \"functions\": [\n"@
        + array_body(fo) + "  ]\n"@ + "}\n"@);
}

proof fn lemma_files_list(files: Seq<Seq<char>>, k: int)
    requires
        0 <= k <= files.len(),
    ensures
        files_list(files, k) == join(files.take(k).map_values(|f: Seq<char>| quoted(f)), ", "@),
    decreases k,
{
    let q = files.take(k).map_values(|f: Seq<char>| quoted(f));
    if k >= 2 {
        lemma_files_list(files, k - 1);
        let prev = files.take(k - 1).map_values(|f: Seq<char>| quoted(f));
        assert(q =~= prev.push(quoted(files[k - 1])));
        lemma_join_push(prev, quoted(files[k - 1]), ", "@);
    } else if k == 1 {
        assert(q =~= seq![quoted(files[0])]);
    } else {
        assert(q =~= Seq::<Seq<char>>::empty());
    }
}

/// The whole JSON document, field by field: tool and version; the script,
/// quoted and escaped, or `null`; the exit code or `null`; the total wall
/// time, the command count and the skipped-line count as integers; the
/// files as a list of quoted names; then the `lines` and `functions`
/// arrays, one object per table row.
pub proof fn law_json_document(p: ProfileV)
    ensures
        json_text(p) == "{\n"@ + "  \"tool\": \"bashprof\",\n"@ + "  \"version\": \""@ + VERSION@ + "\",\n"@
            + "  \"script\": "@ + (match p.script {
            Some(s) => quoted(s),
            None => "null"@,
        }) + ",\n"@ + "  \"exit_code\": "@ + (match p.exit_code {
            Some(rc) => idec(rc as int),
            None => "null"@,
        }) + ",\n"@ + "  \"total_us\": "@ + dec(p.total_us as nat) + ",\n"@ + "  \"commands\": "@ + dec(
            p.commands as nat,
        ) + ",\n"@ + "  \"skipped_lines\": "@ + dec(p.skipped) + ",\n"@ + "  \"files\": ["@ + join(
            p.files.map_values(|f: Seq<char>| quoted(f)),
            ", "@,
        ) + "],\n"@ + "  \"lines\": [\n"@ + array_body(Seq::new(p.lines.len(), |i: int| line_object(p.lines[i])))
            + "  ],\n"@ + "  \"functions\": [\n"@ + array_body(
            Seq::new(p.funcs.len(), |i: int| func_object(p.funcs[i])),
        ) + "  ]\n"@ + "}\n"@,
{
    lemma_files_list(p.files, p.files.len() as int);
    assert(p.files.take(p.files.len() as int) =~= p.files);
    let lo = Seq::new(p.lines.len(), |i: int| line_object(p.lines[i]));
    let fo = Seq::new(p.funcs.len(), |i: int| func_object(p.funcs[i]));
    if p.lines.len() > 0 {
        lemma_lines_array(p.lines, p.lines.len() as int);
    } else {
        assert(lines_json(p.lines, 0) == Seq::<char>::empty());
    }
    if p.funcs.len() > 0 {
        lemma_funcs_array(p.funcs, p.funcs.len() as int);
    } else {
        assert(funcs_json(p.funcs, 0) == Seq::<char>::empty());
    }
}

} // verus!
