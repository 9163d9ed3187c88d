//! The one-line JSON report of a run.
use vstd::prelude::*;

use crate::runner::Metrics;
use crate::text::{decimal, digit_char, push_char, push_decimal, push_text};

verus! {

// ---------------------------------------------------------------------------
// What the report says, as text.
// ---------------------------------------------------------------------------

/// The lower-case hexadecimal digit of `d < 16`.
pub open spec fn hex_digit(d: u32) -> char {
    if d < 10 {
        (48 + d) as char
    } else {
        (87 + d) as char
    }
}

/// A character as it stands inside a JSON string.
pub open spec fn escape_char(c: char) -> Seq<char> {
    if c == '"' {
        seq!['\\', '"']
    } else if c == '\\' {
        seq!['\\', '\\']
    } else if c == '\n' {
        seq!['\\', 'n']
    } else if c == '\r' {
        seq!['\\', 'r']
    } else if c == '\t' {
        seq!['\\', 't']
    } else if (c as u32) < 0x20 {
        seq!['\\', 'u', '0', '0', hex_digit((c as u32) / 16), hex_digit((c as u32) % 16)]
    } else {
        seq![c]
    }
}

/// Every character of `s` escaped.
pub open spec fn escape_text(s: Seq<char>) -> Seq<char>
    decreases s.len(),
{
    if s.len() == 0 {
        Seq::empty()
    } else {
        escape_text(s.drop_last()) + escape_char(s.last())
    }
}

/// `s` as a JSON string literal.
pub open spec fn json_quoted(s: Seq<char>) -> Seq<char> {
    seq!['"'] + escape_text(s) + seq!['"']
}

/// An optional text as JSON: a string literal, or `null`.
pub open spec fn json_optional(s: Option<Seq<char>>) -> Seq<char> {
    match s {
        Some(t) => json_quoted(t),
        None => "null"@,
    }
}

/// The report line of a run.
pub open spec fn report_text(
    tool: Seq<char>,
    property: Seq<char>,
    status: Seq<char>,
    inputs: nat,
    elapsed_us: nat,
    counterexample: Option<Seq<char>>,
    error: Option<Seq<char>>,
) -> Seq<char> {
    "{\"status\":"@ + json_quoted(status) + ",\"tests\":"@ + decimal(inputs)
        + ",\"discards\":0,\"time\":"@ + json_quoted(decimal(elapsed_us) + "us"@)
        + ",\"counterexample\":"@ + json_optional(counterexample) + ",\"error\":"@
        + json_optional(error) + ",\"tool\":"@ + json_quoted(tool) + ",\"property\":"@
        + json_quoted(property) + "}"@
}

// ---------------------------------------------------------------------------
// Reading a JSON string literal back (RFC 8259, section 7).
// ---------------------------------------------------------------------------

/// The value of `c` as a hexadecimal digit, if it is one.
pub open spec fn hex_value(c: char) -> Option<nat> {
    let v = c as u32;
    if 48 <= v <= 57 {
        Some((v - 48) as nat)
    } else if 97 <= v <= 102 {
        Some((v - 87) as nat)
    } else if 65 <= v <= 70 {
        Some((v - 55) as nat)
    } else {
        None
    }
}

/// The number that the four hexadecimal digits `t[i..i + 4]` spell, if they
/// are four such digits.
pub open spec fn hex4(t: Seq<char>, i: int) -> Option<nat> {
    if 0 <= i && i + 4 <= t.len() {
        match (hex_value(t[i]), hex_value(t[i + 1]), hex_value(t[i + 2]), hex_value(t[i + 3])) {
            (Some(a), Some(b), Some(c), Some(d)) => Some(a * 4096 + b * 256 + c * 16 + d),
            _ => None,
        }
    } else {
        None
    }
}

/// `c` in front of the decoded rest, if the rest decodes.
pub open spec fn prefixed(c: char, rest: Option<Seq<char>>) -> Option<Seq<char>> {
    match rest {
        Some(u) => Some(seq![c] + u),
        None => None,
    }
}

/// The text that `t`, the inside of a JSON string literal, stands for; `None`
/// when `t` is not a valid inside: a bare quote or control character, an
/// unknown escape, or a lone surrogate.
pub open spec fn json_unescape(t: Seq<char>) -> Option<Seq<char>>
    decreases t.len(),
{
    if t.len() == 0 {
        Some(Seq::empty())
    } else if t[0] == '\\' {
        if t.len() < 2 {
            None
        } else if t[1] == '"' {
            prefixed('"', json_unescape(t.skip(2)))
        } else if t[1] == '\\' {
            prefixed('\\', json_unescape(t.skip(2)))
        } else if t[1] == '/' {
            prefixed('/', json_unescape(t.skip(2)))
        } else if t[1] == 'b' {
            prefixed('\u{8}', json_unescape(t.skip(2)))
        } else if t[1] == 'f' {
            prefixed('\u{c}', json_unescape(t.skip(2)))
        } else if t[1] == 'n' {
            prefixed('\n', json_unescape(t.skip(2)))
        } else if t[1] == 'r' {
            prefixed('\r', json_unescape(t.skip(2)))
        } else if t[1] == 't' {
            prefixed('\t', json_unescape(t.skip(2)))
        } else if t[1] == 'u' && t.len() >= 6 {
            match hex4(t, 2) {
                Some(v) => if 0xD800 <= v < 0xDC00 {
                    if t.len() >= 12 && t[6] == '\\' && t[7] == 'u' {
                        match hex4(t, 8) {
                            Some(w) => if 0xDC00 <= w < 0xE000 {
                                prefixed(
                                    (0x10000 + (v - 0xD800) * 0x400 + (w - 0xDC00)) as char,
                                    json_unescape(t.skip(12)),
                                )
                            } else {
                                None
                            },
                            None => None,
                        }
                    } else {
                        None
                    }
                } else if 0xDC00 <= v < 0xE000 {
                    None
                } else {
                    prefixed(v as char, json_unescape(t.skip(6)))
                },
                None => None,
            }
        } else {
            None
        }
    } else if t[0] == '"' || (t[0] as u32) < 0x20 {
        None
    } else {
        prefixed(t[0], json_unescape(t.skip(1)))
    }
}

/// The text that the JSON string literal `q` stands for, if it is one.
pub open spec fn json_decode(q: Seq<char>) -> Option<Seq<char>> {
    if q.len() >= 2 && q[0] == '"' && q[q.len() - 1] == '"' {
        json_unescape(q.subrange(1, q.len() - 1))
    } else {
        None
    }
}

proof fn lemma_hex_digit_value(d: u32)
    requires
        d < 16,
    ensures
        hex_value(hex_digit(d)) == Some(d as nat),
        hex_digit(d) as u32 >= 0x20,
{
    if d < 10 {
        assert(((48 + d) as char) as u32 == 48 + d);
    } else {
        assert(((87 + d) as char) as u32 == 87 + d);
    }
}

proof fn lemma_escape_char_printable(c: char)
    ensures
        forall|i: int| 0 <= i < escape_char(c).len() ==> escape_char(c)[i] as u32 >= 0x20,
{
    if c != '"' && c != '\\' && c != '\n' && c != '\r' && c != '\t' && (c as u32) < 0x20 {
        lemma_hex_digit_value((c as u32) / 16);
        lemma_hex_digit_value((c as u32) % 16);
    }
}

proof fn lemma_escape_text_printable(s: Seq<char>)
    ensures
        forall|i: int| 0 <= i < escape_text(s).len() ==> escape_text(s)[i] as u32 >= 0x20,
    decreases s.len(),
{
    if s.len() > 0 {
        lemma_escape_text_printable(s.drop_last());
        lemma_escape_char_printable(s.last());
        let a = escape_text(s.drop_last());
        let b = escape_char(s.last());
        assert forall|i: int| 0 <= i < (a + b).len() implies (a + b)[i] as u32 >= 0x20 by {
            if i < a.len() {
                assert((a + b)[i] == a[i]);
            } else {
                assert((a + b)[i] == b[i - a.len()]);
            }
        }
    }
}

/// Decoding the escape of one character and then `t` gives the character in
/// front of what `t` decodes to.
proof fn lemma_unescape_char(c: char, t: Seq<char>)
    ensures
        json_unescape(escape_char(c) + t) == prefixed(c, json_unescape(t)),
{
    let e = escape_char(c);
    let x = e + t;
    if c == '"' || c == '\\' || c == '\n' || c == '\r' || c == '\t' {
        assert(x[0] == '\\' && x[1] == e[1]);
        assert(x.skip(2) =~= t);
    } else if (c as u32) < 0x20 {
        let v = c as u32;
        lemma_hex_digit_value(v / 16);
        lemma_hex_digit_value(v % 16);
        assert(x[0] == '\\' && x[1] == 'u' && x[2] == '0' && x[3] == '0');
        assert(x[4] == hex_digit(v / 16) && x[5] == hex_digit(v % 16));
        assert(hex_value('0') == Some(0nat));
        assert(hex4(x, 2) == Some(((v / 16) * 16 + v % 16) as nat));
        assert((v / 16) * 16 + v % 16 == v);
        assert((v as nat) as char == c);
        assert(x.skip(6) =~= t);
    } else {
        assert(x[0] == c);
        assert(x.skip(1) =~= t);
    }
}

/// Decoding the escape of `s` and then `t` gives `s` in front of what `t`
/// decodes to.
proof fn lemma_unescape_text(s: Seq<char>, t: Seq<char>)
    ensures
        json_unescape(escape_text(s) + t) == match json_unescape(t) {
            Some(u) => Some(s + u),
            None => None,
        },
    decreases s.len(),
{
    if s.len() == 0 {
        assert(escape_text(s) + t =~= t);
        if let Some(u) = json_unescape(t) {
            assert(s + u =~= u);
        }
    } else {
        let p = s.drop_last();
        let c = s.last();
        let t2 = escape_char(c) + t;
        lemma_unescape_text(p, t2);
        lemma_unescape_char(c, t);
        assert(escape_text(s) + t =~= escape_text(p) + t2);
        if let Some(u) = json_unescape(t) {
            assert(p + (seq![c] + u) =~= s + u);
        }
    }
}

/// What `json_str` makes is a JSON string literal that stands for its input:
/// it starts and ends with a quote, holds no control character, and decodes
/// back to exactly the input.
pub proof fn law_json_str_round_trip(s: Seq<char>)
    ensures
        json_quoted(s).len() >= 2,
        json_quoted(s)[0] == '"',
        json_quoted(s)[json_quoted(s).len() - 1] == '"',
        forall|i: int| 0 <= i < json_quoted(s).len() ==> json_quoted(s)[i] as u32 >= 0x20,
        json_decode(json_quoted(s)) == Some(s),
{
    let e = escape_text(s);
    let q = json_quoted(s);
    lemma_escape_text_printable(s);
    assert forall|i: int| 0 <= i < q.len() implies q[i] as u32 >= 0x20 by {
        if i == 0 || i == q.len() - 1 {
        } else {
            assert(q[i] == e[i - 1]);
        }
    }
    assert(q.subrange(1, q.len() - 1) =~= e);
    lemma_unescape_text(s, Seq::empty());
    assert(e + Seq::<char>::empty() =~= e);
    assert(s + Seq::<char>::empty() =~= s);
}

// ---------------------------------------------------------------------------
// The report is one line.
// ---------------------------------------------------------------------------

proof fn lemma_concat_lacks(a: Seq<char>, b: Seq<char>, x: char)
    requires
        !a.contains(x),
        !b.contains(x),
    ensures
        !(a + b).contains(x),
{
    if (a + b).contains(x) {
        let j = choose|j: int| 0 <= j < (a + b).len() && (a + b)[j] == x;
        if j < a.len() {
            assert(a[j] == x);
        } else {
            assert(b[j - a.len()] == x);
        }
    }
}

proof fn lemma_escape_one_line(s: Seq<char>)
    ensures
        !escape_text(s).contains('\n'),
    decreases s.len(),
{
    if s.len() > 0 {
        lemma_escape_one_line(s.drop_last());
        let c = s.last();
        let e = escape_char(c);
        assert(!e.contains('\n')) by {
            if e.contains('\n') {
                let j = choose|j: int| 0 <= j < e.len() && e[j] == '\n';
                assert(e[j] == '\n');
            }
        }
        lemma_concat_lacks(escape_text(s.drop_last()), e, '\n');
    }
}

proof fn lemma_decimal_one_line(n: nat)
    ensures
        !decimal(n).contains('\n'),
    decreases n,
{
    if n >= 10 {
        lemma_decimal_one_line(n / 10);
        lemma_concat_lacks(decimal(n / 10), seq![digit_char(n % 10)], '\n');
        assert(decimal(n) =~= decimal(n / 10) + seq![digit_char(n % 10)]);
    }
}

proof fn lemma_quoted_one_line(s: Seq<char>)
    ensures
        !json_quoted(s).contains('\n'),
{
    lemma_escape_one_line(s);
    lemma_concat_lacks(seq!['"'], escape_text(s), '\n');
    lemma_concat_lacks(seq!['"'] + escape_text(s), seq!['"'], '\n');
}

proof fn lemma_optional_one_line(s: Option<Seq<char>>)
    ensures
        !json_optional(s).contains('\n'),
{
    match s {
        Some(t) => lemma_quoted_one_line(t),
        None => {
            reveal_strlit("null");
        },
    }
}

/// A run's report is a single line: whatever the tool, property, status,
/// counterexample and error texts hold, the report has no line break.
pub proof fn law_report_is_one_line(
    tool: Seq<char>,
    property: Seq<char>,
    status: Seq<char>,
    inputs: nat,
    elapsed_us: nat,
    counterexample: Option<Seq<char>>,
    error: Option<Seq<char>>,
)
    ensures
        !report_text(tool, property, status, inputs, elapsed_us, counterexample, error).contains(
            '\n',
        ),
{
    reveal_strlit("{\"status\":");
    reveal_strlit(",\"tests\":");
    reveal_strlit(",\"discards\":0,\"time\":");
    reveal_strlit("us");
    reveal_strlit(",\"counterexample\":");
    reveal_strlit(",\"error\":");
    reveal_strlit(",\"tool\":");
    reveal_strlit(",\"property\":");
    reveal_strlit("}");
    lemma_quoted_one_line(status);
    lemma_decimal_one_line(inputs);
    lemma_decimal_one_line(elapsed_us);
    lemma_concat_lacks(decimal(elapsed_us), "us"@, '\n');
    lemma_quoted_one_line(decimal(elapsed_us) + "us"@);
    lemma_optional_one_line(counterexample);
    lemma_optional_one_line(error);
    lemma_quoted_one_line(tool);
    lemma_quoted_one_line(property);
    let p1 = "{\"status\":"@ + json_quoted(status);
    lemma_concat_lacks("{\"status\":"@, json_quoted(status), '\n');
    let p2 = p1 + ",\"tests\":"@;
    lemma_concat_lacks(p1, ",\"tests\":"@, '\n');
    let p3 = p2 + decimal(inputs);
    lemma_concat_lacks(p2, decimal(inputs), '\n');
    let p4 = p3 + ",\"discards\":0,\"time\":"@;
    lemma_concat_lacks(p3, ",\"discards\":0,\"time\":"@, '\n');
    let p5 = p4 + json_quoted(decimal(elapsed_us) + "us"@);
    lemma_concat_lacks(p4, json_quoted(decimal(elapsed_us) + "us"@), '\n');
    let p6 = p5 + ",\"counterexample\":"@;
    lemma_concat_lacks(p5, ",\"counterexample\":"@, '\n');
    let p7 = p6 + json_optional(counterexample);
    lemma_concat_lacks(p6, json_optional(counterexample), '\n');
    let p8 = p7 + ",\"error\":"@;
    lemma_concat_lacks(p7, ",\"error\":"@, '\n');
    let p9 = p8 + json_optional(error);
    lemma_concat_lacks(p8, json_optional(error), '\n');
    let p10 = p9 + ",\"tool\":"@;
    lemma_concat_lacks(p9, ",\"tool\":"@, '\n');
    let p11 = p10 + json_quoted(tool);
    lemma_concat_lacks(p10, json_quoted(tool), '\n');
    let p12 = p11 + ",\"property\":"@;
    lemma_concat_lacks(p11, ",\"property\":"@, '\n');
    let p13 = p12 + json_quoted(property);
    lemma_concat_lacks(p12, json_quoted(property), '\n');
    lemma_concat_lacks(p13, "}"@, '\n');
}

// ---------------------------------------------------------------------------
// Building it.
// ---------------------------------------------------------------------------

fn hex_char(d: u32) -> (c: char)
    requires
        d < 16,
    ensures
        c == hex_digit(d),
{
    if d < 10 {
        let b: u8 = (48 + d) as u8;
        b as char
    } else {
        let b: u8 = (87 + d) as u8;
        b as char
    }
}

/// Appends `c` as it stands inside a JSON string.
fn push_escaped(out: &mut String, c: char)
    ensures
        final(out)@ == old(out)@ + escape_char(c),
{
    let ghost start = out@;
    if c == '"' {
        push_char(out, '\\');
        push_char(out, '"');
    } else if c == '\\' {
        push_char(out, '\\');
        push_char(out, '\\');
    } else if c == '\n' {
        push_char(out, '\\');
        push_char(out, 'n');
    } else if c == '\r' {
        push_char(out, '\\');
        push_char(out, 'r');
    } else if c == '\t' {
        push_char(out, '\\');
        push_char(out, 't');
    } else if (c as u32) < 0x20 {
        let code = c as u32;
        push_char(out, '\\');
        push_char(out, 'u');
        push_char(out, '0');
        push_char(out, '0');
        push_char(out, hex_char(code / 16));
        push_char(out, hex_char(code % 16));
    } else {
        push_char(out, c);
    }
    assert(out@ =~= start + escape_char(c));
}

/// `s` as a JSON string literal: quoted, with quotes, backslashes and
/// control characters escaped.
pub fn json_str(s: &str) -> (r: String)
    ensures
        r@ == json_quoted(s@),
{
    let mut out = String::new();
    push_char(&mut out, '"');
    let n = s.unicode_len();
    let mut i: usize = 0;
    while i < n
        invariant
            n == s@.len(),
            i <= n,
            out@ == seq!['"'] + escape_text(s@.take(i as int)),
        decreases n - i,
    {
        let c = s.get_char(i);
        push_escaped(&mut out, c);
        i += 1;
        assert(s@.take(i as int).drop_last() =~= s@.take(i - 1));
        assert(out@ =~= seq!['"'] + escape_text(s@.take(i as int)));
    }
    assert(s@.take(n as int) =~= s@);
    push_char(&mut out, '"');
    out
}

/// Appends `s` as JSON, or `null` when absent.
fn push_optional(out: &mut String, s: Option<&str>)
    ensures
        final(out)@ == old(out)@ + json_optional(
            match s {
                Some(t) => Some(t@),
                None => None,
            },
        ),
{
    match s {
        Some(t) => {
            let q = json_str(t);
            push_text(out, q.as_str());
        },
        None => push_text(out, "null"),
    }
}

/// The report line of a run of `property` with `tool`.
pub fn report_line(
    tool: &str,
    property: &str,
    status: &str,
    metrics: Metrics,
    counterexample: Option<&str>,
    error: Option<&str>,
) -> (r: String)
    ensures
        r@ == report_text(
            tool@,
            property@,
            status@,
            metrics.inputs as nat,
            metrics.elapsed_us as nat,
            match counterexample {
                Some(t) => Some(t@),
                None => None,
            },
            match error {
                Some(t) => Some(t@),
                None => None,
            },
        ),
{
    let mut out = String::new();
    push_text(&mut out, "{\"status\":");
    let q = json_str(status);
    push_text(&mut out, q.as_str());
    push_text(&mut out, ",\"tests\":");
    push_decimal(&mut out, metrics.inputs as u128);
    push_text(&mut out, ",\"discards\":0,\"time\":");
    let mut time = String::new();
    push_decimal(&mut time, metrics.elapsed_us);
    push_text(&mut time, "us");
    let q = json_str(time.as_str());
    push_text(&mut out, q.as_str());
    push_text(&mut out, ",\"counterexample\":");
    push_optional(&mut out, counterexample);
    push_text(&mut out, ",\"error\":");
    push_optional(&mut out, error);
    push_text(&mut out, ",\"tool\":");
    let q = json_str(tool);
    push_text(&mut out, q.as_str());
    push_text(&mut out, ",\"property\":");
    let q = json_str(property);
    push_text(&mut out, q.as_str());
    push_text(&mut out, "}");
    out
}

} // verus!
