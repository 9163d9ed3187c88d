//! Building text: characters, literals, decimal numerals, and the debug
//! renderings of optional numbers and number lists.
use vstd::prelude::*;

verus! {

/// The decimal digit of `d < 10`.
pub open spec fn digit_char(d: nat) -> char {
    (48 + d) as char
}

/// The decimal numeral of `n`.
pub open spec fn decimal(n: nat) -> Seq<char>
    decreases n,
{
    if n < 10 {
        seq![digit_char(n)]
    } else {
        decimal(n / 10).push(digit_char(n % 10))
    }
}

/// The number that a string of decimal digits denotes, read from the left.
pub open spec fn numeral_value(s: Seq<char>) -> int
    decreases s.len(),
{
    if s.len() == 0 {
        0
    } else {
        numeral_value(s.drop_last()) * 10 + (s.last() as int - 48)
    }
}

/// The numeral of `n` is made of decimal digits, has no leading zero, and
/// reads back as `n`.
pub proof fn law_decimal_reads_back(n: nat)
    ensures
        decimal(n).len() > 0,
        forall|i: int| 0 <= i < decimal(n).len() ==> '0' <= #[trigger] decimal(n)[i] <= '9',
        n > 0 ==> decimal(n)[0] != '0',
        numeral_value(decimal(n)) == n,
    decreases n,
{
    if n < 10 {
        assert(digit_char(n) as int == 48 + n);
        assert(decimal(n).drop_last() =~= Seq::<char>::empty());
        assert(numeral_value(Seq::<char>::empty()) == 0);
        assert(decimal(n).last() == digit_char(n));
    } else {
        let q = n / 10;
        let r = n % 10;
        law_decimal_reads_back(q);
        assert(digit_char(r) as int == 48 + r);
        let d = decimal(n);
        assert(d.drop_last() =~= decimal(q));
        assert(d[0] == decimal(q)[0]);
        assert(d.last() == digit_char(r));
        assert(numeral_value(d) == numeral_value(decimal(q)) * 10 + r);
        assert(q * 10 + r == n);
    }
}

/// Appends one character.
///
/// Calls `String::push`, which appends the character to the end.
#[verifier::external_body]
pub fn push_char(out: &mut String, c: char)
    ensures
        final(out)@ == old(out)@.push(c),
{
    out.push(c);
}

/// Appends the characters of `s`.
pub fn push_text(out: &mut String, s: &str)
    ensures
        final(out)@ == old(out)@ + s@,
{
    let n = s.unicode_len();
    let ghost start = out@;
    let mut i: usize = 0;
    while i < n
        invariant
            n == s@.len(),
            i <= n,
            out@ == start + s@.take(i as int),
        decreases n - i,
    {
        push_char(out, s.get_char(i));
        i += 1;
        assert(out@ =~= start + s@.take(i as int));
    }
    assert(s@.take(n as int) =~= s@);
}

fn digit(d: u128) -> (c: char)
    requires
        d < 10,
    ensures
        c == digit_char(d as nat),
{
    let b: u8 = (48 + d) as u8;
    b as char
}

/// Appends the decimal numeral of `n`.
pub fn push_decimal(out: &mut String, n: u128)
    ensures
        final(out)@ == old(out)@ + decimal(n as nat),
    decreases n,
{
    let ghost start = out@;
    if n >= 10 {
        push_decimal(out, n / 10);
    }
    push_char(out, digit(n % 10));
    assert(out@ =~= start + decimal(n as nat));
}

/// How `{:?}` renders an optional number.
pub open spec fn debug_option(o: Option<u32>) -> Seq<char> {
    match o {
        Some(v) => "Some("@ + decimal(v as nat) + ")"@,
        None => "None"@,
    }
}

/// The numerals of `s`, separated by `", "`.
pub open spec fn joined(s: Seq<u32>) -> Seq<char>
    decreases s.len(),
{
    if s.len() == 0 {
        Seq::empty()
    } else if s.len() == 1 {
        decimal(s[0] as nat)
    } else {
        joined(s.drop_last()) + ", "@ + decimal(s.last() as nat)
    }
}

/// How `{:?}` renders a list of numbers.
pub open spec fn debug_list(s: Seq<u32>) -> Seq<char> {
    "["@ + joined(s) + "]"@
}

/// Appends the rendering of an optional number.
pub fn push_debug_option(out: &mut String, o: Option<u32>)
    ensures
        final(out)@ == old(out)@ + debug_option(o),
{
    let ghost start = out@;
    match o {
        Some(v) => {
            push_text(out, "Some(");
            push_decimal(out, v as u128);
            push_text(out, ")");
        },
        None => push_text(out, "None"),
    }
    assert(out@ =~= start + debug_option(o));
}

/// Appends the rendering of a list of numbers.
pub fn push_debug_list(out: &mut String, v: &Vec<u32>)
    ensures
        final(out)@ == old(out)@ + debug_list(v@),
{
    let ghost start = out@;
    push_text(out, "[");
    let mut i: usize = 0;
    while i < v.len()
        invariant
            i <= v@.len(),
            out@ == start + "["@ + joined(v@.take(i as int)),
        decreases v@.len() - i,
    {
        let ghost before = out@;
        if i > 0 {
            push_text(out, ", ");
        }
        push_decimal(out, v[i] as u128);
        i += 1;
        assert(v@.take(i as int).drop_last() =~= v@.take(i - 1));
        if i == 1 {
            assert(joined(v@.take(1)) =~= decimal(v@[0] as nat));
        }
        assert(out@ =~= start + "["@ + joined(v@.take(i as int)));
    }
    assert(v@.take(v@.len() as int) =~= v@);
    push_text(out, "]");
    assert(out@ =~= start + debug_list(v@));
}

} // verus!
