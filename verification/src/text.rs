//! Character-level helpers for path strings: decimal digits, and the two
//! conversions between `String` and character vectors.
use vstd::prelude::*;

verus! {

pub open spec fn is_digit(c: char) -> bool {
    c == '0' || c == '1' || c == '2' || c == '3' || c == '4' || c == '5' || c == '6' || c == '7'
        || c == '8' || c == '9'
}

pub open spec fn digit_of(c: char) -> int {
    if c == '0' {
        0
    } else if c == '1' {
        1
    } else if c == '2' {
        2
    } else if c == '3' {
        3
    } else if c == '4' {
        4
    } else if c == '5' {
        5
    } else if c == '6' {
        6
    } else if c == '7' {
        7
    } else if c == '8' {
        8
    } else {
        9
    }
}

pub open spec fn digit_char(d: int) -> char {
    if d == 0 {
        '0'
    } else if d == 1 {
        '1'
    } else if d == 2 {
        '2'
    } else if d == 3 {
        '3'
    } else if d == 4 {
        '4'
    } else if d == 5 {
        '5'
    } else if d == 6 {
        '6'
    } else if d == 7 {
        '7'
    } else if d == 8 {
        '8'
    } else {
        '9'
    }
}

/// Decimal rendering of a non-negative integer, most significant digit first.
pub open spec fn dec_digits(n: int) -> Seq<char>
    decreases n,
{
    if n < 10 {
        seq![digit_char(n)]
    } else {
        dec_digits(n / 10).push(digit_char(n % 10))
    }
}

/// Decimal rendering of an integer, with a leading minus for negatives.
pub open spec fn render_int(i: int) -> Seq<char> {
    if i >= 0 {
        dec_digits(i)
    } else {
        seq!['-'] + dec_digits(-i)
    }
}

/// The value of a run of decimal digits, most significant first.
pub open spec fn digits_val(s: Seq<char>) -> int
    decreases s.len(),
{
    if s.len() == 0 {
        0
    } else {
        digits_val(s.drop_last()) * 10 + digit_of(s.last())
    }
}

pub proof fn lemma_digits_val_nonneg(s: Seq<char>)
    ensures
        digits_val(s) >= 0,
    decreases s.len(),
{
    if s.len() > 0 {
        lemma_digits_val_nonneg(s.drop_last());
    }
}

/// Parsing undoes rendering: the digits of `n` evaluate back to `n`.
pub proof fn lemma_digits_roundtrip(n: int)
    requires
        n >= 0,
    ensures
        digits_val(dec_digits(n)) == n,
        dec_digits(n).len() >= 1,
        forall|x: int| 0 <= x < dec_digits(n).len() ==> is_digit(#[trigger] dec_digits(n)[x]),
    decreases n,
{
    if n < 10 {
        let s = dec_digits(n);
        assert(s.drop_last() =~= Seq::<char>::empty());
        assert(digits_val(Seq::<char>::empty()) == 0);
        assert(s.last() == digit_char(n));
        assert(digit_of(digit_char(n)) == n);
    } else {
        lemma_digits_roundtrip(n / 10);
        let s = dec_digits(n);
        assert(s.drop_last() =~= dec_digits(n / 10));
        assert(s.last() == digit_char(n % 10));
        assert(digit_of(digit_char(n % 10)) == n % 10);
        vstd::arithmetic::div_mod::lemma_fundamental_div_mod(n, 10);
    }
}

/// The decimal digit denoted by a digit character.
pub fn digit_val(c: char) -> (r: u8)
    requires
        is_digit(c),
    ensures
        r as int == digit_of(c),
{
    match c {
        '0' => 0,
        '1' => 1,
        '2' => 2,
        '3' => 3,
        '4' => 4,
        '5' => 5,
        '6' => 6,
        '7' => 7,
        '8' => 8,
        _ => 9,
    }
}

pub fn char_is_digit(c: char) -> (r: bool)
    ensures
        r == is_digit(c),
{
    match c {
        '0' | '1' | '2' | '3' | '4' | '5' | '6' | '7' | '8' | '9' => true,
        _ => false,
    }
}

/// The digit character of a decimal digit.
pub fn digit_chr(d: u8) -> (r: char)
    requires
        d < 10,
    ensures
        r == digit_char(d as int),
{
    match d {
        0 => '0',
        1 => '1',
        2 => '2',
        3 => '3',
        4 => '4',
        5 => '5',
        6 => '6',
        7 => '7',
        8 => '8',
        _ => '9',
    }
}

/// Append the decimal digits of `n` to `out`.
pub fn push_dec_digits(out: &mut Vec<char>, n: u64)
    ensures
        final(out)@ == old(out)@ + dec_digits(n as int),
    decreases n,
{
    if n >= 10 {
        push_dec_digits(out, n / 10);
    }
    out.push(digit_chr((n % 10) as u8));
    proof {
        if n >= 10 {
            assert(final(out)@ =~= old(out)@ + dec_digits(n as int));
        } else {
            assert(final(out)@ =~= old(out)@ + dec_digits(n as int));
        }
    }
}

/// Append the decimal rendering of `i`, with a minus sign for negatives.
pub fn push_dec_int(out: &mut Vec<char>, i: isize)
    ensures
        final(out)@ == old(out)@ + render_int(i as int),
{
    if i >= 0 {
        push_dec_digits(out, i as u64);
    } else {
        out.push('-');
        let m: u64 = ((-(i + 1)) as u64) + 1;
        assert(m as int == -(i as int));
        push_dec_digits(out, m);
        proof {
            assert(final(out)@ =~= old(out)@ + render_int(i as int));
        }
    }
}

/// Relies on str::chars, which yields exactly the characters of the string,
/// in order.
#[verifier::external_body]
pub fn chars_of(s: &str) -> (r: Vec<char>)
    ensures
        r@ == s@,
{
    s.chars().collect()
}

/// Relies on String's FromIterator over char, which builds the string holding
/// exactly the given characters, in order.
#[verifier::external_body]
pub fn string_from_chars(v: &Vec<char>) -> (r: String)
    ensures
        r@ == v@,
{
    v.iter().collect()
}

/// A character that may appear in a bare map-key segment.
pub open spec fn is_name_char(c: char) -> bool {
    c != '#' && c != '/'
}

/// Length of the run of digit characters starting at `i`.
pub open spec fn count_digits(s: Seq<char>, i: int) -> nat
    decreases s.len() - i,
{
    if 0 <= i < s.len() && is_digit(s[i]) {
        1 + count_digits(s, i + 1)
    } else {
        0
    }
}

/// Length of the run of key characters starting at `i`.
pub open spec fn count_name(s: Seq<char>, i: int) -> nat
    decreases s.len() - i,
{
    if 0 <= i < s.len() && is_name_char(s[i]) {
        1 + count_name(s, i + 1)
    } else {
        0
    }
}

pub proof fn lemma_count_digits_run(s: Seq<char>, x: int, y: int)
    requires
        0 <= x <= y <= s.len(),
        forall|z: int| x <= z < y ==> is_digit(#[trigger] s[z]),
        y == s.len() || !is_digit(s[y]),
    ensures
        count_digits(s, x) == y - x,
    decreases y - x,
{
    if x < y {
        lemma_count_digits_run(s, x + 1, y);
    }
}

pub proof fn lemma_count_name_run(s: Seq<char>, x: int, y: int)
    requires
        0 <= x <= y <= s.len(),
        forall|z: int| x <= z < y ==> is_name_char(#[trigger] s[z]),
        y == s.len() || !is_name_char(s[y]),
    ensures
        count_name(s, x) == y - x,
    decreases y - x,
{
    if x < y {
        lemma_count_name_run(s, x + 1, y);
    }
}

} // verus!
