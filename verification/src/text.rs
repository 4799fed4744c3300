//! Text helpers: the fixed 64-symbol character alphabet, decimal
//! rendering of values, and decimal parsing of input lines.
use vstd::prelude::*;

use crate::errors::RunError;
use vstd::string::StrSliceExecFns;

verus! {

/// The alphabet as a character sequence: symbol `i` of the 64-symbol
/// alphabet is `awascii_seq()[i]`.
pub open spec fn awascii_seq() -> Seq<char> {
    "AWawJELYHOSIUMjelyhosiumPCNTpcntBDFGRbdfgr0123456789 .,!'()~_/;\n"@
}

/// The fixed 64-symbol alphabet, as a string.
pub fn awa_scii() -> (r: &'static str)
    ensures
        r@ == awascii_seq(),
        r@.len() == 64,
{
    proof {
        reveal_strlit("AWawJELYHOSIUMjelyhosiumPCNTpcntBDFGRbdfgr0123456789 .,!'()~_/;\n");
    }
    "AWawJELYHOSIUMjelyhosiumPCNTpcntBDFGRbdfgr0123456789 .,!'()~_/;\n"
}

/// The alphabet symbol at a given index.
pub fn awascii_at(i: usize) -> (c: char)
    requires
        i < 64,
    ensures
        c == awascii_seq()[i as int],
{
    let s = awa_scii();
    s.get_char(i)
}

/// The position of the first occurrence of `c` in `s` at or after `i`.
pub open spec fn spec_find_char(s: Seq<char>, c: char, i: int) -> Option<int>
    decreases s.len() - i,
{
    if i < 0 || i >= s.len() {
        None
    } else if s[i] == c {
        Some(i)
    } else {
        spec_find_char(s, c, i + 1)
    }
}

/// The index of a character in the alphabet, if it occurs there.
pub open spec fn spec_awascii_index(c: char) -> Option<int> {
    spec_find_char(awascii_seq(), c, 0)
}

/// Find a character's alphabet index: `Some` exactly for the 64
/// alphabet symbols.
pub fn awascii_index(c: char) -> (r: Option<u8>)
    ensures
        r is Some <==> spec_awascii_index(c) is Some,
        r is Some ==> Some(r->0 as int) == spec_awascii_index(c) && r->0 < 64,
{
    let s = awa_scii();
    let mut i: usize = 0;
    while i < 64
        invariant
            0 <= i <= 64,
            s@ == awascii_seq(),
            s@.len() == 64,
            spec_awascii_index(c) == spec_find_char(awascii_seq(), c, i as int),
        decreases 64 - i,
    {
        if s.get_char(i) == c {
            return Some(i as u8);
        }
        i += 1;
    }
    None
}

/// Append one character to a string.
///
/// Relies on `String::push`: appends the character to the end of the
/// string.
#[verifier::external_body]
pub(crate) fn push_char(s: &mut String, c: char)
    ensures
        final(s)@ == old(s)@.push(c),
{
    s.push(c);
}

/// The character for one decimal digit.
pub open spec fn spec_digit_char(d: int) -> char {
    if d == 0 {
        '0'
    } else if d == 1 {
        '1'
    } else if d == 2 {
        '2'
    } else if d == 3 {
        '3'
    } else if d == 4 {
        '4'
    } else if d == 5 {
        '5'
    } else if d == 6 {
        '6'
    } else if d == 7 {
        '7'
    } else if d == 8 {
        '8'
    } else {
        '9'
    }
}

/// The decimal rendering of a nonnegative value, most significant
/// digit first, no leading zeros (a lone `0` for zero).
pub open spec fn spec_udec(n: int) -> Seq<char>
    decreases n,
{
    if n <= 9 {
        seq![spec_digit_char(n)]
    } else {
        spec_udec(n / 10).push(spec_digit_char(n % 10))
    }
}

/// The decimal rendering of a value, a `-` sign first when negative.
pub open spec fn spec_dec(n: int) -> Seq<char> {
    if n < 0 {
        seq!['-'] + spec_udec(-n)
    } else {
        spec_udec(n)
    }
}

fn digit_char(d: u64) -> (c: char)
    requires
        d < 10,
    ensures
        c == spec_digit_char(d as int),
{
    match d {
        0 => '0',
        1 => '1',
        2 => '2',
        3 => '3',
        4 => '4',
        5 => '5',
        6 => '6',
        7 => '7',
        8 => '8',
        _ => '9',
    }
}

/// Append the decimal form of a nonnegative value.
pub(crate) fn push_udec(s: &mut String, n: u64)
    ensures
        final(s)@ == old(s)@ + spec_udec(n as int),
    decreases n,
{
    if n <= 9 {
        push_char(s, digit_char(n));
        proof {
            assert(final(s)@ =~= old(s)@ + spec_udec(n as int));
        }
    } else {
        push_udec(s, n / 10);
        push_char(s, digit_char(n % 10));
        proof {
            assert(final(s)@ =~= old(s)@ + spec_udec(n as int));
        }
    }
}

/// Append the decimal form of a signed 32-bit value.
pub fn push_decimal(s: &mut String, v: i32)
    ensures
        final(s)@ == old(s)@ + spec_dec(v as int),
{
    if v < 0 {
        push_char(s, '-');
        let mag: u64 = (-(v as i64)) as u64;
        push_udec(s, mag);
        proof {
            assert(final(s)@ =~= old(s)@ + spec_dec(v as int));
        }
    } else {
        push_udec(s, v as u64);
    }
}

/// Whether a character is a decimal digit.
pub open spec fn spec_is_digit(c: char) -> bool {
    '0' <= c && c <= '9'
}

/// The numeric value of a decimal digit character.
pub open spec fn spec_digit_val(c: char) -> int {
    c as int - '0' as int
}

/// The first position at or after `i` holding no decimal digit.
pub open spec fn spec_digits_end(s: Seq<char>, i: int) -> int
    decreases s.len() - i,
{
    if 0 <= i < s.len() && spec_is_digit(s[i]) {
        spec_digits_end(s, i + 1)
    } else {
        i
    }
}

/// The value of the digit run `s[i..j)`, most significant digit first.
pub open spec fn spec_digits_value(s: Seq<char>, i: int, j: int) -> int
    decreases j - i,
{
    if i >= j {
        0
    } else {
        spec_digits_value(s, i, j - 1) * 10 + spec_digit_val(s[j - 1])
    }
}

/// What a read-number instruction makes of an input line: an optional
/// leading `-`, then the longest run of decimal digits; everything
/// after the run is ignored. The line is rejected when the run is
/// empty or its value exceeds `i32::MAX` (even for a negated value).
pub open spec fn spec_parse_number(s: Seq<char>) -> Option<i32> {
    let neg = s.len() > 0 && s[0] == '-';
    let start: int = if neg {
        1
    } else {
        0
    };
    let end = spec_digits_end(s, start);
    let v = spec_digits_value(s, start, end);
    if end == start || v > i32::MAX {
        None
    } else if neg {
        Some((-v) as i32)
    } else {
        Some(v as i32)
    }
}

proof fn lemma_digits_end_props(s: Seq<char>, i: int)
    requires
        0 <= i <= s.len(),
    ensures
        i <= spec_digits_end(s, i) <= s.len(),
        spec_digits_end(s, i) == s.len() || !spec_is_digit(s[spec_digits_end(s, i)]),
        forall|t: int| i <= t < spec_digits_end(s, i) ==> spec_is_digit(#[trigger] s[t]),
    decreases s.len() - i,
{
    if i < s.len() && spec_is_digit(s[i]) {
        lemma_digits_end_props(s, i + 1);
    }
}

proof fn lemma_digits_value_nonneg(s: Seq<char>, i: int, j: int)
    requires
        forall|t: int| i <= t < j ==> spec_is_digit(#[trigger] s[t]),
    ensures
        spec_digits_value(s, i, j) >= 0,
    decreases j - i,
{
    if i < j {
        lemma_digits_value_nonneg(s, i, j - 1);
    }
}

proof fn lemma_digits_value_grows(s: Seq<char>, i: int, j: int, k: int)
    requires
        i <= j <= k,
        forall|t: int| i <= t < k ==> spec_is_digit(#[trigger] s[t]),
    ensures
        spec_digits_value(s, i, k) >= spec_digits_value(s, i, j),
    decreases k - j,
{
    lemma_digits_value_nonneg(s, i, j);
    if j < k {
        lemma_digits_value_grows(s, i, j, k - 1);
        lemma_digits_value_nonneg(s, i, k - 1);
    }
}

/// Parse an input line as a read-number instruction does, per
/// [`spec_parse_number`]; an unusable line is an error, never a guess.
pub fn parse_number_line(line: &str) -> (r: Result<i32, RunError>)
    ensures
        r is Ok <==> spec_parse_number(line@) is Some,
        r is Ok ==> Some(r->Ok_0) == spec_parse_number(line@),
        r is Err ==> r->Err_0 == RunError::InvalidNumberInput,
{
    let len = line.unicode_len();
    let neg = len > 0 && line.get_char(0) == '-';
    let start: usize = if neg {
        1
    } else {
        0
    };
    let ghost end = spec_digits_end(line@, start as int);
    proof {
        lemma_digits_end_props(line@, start as int);
    }
    let mut i: usize = start;
    let mut acc: i64 = 0;
    while i < len
        invariant
            len == line@.len(),
            start <= i <= end <= len,
            start == if neg { 1int } else { 0int },
            neg == (line@.len() > 0 && line@[0] == '-'),
            end == spec_digits_end(line@, start as int),
            forall|t: int| start <= t < end ==> spec_is_digit(#[trigger] line@[t]),
            end == len || !spec_is_digit(line@[end]),
            acc == spec_digits_value(line@, start as int, i as int),
            0 <= acc <= i32::MAX,
        ensures
            i as int == end,
            acc == spec_digits_value(line@, start as int, end),
            0 <= acc <= i32::MAX,
        decreases len - i,
    {
        let c = line.get_char(i);
        if c < '0' || c > '9' {
            proof {
                assert(!spec_is_digit(line@[i as int]));
                assert(i as int == end);
            }
            break ;
        }
        proof {
            assert(spec_is_digit(line@[i as int]));
            assert(i as int != end ==> i < end);
            assert(i as int != end);
        }
        let d: i64 = char_digit_val(c) as i64;
        acc = acc * 10 + d;
        i += 1;
        proof {
            assert(acc == spec_digits_value(line@, start as int, i as int));
        }
        if acc > (i32::MAX as i64) {
            proof {
                lemma_digits_value_grows(line@, start as int, i as int, end);
                assert(spec_digits_value(line@, start as int, end) > i32::MAX);
            }
            return Err(RunError::InvalidNumberInput);
        }
    }
    if i == start {
        return Err(RunError::InvalidNumberInput);
    }
    let v: i32 = acc as i32;
    if neg {
        Ok(0i32.wrapping_sub(v))
    } else {
        Ok(v)
    }
}

fn char_digit_val(c: char) -> (d: i32)
    requires
        spec_is_digit(c),
    ensures
        d == spec_digit_val(c),
        0 <= d <= 9,
{
    (c as u32 as i32) - ('0' as u32 as i32)
}

} // verus!
