use vstd::prelude::*;

use crate::numbers::{digit_value, is_decimal_digit};
use crate::text::chars_of;

verus! {

/// Whether `c` counts as a number in Unicode's sense.
pub uninterp spec fn numeric(c: char) -> bool;

/// Relies on `char::is_numeric`: the answer depends on the character alone.
#[verifier::external_body]
pub(crate) fn is_numeric(c: char) -> (r: bool)
    ensures
        r == numeric(c),
{
    c.is_numeric()
}

/// Relies on `String::push`: appends the character at the end.
#[verifier::external_body]
pub(crate) fn push_char(s: &mut String, c: char)
    ensures
        final(s)@ == old(s)@.push(c),
{
    s.push(c)
}

/// The first numeric character of `s`, or `'a'` where it has none.
pub open spec fn first_numeric(s: Seq<char>) -> char
    decreases s.len(),
{
    if s.len() == 0 {
        'a'
    } else if numeric(s[0]) {
        s[0]
    } else {
        first_numeric(s.drop_first())
    }
}

/// The last numeric character of `s`, or `'a'` where it has none.
pub open spec fn last_numeric(s: Seq<char>) -> char
    decreases s.len(),
{
    if s.len() == 0 {
        'a'
    } else if numeric(s.last()) {
        s.last()
    } else {
        last_numeric(s.drop_last())
    }
}

/// The two-digit number made of the first and the last digit of a line, where both
/// are decimal digits.
pub open spec fn calibration_value(s: Seq<char>) -> Option<int> {
    if is_decimal_digit(first_numeric(s)) && is_decimal_digit(last_numeric(s)) {
        Some(10 * digit_value(first_numeric(s)) + digit_value(last_numeric(s)))
    } else {
        None
    }
}

/// The sum of the calibration values of all lines, if each line has one.
pub open spec fn calibration_total(lines: Seq<Seq<char>>) -> Option<int>
    decreases lines.len(),
{
    if lines.len() == 0 {
        Some(0)
    } else {
        match (calibration_total(lines.drop_last()), calibration_value(lines.last())) {
            (Some(a), Some(b)) => Some(a + b),
            _ => None,
        }
    }
}

/// The first numeric character of the line, or `'a'` where there is none.
pub fn get_first_digit(line: &str) -> (r: char)
    ensures
        r == first_numeric(line@),
{
    let cs = chars_of(line);
    let n = cs.len();
    let mut i: usize = 0;
    assert(cs@.subrange(0, n as int) =~= cs@);
    while i < n
        invariant
            n == cs@.len(),
            cs@ == line@,
            i <= n,
            first_numeric(line@) == first_numeric(cs@.subrange(i as int, n as int)),
        decreases n - i,
    {
        if is_numeric(cs[i]) {
            return cs[i];
        }
        assert(cs@.subrange(i as int, n as int).drop_first() =~= cs@.subrange(i + 1, n as int));
        i = i + 1;
    }
    'a'
}

/// The last numeric character of the line, or `'a'` where there is none.
pub fn get_last_digit(line: &str) -> (r: char)
    ensures
        r == last_numeric(line@),
{
    let cs = chars_of(line);
    let mut i: usize = cs.len();
    assert(cs@.subrange(0, i as int) =~= cs@);
    while i > 0
        invariant
            cs@ == line@,
            i <= cs@.len(),
            last_numeric(line@) == last_numeric(cs@.subrange(0, i as int)),
        decreases i,
    {
        if is_numeric(cs[i - 1]) {
            return cs[i - 1];
        }
        assert(cs@.subrange(0, i as int).drop_last() =~= cs@.subrange(0, i - 1));
        i = i - 1;
    }
    'a'
}

/// The first and the last digit of the line, side by side.
pub fn get_two_digit_number(line: &str) -> (r: String)
    ensures
        r@ == seq![first_numeric(line@), last_numeric(line@)],
{
    let mut ret = String::new();
    push_char(&mut ret, get_first_digit(line));
    push_char(&mut ret, get_last_digit(line));
    ret
}

/// The number that the first and last digit of the line spell; `None` where the line
/// has no digit, or one that is not a decimal digit.
pub fn get_calibration_value(line: &str) -> (r: Option<i32>)
    ensures
        r matches Some(v) ==> calibration_value(line@) == Some(v as int),
        r is None ==> calibration_value(line@) is None,
{
    let first = get_first_digit(line);
    let last = get_last_digit(line);
    if '0' <= first && first <= '9' && '0' <= last && last <= '9' {
        let a = (first as u32 - '0' as u32) as i32;
        let b = (last as u32 - '0' as u32) as i32;
        Some(10 * a + b)
    } else {
        None
    }
}

proof fn lemma_total_grows(lines: Seq<Seq<char>>, i: int)
    requires
        0 <= i <= lines.len(),
        calibration_total(lines) is Some,
    ensures
        calibration_total(lines.subrange(0, i)) is Some,
        0 <= calibration_total(lines.subrange(0, i))->Some_0 <= calibration_total(lines)->Some_0,
    decreases lines.len(),
{
    if lines.len() > 0 {
        if i == lines.len() {
            assert(lines.subrange(0, i) =~= lines);
            lemma_total_grows(lines.drop_last(), i - 1);
            assert(lines.drop_last().subrange(0, i - 1) =~= lines.drop_last());
        } else {
            lemma_total_grows(lines.drop_last(), i);
            assert(lines.drop_last().subrange(0, i) =~= lines.subrange(0, i));
        }
    }
}

/// The sum of the calibration values of the lines; `None` where a line has none or
/// the sum does not fit in an `i32`.
pub fn get_calibration_value_sum(lines: &Vec<String>) -> (r: Option<i32>)
    ensures
        r matches Some(v) ==> calibration_total(lines@.map_values(|l: String| l@)) == Some(v as int),
        r is None ==> match calibration_total(lines@.map_values(|l: String| l@)) {
            Some(t) => t > i32::MAX,
            None => true,
        },
{
    let ghost all = lines@.map_values(|l: String| l@);
    let mut sum: i32 = 0;
    let mut i: usize = 0;
    assert(all.subrange(0, 0) =~= Seq::<Seq<char>>::empty());
    while i < lines.len()
        invariant
            all == lines@.map_values(|l: String| l@),
            i <= lines@.len(),
            calibration_total(all.subrange(0, i as int)) == Some(sum as int),
            sum >= 0,
        decreases lines.len() - i,
    {
        assert(all.subrange(0, i + 1).drop_last() =~= all.subrange(0, i as int));
        match get_calibration_value(lines[i].as_str()) {
            Some(v) => {
                if v > i32::MAX - sum {
                    proof {
                        if calibration_total(all) is Some {
                            lemma_total_grows(all, i + 1);
                        }
                    }
                    return None;
                }
                sum = sum + v;
            },
            None => {
                proof {
                    if calibration_total(all) is Some {
                        lemma_total_grows(all, i + 1);
                    }
                }
                return None;
            },
        }
        i = i + 1;
    }
    assert(all.subrange(0, i as int) =~= all);
    Some(sum)
}

} // verus!
