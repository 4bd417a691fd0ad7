use vstd::prelude::*;

use crate::calibration::push_char;
use crate::numbers::digit_value;
use crate::text::chars_of;

verus! {

/// The English name of the digit `d`, for `d` from 1 to 9.
pub open spec fn word_of(d: int) -> Seq<char> {
    if d == 1 {
        seq!['o', 'n', 'e']
    } else if d == 2 {
        seq!['t', 'w', 'o']
    } else if d == 3 {
        seq!['t', 'h', 'r', 'e', 'e']
    } else if d == 4 {
        seq!['f', 'o', 'u', 'r']
    } else if d == 5 {
        seq!['f', 'i', 'v', 'e']
    } else if d == 6 {
        seq!['s', 'i', 'x']
    } else if d == 7 {
        seq!['s', 'e', 'v', 'e', 'n']
    } else if d == 8 {
        seq!['e', 'i', 'g', 'h', 't']
    } else {
        seq!['n', 'i', 'n', 'e']
    }
}

/// The character of the digit `d`, for `d` from 1 to 9.
pub open spec fn digit_char(d: int) -> char {
    if d == 1 {
        '1'
    } else if d == 2 {
        '2'
    } else if d == 3 {
        '3'
    } else if d == 4 {
        '4'
    } else if d == 5 {
        '5'
    } else if d == 6 {
        '6'
    } else if d == 7 {
        '7'
    } else if d == 8 {
        '8'
    } else {
        '9'
    }
}

pub open spec fn occurs_at(s: Seq<char>, i: int, pat: Seq<char>) -> bool {
    0 <= i && i + pat.len() <= s.len() && s.subrange(i, i + pat.len()) == pat
}

/// At index `i` of `s` begins the digit `d`, written as a digit or spelled out.
pub open spec fn spells_at(s: Seq<char>, i: int, d: int) -> bool {
    1 <= d <= 9 && (occurs_at(s, i, seq![digit_char(d)]) || occurs_at(s, i, word_of(d)))
}

pub open spec fn nothing_spelled_at(s: Seq<char>, i: int) -> bool {
    forall|d: int| 1 <= d <= 9 ==> !#[trigger] spells_at(s, i, d)
}

/// Some digit is written or spelled out somewhere in `s`.
pub open spec fn has_digit(s: Seq<char>) -> bool {
    exists|i: int, d: int| spells_at(s, i, d)
}

/// The digit `d` is the first one that `s` writes or spells out.
pub open spec fn is_first_digit(s: Seq<char>, d: int) -> bool {
    exists|i: int|
        spells_at(s, i, d) && forall|j: int| 0 <= j < i ==> #[trigger] nothing_spelled_at(s, j)
}

/// The digit `d` is the last one that `s` writes or spells out.
pub open spec fn is_last_digit(s: Seq<char>, d: int) -> bool {
    exists|i: int|
        spells_at(s, i, d) && forall|j: int| i < j < s.len() ==> #[trigger] nothing_spelled_at(s, j)
}

fn word(d: u32) -> (r: Vec<char>)
    requires
        1 <= d <= 9,
    ensures
        r@ == word_of(d as int),
{
    let r = match d {
        1 => vec!['o', 'n', 'e'],
        2 => vec!['t', 'w', 'o'],
        3 => vec!['t', 'h', 'r', 'e', 'e'],
        4 => vec!['f', 'o', 'u', 'r'],
        5 => vec!['f', 'i', 'v', 'e'],
        6 => vec!['s', 'i', 'x'],
        7 => vec!['s', 'e', 'v', 'e', 'n'],
        8 => vec!['e', 'i', 'g', 'h', 't'],
        _ => vec!['n', 'i', 'n', 'e'],
    };
    assert(r@ =~= word_of(d as int));
    r
}

fn digit(d: u32) -> (r: char)
    requires
        1 <= d <= 9,
    ensures
        r == digit_char(d as int),
        digit_value(r) == d,
{
    match d {
        1 => '1',
        2 => '2',
        3 => '3',
        4 => '4',
        5 => '5',
        6 => '6',
        7 => '7',
        8 => '8',
        _ => '9',
    }
}

fn occurs(cs: &Vec<char>, i: usize, pat: &Vec<char>) -> (r: bool)
    ensures
        r == occurs_at(cs@, i as int, pat@),
{
    if i > cs.len() || pat.len() > cs.len() - i {
        return false;
    }
    let n = cs.len();
    let mut k: usize = 0;
    while k < pat.len()
        invariant
            n == cs@.len(),
            i + pat@.len() <= cs@.len(),
            k <= pat@.len(),
            forall|j: int| 0 <= j < k ==> cs@[i + j] == pat@[j],
        decreases pat.len() - k,
    {
        if cs[i + k] != pat[k] {
            assert(cs@.subrange(i as int, i + pat@.len())[k as int] != pat@[k as int]);
            return false;
        }
        k = k + 1;
    }
    assert(cs@.subrange(i as int, i + pat@.len()) =~= pat@);
    true
}

/// The digit that begins at index `i`, if one does.
fn digit_at(cs: &Vec<char>, i: usize) -> (r: Option<u32>)
    ensures
        r matches Some(d) ==> spells_at(cs@, i as int, d as int),
        r is None ==> nothing_spelled_at(cs@, i as int),
{
    let mut d: u32 = 1;
    while d <= 9
        invariant
            1 <= d <= 10,
            forall|e: int| 1 <= e < d ==> !#[trigger] spells_at(cs@, i as int, e),
        decreases 10 - d,
    {
        let numeral = vec![digit(d)];
        assert(numeral@ =~= seq![digit_char(d as int)]);
        if occurs(cs, i, &numeral) || occurs(cs, i, &word(d)) {
            return Some(d);
        }
        d = d + 1;
    }
    None
}

/// The first digit that the line writes or spells out.
pub fn get_first_digit(line: &str) -> (r: char)
    requires
        has_digit(line@),
    ensures
        exists|d: int| is_first_digit(line@, d) && r == digit_char(d),
{
    let cs = chars_of(line);
    let mut i: usize = 0;
    while i < cs.len()
        invariant
            cs@ == line@,
            i <= cs@.len(),
            forall|j: int| 0 <= j < i ==> #[trigger] nothing_spelled_at(cs@, j),
        decreases cs.len() - i,
    {
        if let Some(d) = digit_at(&cs, i) {
            assert(is_first_digit(line@, d as int));
            return digit(d);
        }
        i = i + 1;
    }
    proof {
        let (j, d) = choose|j: int, d: int| spells_at(line@, j, d);
        assert(nothing_spelled_at(cs@, j));
    }
    '1'
}

/// The last digit that the line writes or spells out.
pub fn get_last_digit(line: &str) -> (r: char)
    requires
        has_digit(line@),
    ensures
        exists|d: int| is_last_digit(line@, d) && r == digit_char(d),
{
    let cs = chars_of(line);
    let mut i: usize = cs.len();
    while i > 0
        invariant
            cs@ == line@,
            i <= cs@.len(),
            forall|j: int| i <= j < cs@.len() ==> #[trigger] nothing_spelled_at(cs@, j),
        decreases i,
    {
        if let Some(d) = digit_at(&cs, i - 1) {
            assert(is_last_digit(line@, d as int));
            return digit(d);
        }
        i = i - 1;
    }
    proof {
        let (j, d) = choose|j: int, d: int| spells_at(line@, j, d);
        assert(nothing_spelled_at(cs@, j));
    }
    '1'
}

/// The first and the last digit of the line, side by side.
pub fn get_two_digit_number(line: &str) -> (r: String)
    requires
        has_digit(line@),
    ensures
        r@.len() == 2,
        exists|d: int| is_first_digit(line@, d) && r@[0] == digit_char(d),
        exists|d: int| is_last_digit(line@, d) && r@[1] == digit_char(d),
{
    let mut ret = String::new();
    push_char(&mut ret, get_first_digit(line));
    push_char(&mut ret, get_last_digit(line));
    ret
}

/// The two-digit number made of the first and the last digit of the line.
pub fn get_calibration_value(line: &str) -> (r: i32)
    requires
        has_digit(line@),
    ensures
        exists|a: int, b: int|
            is_first_digit(line@, a) && is_last_digit(line@, b) && r == 10 * a + b,
{
    let first = get_first_digit(line);
    let last = get_last_digit(line);
    let ghost a = choose|d: int| is_first_digit(line@, d) && first == digit_char(d);
    let ghost b = choose|d: int| is_last_digit(line@, d) && last == digit_char(d);
    proof {
        let i = choose|i: int|
            spells_at(line@, i, a) && forall|j: int| 0 <= j < i ==> #[trigger] nothing_spelled_at(line@, j);
        let k = choose|k: int|
            spells_at(line@, k, b) && forall|j: int| k < j < line@.len() ==> #[trigger] nothing_spelled_at(line@, j);
    }
    let x = (first as u32 - '0' as u32) as i32;
    let y = (last as u32 - '0' as u32) as i32;
    10 * x + y
}

/// No index begins two different digits: the words and the digit characters differ in
/// their first two characters.
pub proof fn lemma_one_digit_per_index(s: Seq<char>, i: int, d1: int, d2: int)
    requires
        spells_at(s, i, d1),
        spells_at(s, i, d2),
    ensures
        d1 == d2,
{
    let w1 = word_of(d1);
    let w2 = word_of(d2);
    if occurs_at(s, i, seq![digit_char(d1)]) {
        assert(s.subrange(i, i + 1)[0] == s[i]);
    } else {
        assert(s.subrange(i, i + w1.len())[0] == s[i]);
        assert(s.subrange(i, i + w1.len())[1] == s[i + 1]);
    }
    if occurs_at(s, i, seq![digit_char(d2)]) {
        assert(s.subrange(i, i + 1)[0] == s[i]);
    } else {
        assert(s.subrange(i, i + w2.len())[0] == s[i]);
        assert(s.subrange(i, i + w2.len())[1] == s[i + 1]);
    }
}

/// A line has one first digit.
pub proof fn lemma_first_digit_unique(s: Seq<char>, d1: int, d2: int)
    requires
        is_first_digit(s, d1),
        is_first_digit(s, d2),
    ensures
        d1 == d2,
{
    let i1 = choose|i: int|
        spells_at(s, i, d1) && forall|j: int| 0 <= j < i ==> #[trigger] nothing_spelled_at(s, j);
    let i2 = choose|i: int|
        spells_at(s, i, d2) && forall|j: int| 0 <= j < i ==> #[trigger] nothing_spelled_at(s, j);
    if i1 < i2 {
        assert(nothing_spelled_at(s, i1));
    } else if i2 < i1 {
        assert(nothing_spelled_at(s, i2));
    } else {
        lemma_one_digit_per_index(s, i1, d1, d2);
    }
}

/// A line has one last digit.
pub proof fn lemma_last_digit_unique(s: Seq<char>, d1: int, d2: int)
    requires
        is_last_digit(s, d1),
        is_last_digit(s, d2),
    ensures
        d1 == d2,
{
    let i1 = choose|i: int|
        spells_at(s, i, d1) && forall|j: int| i < j < s.len() ==> #[trigger] nothing_spelled_at(s, j);
    let i2 = choose|i: int|
        spells_at(s, i, d2) && forall|j: int| i < j < s.len() ==> #[trigger] nothing_spelled_at(s, j);
    if i1 < i2 {
        assert(nothing_spelled_at(s, i2));
    } else if i2 < i1 {
        assert(nothing_spelled_at(s, i1));
    } else {
        lemma_one_digit_per_index(s, i1, d1, d2);
    }
}

/// The calibration value of a line that writes or spells out a digit.
pub open spec fn spelled_value(s: Seq<char>) -> int {
    10 * (choose|d: int| is_first_digit(s, d)) + (choose|d: int| is_last_digit(s, d))
}

/// The sum of the calibration values of the lines, if each writes or spells a digit.
pub open spec fn spelled_total(lines: Seq<Seq<char>>) -> Option<int>
    decreases lines.len(),
{
    if lines.len() == 0 {
        Some(0)
    } else {
        match spelled_total(lines.drop_last()) {
            Some(t) => if has_digit(lines.last()) {
                Some(t + spelled_value(lines.last()))
            } else {
                None
            },
            None => None,
        }
    }
}

/// Whether the line writes or spells out a digit.
pub fn contains_digit(line: &str) -> (r: bool)
    ensures
        r == has_digit(line@),
{
    let cs = chars_of(line);
    let mut i: usize = 0;
    while i < cs.len()
        invariant
            cs@ == line@,
            i <= cs@.len(),
            forall|j: int| 0 <= j < i ==> #[trigger] nothing_spelled_at(cs@, j),
        decreases cs.len() - i,
    {
        if digit_at(&cs, i).is_some() {
            return true;
        }
        i = i + 1;
    }
    proof {
        if has_digit(line@) {
            let (j, d) = choose|j: int, d: int| spells_at(line@, j, d);
            assert(nothing_spelled_at(cs@, j));
        }
    }
    false
}

proof fn lemma_spelled_total_grows(lines: Seq<Seq<char>>, i: int)
    requires
        0 <= i <= lines.len(),
    ensures
        spelled_total(lines.subrange(0, i)) is None ==> spelled_total(lines) is None,
        spelled_total(lines) matches Some(t) ==> (spelled_total(lines.subrange(0, i)) matches Some(a) && 0 <= a <= t),
    decreases lines.len(),
{
    if lines.len() == 0 {
        assert(lines.subrange(0, i) =~= lines);
    } else {
        let l = lines.last();
        if has_digit(l) {
            let a = choose|d: int| is_first_digit(l, d);
            let b = choose|d: int| is_last_digit(l, d);
            lemma_digit_exists(l);
            assert(1 <= a <= 9 && 1 <= b <= 9);
        }
        if i == lines.len() {
            assert(lines.subrange(0, i) =~= lines);
            lemma_spelled_total_grows(lines.drop_last(), i - 1);
            assert(lines.drop_last().subrange(0, i - 1) =~= lines.drop_last());
        } else {
            lemma_spelled_total_grows(lines.drop_last(), i);
            assert(lines.drop_last().subrange(0, i) =~= lines.subrange(0, i));
            lemma_spelled_total_grows(lines.drop_last(), lines.len() - 1);
            assert(lines.drop_last().subrange(0, lines.len() - 1) =~= lines.drop_last());
        }
    }
}

/// A line that writes or spells out a digit has a first and a last one.
proof fn lemma_digit_exists(s: Seq<char>)
    requires
        has_digit(s),
    ensures
        exists|d: int| is_first_digit(s, d),
        exists|d: int| is_last_digit(s, d),
        forall|d: int| is_first_digit(s, d) ==> 1 <= d <= 9,
        forall|d: int| is_last_digit(s, d) ==> 1 <= d <= 9,
{
    let (j, e) = choose|j: int, e: int| spells_at(s, j, e);
    lemma_first_from(s, j, e);
    lemma_last_from(s, j, e);
}

/// From a digit at `j`, some digit at or before `j` is the first one.
proof fn lemma_first_from(s: Seq<char>, j: int, e: int)
    requires
        spells_at(s, j, e),
    ensures
        exists|d: int| is_first_digit(s, d),
    decreases j,
{
    if forall|k: int| 0 <= k < j ==> #[trigger] nothing_spelled_at(s, k) {
        assert(is_first_digit(s, e));
    } else {
        let k = choose|k: int| 0 <= k < j && !#[trigger] nothing_spelled_at(s, k);
        let f = choose|f: int| 1 <= f <= 9 && #[trigger] spells_at(s, k, f);
        lemma_first_from(s, k, f);
    }
}

/// From a digit at `j`, some digit at or after `j` is the last one.
proof fn lemma_last_from(s: Seq<char>, j: int, e: int)
    requires
        spells_at(s, j, e),
    ensures
        exists|d: int| is_last_digit(s, d),
    decreases s.len() - j,
{
    if forall|k: int| j < k < s.len() ==> #[trigger] nothing_spelled_at(s, k) {
        assert(is_last_digit(s, e));
    } else {
        let k = choose|k: int| j < k < s.len() && !#[trigger] nothing_spelled_at(s, k);
        let f = choose|f: int| 1 <= f <= 9 && #[trigger] spells_at(s, k, f);
        assert(occurs_at(s, j, seq![digit_char(e)]) || occurs_at(s, j, word_of(e)));
        lemma_last_from(s, k, f);
    }
}

/// The sum of the calibration values of the lines; `None` where a line writes no digit
/// or the sum does not fit in an `i32`.
pub fn get_calibration_value_sum(lines: &Vec<String>) -> (r: Option<i32>)
    ensures
        match r {
            Some(v) => spelled_total(lines@.map_values(|l: String| l@)) == Some(v as int),
            None => match spelled_total(lines@.map_values(|l: String| l@)) {
                Some(t) => t > i32::MAX,
                None => true,
            },
        },
{
    let ghost all = lines@.map_values(|l: String| l@);
    let mut sum: i32 = 0;
    let mut i: usize = 0;
    assert(all.subrange(0, 0) =~= Seq::<Seq<char>>::empty());
    while i < lines.len()
        invariant
            all == lines@.map_values(|l: String| l@),
            i <= lines@.len(),
            spelled_total(all.subrange(0, i as int)) == Some(sum as int),
            sum >= 0,
        decreases lines.len() - i,
    {
        assert(all.subrange(0, i + 1).drop_last() =~= all.subrange(0, i as int));
        let line = lines[i].as_str();
        if !contains_digit(line) {
            proof {
                lemma_spelled_total_grows(all, i + 1);
            }
            return None;
        }
        let v = get_calibration_value(line);
        proof {
            let l = all[i as int];
            let (a, b) = choose|a: int, b: int|
                is_first_digit(l, a) && is_last_digit(l, b) && v == 10 * a + b;
            lemma_first_digit_unique(l, a, choose|d: int| is_first_digit(l, d));
            lemma_last_digit_unique(l, b, choose|d: int| is_last_digit(l, d));
            assert(v as int == spelled_value(l));
            assert(all.subrange(0, i + 1).last() == l);
        }
        if v > i32::MAX - sum {
            proof {
                lemma_spelled_total_grows(all, i + 1);
            }
            return None;
        }
        sum = sum + v;
        i = i + 1;
    }
    assert(all.subrange(0, all.len() as int) =~= all);
    Some(sum)
}

} // verus!
