use vstd::prelude::*;

verus! {

/// The characters of `s`, in order.
pub fn chars_of(s: &str) -> (r: Vec<char>)
    ensures
        r@ == s@,
{
    let mut r: Vec<char> = Vec::new();
    for c in it: s.chars()
        invariant
            it.seq() == s@,
            r@ == it.seq().subrange(0, it.index() as int),
    {
        r.push(c);
    }
    r
}

/// Whether `c` has Unicode's White_Space property: tab to carriage return, space, next
/// line, no-break space, the Ogham space mark, the spaces from en quad to hair space,
/// the line and paragraph separators, the narrow no-break and medium mathematical
/// spaces, and the ideographic space.
pub open spec fn white_space(c: char) -> bool {
    let u = c as u32;
    (0x09 <= u <= 0x0d) || u == 0x20 || u == 0x85 || u == 0xa0 || u == 0x1680 || (0x2000 <= u
        <= 0x200a) || u == 0x2028 || u == 0x2029 || u == 0x202f || u == 0x205f || u == 0x3000
}

/// Whether `c` is white space.
pub fn is_white_space(c: char) -> (r: bool)
    ensures
        r == white_space(c),
{
    #[verifier::truncate]
    let u = c as u32;
    (0x09 <= u && u <= 0x0d) || u == 0x20 || u == 0x85 || u == 0xa0 || u == 0x1680 || (0x2000
        <= u && u <= 0x200a) || u == 0x2028 || u == 0x2029 || u == 0x202f || u == 0x205f || u
        == 0x3000
}

/// `s` without its leading white space.
pub open spec fn strip_front(s: Seq<char>) -> Seq<char>
    decreases s.len(),
{
    if s.len() > 0 && white_space(s[0]) {
        strip_front(s.drop_first())
    } else {
        s
    }
}

/// `s` without its trailing white space.
pub open spec fn strip_back(s: Seq<char>) -> Seq<char>
    decreases s.len(),
{
    if s.len() > 0 && white_space(s.last()) {
        strip_back(s.drop_last())
    } else {
        s
    }
}

/// `s` without white space at either end.
pub open spec fn trimmed(s: Seq<char>) -> Seq<char> {
    strip_back(strip_front(s))
}

/// The lines of `s`, split at each line feed; a text without one is a single line.
pub open spec fn split_rows(s: Seq<char>) -> Seq<Seq<char>>
    decreases s.len(),
{
    if s.len() == 0 {
        seq![Seq::empty()]
    } else {
        let rows = split_rows(s.drop_last());
        if s.last() == '\n' {
            rows.push(Seq::empty())
        } else {
            rows.update(rows.len() - 1, rows.last().push(s.last()))
        }
    }
}

pub proof fn lemma_split_rows_nonempty(s: Seq<char>)
    ensures
        split_rows(s).len() >= 1,
    decreases s.len(),
{
    if s.len() > 0 {
        lemma_split_rows_nonempty(s.drop_last());
    }
}

/// The lines of a prefix of `s` are the first lines of `s`, the last of them
/// possibly cut short.
pub proof fn lemma_split_rows_prefix(s: Seq<char>, i: int)
    requires
        0 <= i <= s.len(),
    ensures
        split_rows(s.subrange(0, i)).len() <= split_rows(s).len(),
        forall|r: int|
            0 <= r < split_rows(s.subrange(0, i)).len() - 1 ==> #[trigger] split_rows(
                s.subrange(0, i),
            )[r] == split_rows(s)[r],
        split_rows(s.subrange(0, i)).last().is_prefix_of(
            split_rows(s)[split_rows(s.subrange(0, i)).len() - 1],
        ),
    decreases s.len(),
{
    lemma_split_rows_nonempty(s);
    lemma_split_rows_nonempty(s.subrange(0, i));
    if i == s.len() {
        assert(s.subrange(0, i) =~= s);
    } else {
        let t = s.drop_last();
        assert(t.subrange(0, i) =~= s.subrange(0, i));
        lemma_split_rows_prefix(t, i);
        lemma_split_rows_nonempty(t);
    }
}

/// A character that is not white space survives trimming at the front, and what is
/// left is a suffix of `s`.
pub proof fn lemma_strip_front_keeps(s: Seq<char>, i: int)
    requires
        0 <= i < s.len(),
        !white_space(s[i]),
    ensures
        exists|lo: int| 0 <= lo <= i && strip_front(s) == s.subrange(lo, s.len() as int),
    decreases s.len(),
{
    if white_space(s[0]) {
        let t = s.drop_first();
        assert(t[i - 1] == s[i]);
        lemma_strip_front_keeps(t, i - 1);
        let lo = choose|lo: int| 0 <= lo <= i - 1 && strip_front(t) == t.subrange(lo, t.len() as int);
        assert(t.subrange(lo, t.len() as int) =~= s.subrange(lo + 1, s.len() as int));
    } else {
        assert(s.subrange(0, s.len() as int) =~= s);
    }
}

/// A character that is not white space survives trimming at the back, and what is
/// left is a prefix of `s`.
pub proof fn lemma_strip_back_keeps(s: Seq<char>, i: int)
    requires
        0 <= i < s.len(),
        !white_space(s[i]),
    ensures
        exists|hi: int| i < hi <= s.len() && strip_back(s) == s.subrange(0, hi),
    decreases s.len(),
{
    if white_space(s.last()) {
        let t = s.drop_last();
        lemma_strip_back_keeps(t, i);
        let hi = choose|hi: int| i < hi <= t.len() && strip_back(t) == t.subrange(0, hi);
        assert(t.subrange(0, hi) =~= s.subrange(0, hi));
    } else {
        assert(s.subrange(0, s.len() as int) =~= s);
    }
}

/// A character of `s` that is not white space stands in `trimmed(s)`.
pub proof fn lemma_trimmed_keeps(s: Seq<char>, i: int)
    requires
        0 <= i < s.len(),
        !white_space(s[i]),
    ensures
        exists|j: int| 0 <= j < trimmed(s).len() && trimmed(s)[j] == s[i],
{
    lemma_strip_front_keeps(s, i);
    let lo = choose|lo: int| 0 <= lo <= i && strip_front(s) == s.subrange(lo, s.len() as int);
    let f = strip_front(s);
    assert(f[i - lo] == s[i]);
    lemma_strip_back_keeps(f, i - lo);
    let hi = choose|hi: int| i - lo < hi <= f.len() && strip_back(f) == f.subrange(0, hi);
    assert(trimmed(s)[i - lo] == s[i]);
}

/// A character of `t` other than a line feed stands in one of its lines.
pub proof fn lemma_split_rows_keeps(t: Seq<char>, j: int)
    requires
        0 <= j < t.len(),
        t[j] != '\n',
    ensures
        exists|r: int, c: int|
            0 <= r < split_rows(t).len() && 0 <= c < split_rows(t)[r].len() && split_rows(t)[r][c]
                == t[j],
{
    let p = t.subrange(0, j + 1);
    lemma_split_rows_prefix(t, j + 1);
    lemma_split_rows_nonempty(p.drop_last());
    assert(p.drop_last() =~= t.subrange(0, j));
    let rows = split_rows(p);
    let last = rows.len() - 1;
    assert(rows[last].last() == t[j]);
    let c = rows[last].len() - 1;
    assert(split_rows(t)[last][c] == t[j]);
}

/// `s` with white space removed at both ends.
pub fn trim(s: &Vec<char>) -> (r: Vec<char>)
    ensures
        r@ == trimmed(s@),
{
    let n = s.len();
    let mut lo: usize = 0;
    assert(s@.subrange(0, n as int) =~= s@);
    while lo < n && is_white_space(s[lo])
        invariant
            n == s@.len(),
            lo <= n,
            strip_front(s@) == strip_front(s@.subrange(lo as int, n as int)),
        decreases n - lo,
    {
        assert(s@.subrange(lo as int, n as int).drop_first() =~= s@.subrange(
            lo + 1,
            n as int,
        ));
        lo = lo + 1;
    }
    let ghost front = s@.subrange(lo as int, n as int);
    assert(strip_front(s@) == front);
    let mut hi: usize = n;
    while hi > lo && is_white_space(s[hi - 1])
        invariant
            n == s@.len(),
            lo <= hi <= n,
            strip_back(front) == strip_back(s@.subrange(lo as int, hi as int)),
        decreases hi,
    {
        assert(s@.subrange(lo as int, hi as int).drop_last() =~= s@.subrange(
            lo as int,
            hi - 1,
        ));
        hi = hi - 1;
    }
    assert(strip_back(front) == s@.subrange(lo as int, hi as int));
    let mut r: Vec<char> = Vec::new();
    let mut i: usize = lo;
    while i < hi
        invariant
            n == s@.len(),
            lo <= i <= hi <= n,
            r@ == s@.subrange(lo as int, i as int),
        decreases hi - i,
    {
        r.push(s[i]);
        i = i + 1;
        assert(r@ =~= s@.subrange(lo as int, i as int));
    }
    r
}

/// `sep` occurs in `s` at index `i`.
pub open spec fn occurs_at(s: Seq<char>, sep: Seq<char>, i: int) -> bool {
    0 <= i && i + sep.len() <= s.len() && s.subrange(i, i + sep.len()) == sep
}

/// The first occurrence of `sep` in `s` is at index `i`.
pub open spec fn first_occurrence(s: Seq<char>, sep: Seq<char>, i: int) -> bool {
    occurs_at(s, sep, i) && forall|j: int| 0 <= j < i ==> !#[trigger] occurs_at(s, sep, j)
}

/// The text before and the text after the first occurrence of `sep` in `s`, if any.
pub open spec fn cut_at(s: Seq<char>, sep: Seq<char>) -> Option<(Seq<char>, Seq<char>)> {
    if exists|i: int| #[trigger] first_occurrence(s, sep, i) {
        let i = choose|i: int| #[trigger] first_occurrence(s, sep, i);
        Some((s.subrange(0, i), s.subrange(i + sep.len(), s.len() as int)))
    } else {
        None
    }
}

/// The pieces of `s` between the occurrences of a non-empty `sep`, found from the left.
pub open spec fn split_on(s: Seq<char>, sep: Seq<char>) -> Seq<Seq<char>>
    decreases s.len(),
{
    if sep.len() > 0 && exists|i: int| #[trigger] first_occurrence(s, sep, i) {
        let i = choose|i: int| #[trigger] first_occurrence(s, sep, i);
        seq![s.subrange(0, i)] + split_on(s.subrange(i + sep.len(), s.len() as int), sep)
    } else {
        seq![s]
    }
}

/// Relies on `str::split_once`: the text before and after the first occurrence of the
/// separator, or `None` where it does not occur.
#[verifier::external_body]
pub(crate) fn cut_once(s: &str, sep: &str) -> (r: Option<(String, String)>)
    requires
        sep@.len() > 0,
    ensures
        match r {
            Some((a, b)) => cut_at(s@, sep@) == Some((a@, b@)),
            None => cut_at(s@, sep@) is None,
        },
{
    s.split_once(sep).map(|(a, b)| (a.to_string(), b.to_string()))
}

/// Relies on `str::split` with a non-empty separator: the pieces between its
/// occurrences, found from the left.
#[verifier::external_body]
pub(crate) fn split_text(s: &str, sep: &str) -> (r: Vec<String>)
    requires
        sep@.len() > 0,
    ensures
        r@.map_values(|p: String| p@) == split_on(s@, sep@),
{
    s.split(sep).map(|p| p.to_string()).collect()
}

/// The words of `s`: its maximal runs of characters that are not white space.
pub open spec fn words_of(s: Seq<char>) -> Seq<Seq<char>>
    decreases s.len(),
{
    if s.len() == 0 {
        Seq::empty()
    } else {
        let words = words_of(s.drop_last());
        if white_space(s.last()) {
            words
        } else if s.len() >= 2 && !white_space(s[s.len() - 2]) {
            words.update(words.len() - 1, words.last().push(s.last()))
        } else {
            words.push(seq![s.last()])
        }
    }
}

/// Relies on `str::split_whitespace`: the maximal runs of characters that are not
/// white space, in order.
#[verifier::external_body]
pub(crate) fn words(s: &str) -> (r: Vec<String>)
    ensures
        r@.map_values(|p: String| p@) == words_of(s@),
{
    s.split_whitespace().map(|p| p.to_string()).collect()
}

/// Relies on `String`'s `FromIterator<char>`: the string of the characters, in order.
#[verifier::external_body]
pub(crate) fn string_of(cs: &Vec<char>) -> (r: String)
    ensures
        r@ == cs@,
{
    cs.iter().collect()
}

/// `s` without one carriage return at its end.
pub open spec fn without_cr(s: Seq<char>) -> Seq<char> {
    if s.len() > 0 && s.last() == '\r' {
        s.drop_last()
    } else {
        s
    }
}

/// The lines of a text: cut at each line feed, a carriage return just before a line
/// feed dropped, and no empty last line after a final line feed.
pub open spec fn lines_of(s: Seq<char>) -> Seq<Seq<char>> {
    let parts = split_on(s, seq!['\n']);
    let ended = parts.drop_last().map_values(|l: Seq<char>| without_cr(l));
    if parts.last().len() == 0 {
        ended
    } else {
        ended.push(parts.last())
    }
}

/// Relies on `str::lines`: the text cut at each line feed, a carriage return just
/// before a line feed dropped, and no empty last line after a final line feed.
#[verifier::external_body]
pub(crate) fn lines(s: &str) -> (r: Vec<String>)
    ensures
        r@.map_values(|p: String| p@) == lines_of(s@),
{
    s.lines().map(|p| p.to_string()).collect()
}

} // verus!
