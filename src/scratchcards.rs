use vstd::prelude::*;

use vstd::arithmetic::power2::{lemma2_to64, lemma_pow2_strictly_increases, lemma_pow2_unfold, pow2};

use crate::numbers::{parse_u32, u32_of};
use crate::text::{chars_of, cut_at, cut_once, words, words_of};

verus! {

/// The numbers that the words of a text write, each once, in the order first seen;
/// `None` where a word is no number.
pub open spec fn numbers_of_words(ws: Seq<Seq<char>>) -> Option<Seq<u32>>
    decreases ws.len(),
{
    if ws.len() == 0 {
        Some(Seq::empty())
    } else {
        match (numbers_of_words(ws.drop_last()), u32_of(ws.last())) {
            (Some(ns), Some(n)) => if ns.contains(n) {
                Some(ns)
            } else {
                Some(ns.push(n))
            },
            _ => None,
        }
    }
}

/// A set of numbers on a scratchcard, each held once.
#[derive(Debug)]
pub struct Numbers {
    pub numbers: Vec<u32>,
}

/// A scratchcard: the winning numbers and the numbers you have.
#[derive(Debug)]
pub struct Card {
    pub numbers_winning: Numbers,
    pub numbers_you_have: Numbers,
}

/// The numbers and the numbers you have of a line such as
/// `Card 1: 41 48 83 86 17 | 83 86  6 31 17  9 48 53`.
pub open spec fn card_of(s: Seq<char>) -> Option<(Seq<u32>, Seq<u32>)> {
    match cut_at(s, seq![':', ' ']) {
        Some((_, rest)) => match cut_at(rest, seq![' ', '|', ' ']) {
            Some((w, h)) => match (numbers_of_words(words_of(w)), numbers_of_words(words_of(h))) {
                (Some(a), Some(b)) => Some((a, b)),
                _ => None,
            },
            None => None,
        },
        None => None,
    }
}

proof fn lemma_numbers_prefix_none(ws: Seq<Seq<char>>, i: int)
    requires
        0 <= i <= ws.len(),
        numbers_of_words(ws.subrange(0, i)) is None,
    ensures
        numbers_of_words(ws) is None,
    decreases ws.len() - i,
{
    if i < ws.len() {
        assert(ws.subrange(0, i + 1).drop_last() =~= ws.subrange(0, i));
        lemma_numbers_prefix_none(ws, i + 1);
    } else {
        assert(ws.subrange(0, i) =~= ws);
    }
}

fn contains(v: &Vec<u32>, n: u32) -> (r: bool)
    ensures
        r == v@.contains(n),
{
    let mut i: usize = 0;
    while i < v.len()
        invariant
            i <= v@.len(),
            forall|j: int| 0 <= j < i ==> v@[j] != n,
        decreases v.len() - i,
    {
        if v[i] == n {
            return true;
        }
        i = i + 1;
    }
    false
}

/// The winning numbers of a card that you have.
pub open spec fn matching_set(c: &Card) -> Set<u32> {
    c.numbers_winning.numbers@.to_set().intersect(c.numbers_you_have.numbers@.to_set())
}

impl Numbers {
    /// Reads numbers separated by white space, keeping each once.
    pub fn from(s: &str) -> (r: Option<Numbers>)
        ensures
            match r {
                Some(ns) => numbers_of_words(words_of(s@)) == Some(ns.numbers@)
                    && ns.numbers@.no_duplicates(),
                None => numbers_of_words(words_of(s@)) is None,
            },
    {
        let ws = words(s);
        let ghost wv = ws@.map_values(|p: String| p@);
        let mut numbers: Vec<u32> = Vec::new();
        let mut i: usize = 0;
        assert(wv.subrange(0, 0) =~= Seq::<Seq<char>>::empty());
        while i < ws.len()
            invariant
                wv == ws@.map_values(|p: String| p@),
                wv == words_of(s@),
                i <= ws@.len(),
                numbers_of_words(wv.subrange(0, i as int)) == Some(numbers@),
                numbers@.no_duplicates(),
            decreases ws.len() - i,
        {
            assert(wv.subrange(0, i + 1).drop_last() =~= wv.subrange(0, i as int));
            match parse_u32(&chars_of(ws[i].as_str())) {
                Some(n) => {
                    if !contains(&numbers, n) {
                        numbers.push(n);
                    }
                },
                None => {
                    proof {
                        lemma_numbers_prefix_none(wv, i + 1);
                    }
                    return None;
                },
            }
            i = i + 1;
        }
        assert(wv.subrange(0, wv.len() as int) =~= wv);
        Some(Numbers { numbers })
    }
}

impl Card {
    /// Reads a card such as `Card 1: 41 48 83 86 17 | 83 86  6 31 17  9 48 53`.
    pub fn from(s: &str) -> (r: Option<Card>)
        ensures
            match r {
                Some(c) => card_of(s@) == Some(
                    (c.numbers_winning.numbers@, c.numbers_you_have.numbers@),
                ) && c.numbers_winning.numbers@.no_duplicates(),
                None => card_of(s@) is None,
            },
    {
        proof {
            reveal_strlit(": ");
            reveal_strlit(" | ");
        }
        assert(": "@ =~= seq![':', ' ']);
        assert(" | "@ =~= seq![' ', '|', ' ']);
        let (_, rest) = match cut_once(s, ": ") {
            Some(parts) => parts,
            None => {
                return None;
            },
        };
        let (winning, have) = match cut_once(rest.as_str(), " | ") {
            Some(parts) => parts,
            None => {
                return None;
            },
        };
        let numbers_winning = match Numbers::from(winning.as_str()) {
            Some(ns) => ns,
            None => {
                return None;
            },
        };
        let numbers_you_have = match Numbers::from(have.as_str()) {
            Some(ns) => ns,
            None => {
                return None;
            },
        };
        Some(Card { numbers_winning, numbers_you_have })
    }

    /// The winning numbers that you have, each once.
    pub fn numbers_matching(&self) -> (r: Vec<u32>)
        requires
            self.numbers_winning.numbers@.no_duplicates(),
        ensures
            r@.no_duplicates(),
            r@.to_set() == matching_set(self),
            r@.len() == matching_set(self).len(),
    {
        let w = &self.numbers_winning.numbers;
        let h = &self.numbers_you_have.numbers;
        let mut r: Vec<u32> = Vec::new();
        let mut i: usize = 0;
        while i < w.len()
            invariant
                w == &self.numbers_winning.numbers,
                h == &self.numbers_you_have.numbers,
                w@.no_duplicates(),
                i <= w@.len(),
                r@.no_duplicates(),
                forall|x: u32| #[trigger] r@.contains(x) <==> (exists|j: int| 0 <= j < i && w@[j] == x) && h@.contains(x),
            decreases w.len() - i,
        {
            let n = w[i];
            let ghost old_r = r@;
            if contains(h, n) {
                proof {
                    if r@.contains(n) {
                        let j = choose|j: int| 0 <= j < i && w@[j] == n;
                        assert(w@[j] == w@[i as int]);
                    }
                }
                r.push(n);
                proof {
                    assert forall|x: u32| #[trigger] r@.contains(x) <==> (exists|j: int|
                        0 <= j < i + 1 && w@[j] == x) && h@.contains(x) by {
                        if r@.contains(x) {
                            if x == n {
                                assert(w@[i as int] == x);
                            } else {
                                let k = choose|k: int| 0 <= k < r@.len() && r@[k] == x;
                                assert(old_r[k] == x);
                                assert(old_r.contains(x));
                            }
                        }
                        if (exists|j: int| 0 <= j < i + 1 && w@[j] == x) && h@.contains(x) {
                            let j = choose|j: int| 0 <= j < i + 1 && w@[j] == x;
                            if j == i {
                                assert(r@[r@.len() - 1] == x);
                            } else {
                                assert(old_r.contains(x));
                                let k = choose|k: int| 0 <= k < old_r.len() && old_r[k] == x;
                                assert(r@[k] == x);
                            }
                        }
                    }
                }
            } else {
                proof {
                    assert forall|x: u32| #[trigger] r@.contains(x) <==> (exists|j: int|
                        0 <= j < i + 1 && w@[j] == x) && h@.contains(x) by {
                        if (exists|j: int| 0 <= j < i + 1 && w@[j] == x) && h@.contains(x) {
                            let j = choose|j: int| 0 <= j < i + 1 && w@[j] == x;
                            assert(j != i);
                        }
                    }
                }
            }
            i = i + 1;
        }
        proof {
            assert forall|x: u32| r@.to_set().contains(x) <==> #[trigger] matching_set(self).contains(x) by {
                if w@.contains(x) {
                    let j = choose|j: int| 0 <= j < w@.len() && w@[j] == x;
                }
            }
            assert(r@.to_set() =~= matching_set(self));
            r@.unique_seq_to_set();
        }
        r
    }

    /// The points a card is worth: one for the first match, doubled for each further one.
    pub fn worth(&self) -> (r: u64)
        requires
            self.numbers_winning.numbers@.no_duplicates(),
            matching_set(self).len() <= 64,
        ensures
            ({
                let k = matching_set(self).len();
                r == if k == 0 {
                    0
                } else {
                    pow2((k - 1) as nat)
                }
            }),
    {
        let matching = self.numbers_matching();
        let k = matching.len();
        if k == 0 {
            return 0;
        }
        proof {
            lemma2_to64();
        }
        let mut value: u64 = 1;
        let mut i: usize = 1;
        while i < k
            invariant
                1 <= i <= k,
                k <= 64,
                value == pow2((i - 1) as nat),
            decreases k - i,
        {
            proof {
                lemma2_to64();
                lemma_pow2_unfold(i as nat);
                lemma_pow2_strictly_increases(i as nat, 64);
            }
            value = value * 2;
            i = i + 1;
        }
        value
    }
}

/// The count of copies held of card `j`; none beyond the pile's end.
pub open spec fn entry(p: Seq<int>, j: int) -> int {
    if 0 <= j < p.len() {
        p[j]
    } else {
        0
    }
}

/// The pile after card `i`, which has `k` matches, is scored: one more copy of card `i`,
/// and as many copies as are now held of it for each of the next `k` cards.
pub open spec fn bumped(p: Seq<int>, i: int, k: int) -> Seq<int> {
    let len = if p.len() >= i + k + 1 {
        p.len() as int
    } else {
        i + k + 1
    };
    Seq::new(
        len as nat,
        |j: int|
            entry(p, j) + if j == i {
                1
            } else if i < j <= i + k {
                entry(p, i) + 1
            } else {
                0
            },
    )
}

/// The copies held of each card once the cards with these match counts are scored in turn.
pub open spec fn pile_of(ks: Seq<nat>) -> Seq<int>
    decreases ks.len(),
{
    if ks.len() == 0 {
        Seq::empty()
    } else {
        bumped(pile_of(ks.drop_last()), ks.len() - 1, ks.last() as int)
    }
}

pub open spec fn pile_total(p: Seq<int>) -> int
    decreases p.len(),
{
    if p.len() == 0 {
        0
    } else {
        pile_total(p.drop_last()) + p.last()
    }
}

/// The match counts of the cards.
pub open spec fn match_counts(cards: Seq<Card>) -> Seq<nat> {
    cards.map_values(|c: Card| matching_set(&c).len())
}

proof fn lemma_pile_grows(ks: Seq<nat>, a: int)
    requires
        0 <= a <= ks.len(),
    ensures
        forall|j: int| 0 <= #[trigger] entry(pile_of(ks.subrange(0, a)), j) <= entry(pile_of(ks), j),
        pile_of(ks.subrange(0, a)).len() <= pile_of(ks).len(),
    decreases ks.len(),
{
    if ks.len() == 0 {
        assert(ks.subrange(0, a) =~= ks);
    } else {
        let t = ks.drop_last();
        if a == ks.len() {
            assert(ks.subrange(0, a) =~= ks);
            lemma_pile_grows(t, t.len() as int);
            assert(t.subrange(0, t.len() as int) =~= t);
        } else {
            lemma_pile_grows(t, a);
            assert(t.subrange(0, a) =~= ks.subrange(0, a));
            lemma_pile_grows(t, t.len() as int);
            assert(t.subrange(0, t.len() as int) =~= t);
        }
        assert forall|j: int| 0 <= #[trigger] entry(pile_of(t), j) <= entry(pile_of(ks), j) by {
            assert(0 <= entry(pile_of(t), ks.len() - 1));
        }
    }
}

proof fn lemma_pile_total_grows(p: Seq<int>, i: int)
    requires
        0 <= i <= p.len(),
        forall|j: int| 0 <= j < p.len() ==> 0 <= #[trigger] p[j],
    ensures
        0 <= pile_total(p.subrange(0, i)) <= pile_total(p),
    decreases p.len(),
{
    if p.len() > 0 {
        let t = p.drop_last();
        assert(forall|j: int| 0 <= j < t.len() ==> 0 <= #[trigger] t[j] == p[j]);
        if i == p.len() {
            assert(p.subrange(0, i) =~= p);
            lemma_pile_total_grows(t, t.len() as int);
            assert(t.subrange(0, t.len() as int) =~= t);
        } else {
            lemma_pile_total_grows(t, i);
            assert(t.subrange(0, i) =~= p.subrange(0, i));
        }
    } else {
        assert(p.subrange(0, i) =~= p);
    }
}

/// Scores the cards in turn, each winning copies of the cards after it, and counts all
/// cards held in the end; `None` where a count does not fit in a `u64`, or the pile
/// would reach past the largest index.
pub fn total_scratchcards(cards: &Vec<Card>) -> (r: Option<u64>)
    requires
        forall|i: int| 0 <= i < cards@.len() ==> (#[trigger] cards@[i]).numbers_winning.numbers@.no_duplicates(),
    ensures
        match r {
            Some(v) => pile_total(pile_of(match_counts(cards@))) == v,
            None => {
                ||| pile_of(match_counts(cards@)).len() >= usize::MAX
                ||| exists|j: int| #[trigger] entry(pile_of(match_counts(cards@)), j) > u64::MAX
                ||| pile_total(pile_of(match_counts(cards@))) > u64::MAX
            },
        },
{
    let ghost ks = match_counts(cards@);
    let mut pile: Vec<u64> = Vec::new();
    let mut i: usize = 0;
    assert(ks.subrange(0, 0) =~= Seq::<nat>::empty());
    assert(pile@.map_values(|x: u64| x as int) =~= pile_of(ks.subrange(0, 0)));
    while i < cards.len()
        invariant
            ks == match_counts(cards@),
            forall|q: int| 0 <= q < cards@.len() ==> (#[trigger] cards@[q]).numbers_winning.numbers@.no_duplicates(),
            i <= cards@.len(),
            pile@.map_values(|x: u64| x as int) == pile_of(ks.subrange(0, i as int)),
        decreases cards.len() - i,
    {
        let ghost old_pile = pile_of(ks.subrange(0, i as int));
        assert(ks.subrange(0, i + 1).drop_last() =~= ks.subrange(0, i as int));
        let k = cards[i].numbers_matching().len();
        assert(k == ks[i as int]);
        proof {
            lemma_pile_grows(ks, i + 1);
        }
        if k >= usize::MAX - i {
            proof {
                assert(pile_of(ks.subrange(0, i + 1)) == bumped(old_pile, i as int, k as int));
            }
            return None;
        }
        let end = i + k + 1;
        while pile.len() < end
            invariant
                end == i + k + 1,
                pile@.len() <= end || pile@.len() == old_pile.len(),
                forall|j: int| 0 <= j < pile@.len() ==> (#[trigger] pile@[j]) as int == entry(old_pile, j),
                pile@.len() >= old_pile.len(),
            decreases end - pile.len(),
        {
            pile.push(0);
        }
        let current = pile[i];
        if current == u64::MAX {
            proof {
                assert(pile_of(ks.subrange(0, i + 1)) == bumped(old_pile, i as int, k as int));
                assert(entry(pile_of(ks.subrange(0, i + 1)), i as int) == entry(old_pile, i as int) + 1);
            }
            return None;
        }
        let c = current + 1;
        pile.set(i, c);
        let ghost next_pile = pile_of(ks.subrange(0, i + 1));
        assert(next_pile == bumped(old_pile, i as int, k as int));
        let mut j: usize = i + 1;
        while j < end
            invariant
                end == i + k + 1,
                ks == match_counts(cards@),
                next_pile == bumped(old_pile, i as int, k as int),
                forall|q: int| #[trigger] entry(next_pile, q) <= entry(pile_of(ks), q),
                i < j <= i + k + 1,
                i + k + 1 <= pile@.len(),
                c == entry(old_pile, i as int) + 1,
                pile@.len() == bumped(old_pile, i as int, k as int).len(),
                forall|q: int|
                    0 <= q < pile@.len() ==> (#[trigger] pile@[q]) as int == if q < j {
                        bumped(old_pile, i as int, k as int)[q]
                    } else {
                        entry(old_pile, q)
                    },
            decreases end - j,
        {
            let v = pile[j];
            if v > u64::MAX - c {
                proof {
                    assert(bumped(old_pile, i as int, k as int)[j as int] > u64::MAX);
                    assert(entry(next_pile, j as int) > u64::MAX);
                    assert(entry(pile_of(ks), j as int) > u64::MAX);
                }
                return None;
            }
            pile.set(j, v + c);
            j = j + 1;
        }
        proof {
            assert(pile@.map_values(|x: u64| x as int) =~= bumped(old_pile, i as int, k as int));
        }
        i = i + 1;
    }
    assert(ks.subrange(0, ks.len() as int) =~= ks);
    let ghost final_pile = pile_of(ks);
    let mut total: u64 = 0;
    let mut q: usize = 0;
    assert(final_pile.subrange(0, 0) =~= Seq::<int>::empty());
    while q < pile.len()
        invariant
            final_pile == pile@.map_values(|x: u64| x as int),
            final_pile == pile_of(ks),
            ks == match_counts(cards@),
            q <= pile@.len(),
            pile_total(final_pile.subrange(0, q as int)) == total,
        decreases pile.len() - q,
    {
        assert(final_pile.subrange(0, q + 1).drop_last() =~= final_pile.subrange(0, q as int));
        if pile[q] > u64::MAX - total {
            proof {
                assert(forall|m: int| 0 <= m < final_pile.len() ==> 0 <= #[trigger] final_pile[m]);
                lemma_pile_total_grows(final_pile, q + 1);
            }
            return None;
        }
        total = total + pile[q];
        q = q + 1;
    }
    assert(final_pile.subrange(0, final_pile.len() as int) =~= final_pile);
    Some(total)
}

/// The points of all cards.
pub open spec fn points(cards: Seq<Card>) -> int
    decreases cards.len(),
{
    if cards.len() == 0 {
        0
    } else {
        let k = matching_set(&cards.last()).len();
        points(cards.drop_last()) + if k == 0 {
            0
        } else {
            pow2((k - 1) as nat) as int
        }
    }
}

proof fn lemma_points_grow(cards: Seq<Card>, i: int)
    requires
        0 <= i <= cards.len(),
    ensures
        0 <= points(cards.subrange(0, i)) <= points(cards),
    decreases cards.len(),
{
    if cards.len() > 0 {
        let t = cards.drop_last();
        if i == cards.len() {
            assert(cards.subrange(0, i) =~= cards);
            lemma_points_grow(t, t.len() as int);
            assert(t.subrange(0, t.len() as int) =~= t);
        } else {
            lemma_points_grow(t, i);
            assert(t.subrange(0, i) =~= cards.subrange(0, i));
        }
    } else {
        assert(cards.subrange(0, i) =~= cards);
    }
}

/// The points of all cards together; `None` where a card has more than 64 matches or
/// the sum does not fit in a `u64`.
pub fn points_total(cards: &Vec<Card>) -> (r: Option<u64>)
    requires
        forall|i: int| 0 <= i < cards@.len() ==> (#[trigger] cards@[i]).numbers_winning.numbers@.no_duplicates(),
    ensures
        match r {
            Some(v) => points(cards@) == v,
            None => points(cards@) > u64::MAX || exists|i: int|
                0 <= i < cards@.len() && matching_set(&#[trigger] cards@[i]).len() > 64,
        },
{
    let mut total: u64 = 0;
    let mut i: usize = 0;
    assert(cards@.subrange(0, 0) =~= Seq::<Card>::empty());
    while i < cards.len()
        invariant
            forall|q: int| 0 <= q < cards@.len() ==> (#[trigger] cards@[q]).numbers_winning.numbers@.no_duplicates(),
            i <= cards@.len(),
            points(cards@.subrange(0, i as int)) == total,
        decreases cards.len() - i,
    {
        assert(cards@.subrange(0, i + 1).drop_last() =~= cards@.subrange(0, i as int));
        if cards[i].numbers_matching().len() > 64 {
            return None;
        }
        let w = cards[i].worth();
        if w > u64::MAX - total {
            proof {
                lemma_points_grow(cards@, i + 1);
            }
            return None;
        }
        total = total + w;
        i = i + 1;
    }
    assert(cards@.subrange(0, cards@.len() as int) =~= cards@);
    Some(total)
}

} // verus!
