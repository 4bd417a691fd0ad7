use vstd::prelude::*;

use core::cmp::Ordering;
use itertools::Itertools;

use crate::numbers::{parse_u32, u32_of};
use crate::text::chars_of;

verus! {

broadcast use vstd::seq_lib::to_multiset_build, vstd::seq_lib::to_multiset_insert;

/// A card label, from the weakest to the strongest.
#[derive(Clone, Copy, Debug, PartialEq, Eq, Hash, Structural)]
pub enum Card {
    Two,
    Three,
    Four,
    Five,
    Six,
    Seven,
    Eight,
    Nine,
    Ten,
    Jack,
    Queen,
    King,
    Ace,
}

/// The strength of a card: 2 for a two up to 14 for an ace.
pub open spec fn card_rank(c: Card) -> u8 {
    match c {
        Card::Two => 2,
        Card::Three => 3,
        Card::Four => 4,
        Card::Five => 5,
        Card::Six => 6,
        Card::Seven => 7,
        Card::Eight => 8,
        Card::Nine => 9,
        Card::Ten => 10,
        Card::Jack => 11,
        Card::Queen => 12,
        Card::King => 13,
        Card::Ace => 14,
    }
}

/// The card a label character names.
pub open spec fn card_of(c: char) -> Option<Card> {
    if c == '2' {
        Some(Card::Two)
    } else if c == '3' {
        Some(Card::Three)
    } else if c == '4' {
        Some(Card::Four)
    } else if c == '5' {
        Some(Card::Five)
    } else if c == '6' {
        Some(Card::Six)
    } else if c == '7' {
        Some(Card::Seven)
    } else if c == '8' {
        Some(Card::Eight)
    } else if c == '9' {
        Some(Card::Nine)
    } else if c == 'T' {
        Some(Card::Ten)
    } else if c == 'J' {
        Some(Card::Jack)
    } else if c == 'Q' {
        Some(Card::Queen)
    } else if c == 'K' {
        Some(Card::King)
    } else if c == 'A' {
        Some(Card::Ace)
    } else {
        None
    }
}

pub open spec fn ranks(cs: Seq<Card>) -> Seq<u8> {
    cs.map_values(|c: Card| card_rank(c))
}

/// Cards from the strongest to the weakest.
pub open spec fn sorted_desc(cs: Seq<Card>) -> bool {
    forall|i: int, j: int| 0 <= i < j < cs.len() ==> card_rank(cs[i]) >= card_rank(cs[j])
}

/// The `k` entries of `s` from index `i` on are all equal.
pub open spec fn equal_run_at(s: Seq<u8>, i: int, k: int) -> bool {
    0 <= i && i + k <= s.len() && forall|j: int| 0 <= j < k ==> #[trigger] s[i + j] == s[i]
}

/// Some `k` neighbouring entries of `s` are all equal.
pub open spec fn has_equal_run(s: Seq<u8>, k: int) -> bool {
    exists|i: int| #[trigger] equal_run_at(s, i, k)
}

/// The type of a hand, from the weakest to the strongest.
#[derive(Clone, Copy, Debug, PartialEq, Eq, Hash, Structural)]
pub enum Strength {
    HighCard,
    OnePair,
    TwoPair,
    ThreeOfAKind,
    FullHouse,
    FourOfAKind,
    FiveOfAKind,
}

pub open spec fn strength_level(s: Strength) -> u8 {
    match s {
        Strength::HighCard => 0,
        Strength::OnePair => 1,
        Strength::TwoPair => 2,
        Strength::ThreeOfAKind => 3,
        Strength::FullHouse => 4,
        Strength::FourOfAKind => 5,
        Strength::FiveOfAKind => 6,
    }
}

impl Strength {
    pub fn level(&self) -> (r: u8)
        ensures
            r == strength_level(*self),
    {
        match self {
            Strength::HighCard => 0,
            Strength::OnePair => 1,
            Strength::TwoPair => 2,
            Strength::ThreeOfAKind => 3,
            Strength::FullHouse => 4,
            Strength::FourOfAKind => 5,
            Strength::FiveOfAKind => 6,
        }
    }
}

impl Card {
    pub fn from(c: char) -> (r: Option<Card>)
        ensures
            r == card_of(c),
    {
        match c {
            '2' => Some(Card::Two),
            '3' => Some(Card::Three),
            '4' => Some(Card::Four),
            '5' => Some(Card::Five),
            '6' => Some(Card::Six),
            '7' => Some(Card::Seven),
            '8' => Some(Card::Eight),
            '9' => Some(Card::Nine),
            'T' => Some(Card::Ten),
            'J' => Some(Card::Jack),
            'Q' => Some(Card::Queen),
            'K' => Some(Card::King),
            'A' => Some(Card::Ace),
            _ => None,
        }
    }

    pub fn rank(&self) -> (r: u8)
        ensures
            r == card_rank(*self),
    {
        match self {
            Card::Two => 2,
            Card::Three => 3,
            Card::Four => 4,
            Card::Five => 5,
            Card::Six => 6,
            Card::Seven => 7,
            Card::Eight => 8,
            Card::Nine => 9,
            Card::Ten => 10,
            Card::Jack => 11,
            Card::Queen => 12,
            Card::King => 13,
            Card::Ace => 14,
        }
    }
}

/// Whether all the given ranks are equal.
pub fn all_equal(xs: &[u8]) -> (r: bool)
    ensures
        r == forall|j: int| 0 <= j < xs@.len() ==> #[trigger] xs@[j] == xs@[0],
{
    let mut i: usize = 1;
    while i < xs.len()
        invariant
            1 <= i,
            forall|j: int| 0 <= j < i && j < xs@.len() ==> #[trigger] xs@[j] == xs@[0],
        decreases xs.len() - i,
    {
        if xs[i] != xs[0] {
            return false;
        }
        i = i + 1;
    }
    true
}

/// `ws` holds, in order, every run of `k` neighbouring entries of `s`.
pub open spec fn are_windows(s: Seq<u8>, ws: Seq<Vec<u8>>, k: int) -> bool {
    &&& ws.len() == if s.len() >= k {
        s.len() - k + 1
    } else {
        0
    }
    &&& forall|i: int| 0 <= i < ws.len() ==> (#[trigger] ws[i])@ == s.subrange(i, i + k)
}

/// All entries of `v` are equal.
pub open spec fn all_same(v: Seq<u8>) -> bool {
    forall|j: int| 0 <= j < v.len() ==> #[trigger] v[j] == v[0]
}

/// Relies on `Itertools::tuple_windows`: it yields each run of two neighbouring items.
#[verifier::external_body]
fn pair_windows(cs: &Vec<Card>) -> (r: Vec<Vec<u8>>)
    ensures
        are_windows(ranks(cs@), r@, 2),
{
    cs.iter().map(|c| c.rank()).tuple_windows().map(|(a, b)| vec![a, b]).collect()
}

/// Relies on `Itertools::tuple_windows`: it yields each run of three neighbouring items.
#[verifier::external_body]
fn triple_windows(cs: &Vec<Card>) -> (r: Vec<Vec<u8>>)
    ensures
        are_windows(ranks(cs@), r@, 3),
{
    cs.iter().map(|c| c.rank()).tuple_windows().map(|(a, b, c)| vec![a, b, c]).collect()
}

/// Relies on `Itertools::tuple_windows`: it yields each run of four neighbouring items.
#[verifier::external_body]
fn quadruple_windows(cs: &Vec<Card>) -> (r: Vec<Vec<u8>>)
    ensures
        are_windows(ranks(cs@), r@, 4),
{
    cs.iter().map(|c| c.rank()).tuple_windows().map(|(a, b, c, d)| vec![a, b, c, d]).collect()
}

/// Whether one of the windows has all its entries equal.
fn some_window_same(ws: &Vec<Vec<u8>>) -> (r: bool)
    ensures
        r == exists|i: int| 0 <= i < ws@.len() && all_same(#[trigger] ws@[i]@),
{
    let mut i: usize = 0;
    while i < ws.len()
        invariant
            i <= ws@.len(),
            forall|q: int| 0 <= q < i ==> !all_same(#[trigger] ws@[q]@),
        decreases ws.len() - i,
    {
        if all_equal(ws[i].as_slice()) {
            return true;
        }
        i = i + 1;
    }
    false
}

/// Among the runs of `k` neighbouring entries one is all equal exactly when `s` has
/// such a run.
proof fn lemma_windows_equal_run(s: Seq<u8>, ws: Seq<Vec<u8>>, k: int)
    requires
        k >= 1,
        are_windows(s, ws, k),
    ensures
        (exists|i: int| 0 <= i < ws.len() && all_same(#[trigger] ws[i]@)) == has_equal_run(s, k),
{
    if exists|i: int| 0 <= i < ws.len() && all_same(#[trigger] ws[i]@) {
        let i = choose|i: int| 0 <= i < ws.len() && all_same(#[trigger] ws[i]@);
        assert forall|j: int| 0 <= j < k implies #[trigger] s[i + j] == s[i] by {
            assert(ws[i]@[j] == s[i + j]);
            assert(ws[i]@[0] == s[i]);
        }
        assert(equal_run_at(s, i, k));
    }
    if has_equal_run(s, k) {
        let i = choose|i: int| #[trigger] equal_run_at(s, i, k);
        assert(ws[i]@ == s.subrange(i, i + k));
        assert forall|j: int| 0 <= j < ws[i]@.len() implies #[trigger] ws[i]@[j] == ws[i]@[0] by {
            assert(s[i + j] == s[i]);
            assert(s[i + 0] == s[i]);
        }
        assert(all_same(ws[i]@));
    }
}

/// Three equal cards and two equal cards, in a hand sorted by strength.
pub open spec fn full_house_sorted(cs: Seq<Card>) -> bool {
    (cs[0] == cs[1] && cs[1] == cs[2] && cs[3] == cs[4]) || (cs[0] == cs[1] && cs[2] == cs[3]
        && cs[3] == cs[4])
}

/// Two pairs, in a hand sorted by strength: the odd card comes first, in the middle
/// or last.
pub open spec fn two_pair_sorted(cs: Seq<Card>) -> bool {
    (cs[1] == cs[2] && cs[3] == cs[4]) || (cs[0] == cs[1] && cs[3] == cs[4]) || (cs[0] == cs[1]
        && cs[2] == cs[3])
}

/// The type of a hand of five cards sorted by strength.
pub open spec fn strength_of_sorted(cs: Seq<Card>) -> Strength {
    if cs[0] == cs[4] {
        Strength::FiveOfAKind
    } else if has_equal_run(ranks(cs), 4) {
        Strength::FourOfAKind
    } else if full_house_sorted(cs) {
        Strength::FullHouse
    } else if has_equal_run(ranks(cs), 3) {
        Strength::ThreeOfAKind
    } else if two_pair_sorted(cs) {
        Strength::TwoPair
    } else if has_equal_run(ranks(cs), 2) {
        Strength::OnePair
    } else {
        Strength::HighCard
    }
}

/// Compares two rank sequences entry by entry, the first difference deciding; a
/// sequence that ends first is the smaller.
pub open spec fn lex_cmp(a: Seq<u8>, b: Seq<u8>) -> Ordering
    decreases a.len(),
{
    if a.len() == 0 && b.len() == 0 {
        Ordering::Equal
    } else if a.len() == 0 {
        Ordering::Less
    } else if b.len() == 0 {
        Ordering::Greater
    } else if a[0] < b[0] {
        Ordering::Less
    } else if a[0] > b[0] {
        Ordering::Greater
    } else {
        lex_cmp(a.drop_first(), b.drop_first())
    }
}

/// Orders by type first, then by the cards in the order they were dealt.
#[verifier::opaque]
pub open spec fn hand_cmp(a: Strength, ca: Seq<Card>, b: Strength, cb: Seq<Card>) -> Ordering {
    if strength_level(a) < strength_level(b) {
        Ordering::Less
    } else if strength_level(a) > strength_level(b) {
        Ordering::Greater
    } else {
        lex_cmp(ranks(ca), ranks(cb))
    }
}

/// Compares two card sequences by rank, the first difference deciding.
pub fn compare_cards(a: &Vec<Card>, b: &Vec<Card>) -> (r: Ordering)
    ensures
        r == lex_cmp(ranks(a@), ranks(b@)),
{
    let mut i: usize = 0;
    assert(ranks(a@).subrange(0, a@.len() as int) =~= ranks(a@));
    assert(ranks(b@).subrange(0, b@.len() as int) =~= ranks(b@));
    while i < a.len() && i < b.len()
        invariant
            i <= a@.len(),
            i <= b@.len(),
            lex_cmp(ranks(a@), ranks(b@)) == lex_cmp(
                ranks(a@).subrange(i as int, a@.len() as int),
                ranks(b@).subrange(i as int, b@.len() as int),
            ),
        decreases a.len() - i,
    {
        let x = a[i].rank();
        let y = b[i].rank();
        if x < y {
            return Ordering::Less;
        }
        if x > y {
            return Ordering::Greater;
        }
        assert(ranks(a@).subrange(i as int, a@.len() as int).drop_first() =~= ranks(a@).subrange(
            i + 1,
            a@.len() as int,
        ));
        assert(ranks(b@).subrange(i as int, b@.len() as int).drop_first() =~= ranks(b@).subrange(
            i + 1,
            b@.len() as int,
        ));
        i = i + 1;
    }
    if i < a.len() {
        Ordering::Greater
    } else if i < b.len() {
        Ordering::Less
    } else {
        Ordering::Equal
    }
}

/// The cards from the strongest to the weakest.
pub fn sort_by_strength(cards: &Vec<Card>) -> (r: Vec<Card>)
    ensures
        sorted_desc(r@),
        r@.to_multiset() == cards@.to_multiset(),
{
    let mut out: Vec<Card> = Vec::new();
    let mut i: usize = 0;
    assert(cards@.subrange(0, 0) =~= out@);
    while i < cards.len()
        invariant
            i <= cards@.len(),
            sorted_desc(out@),
            out@.to_multiset() == cards@.subrange(0, i as int).to_multiset(),
        decreases cards.len() - i,
    {
        let x = cards[i];
        let rx = x.rank();
        let mut pos: usize = 0;
        while pos < out.len() && out[pos].rank() >= rx
            invariant
                pos <= out@.len(),
                forall|j: int| 0 <= j < pos ==> card_rank(out@[j]) >= rx,
            decreases out.len() - pos,
        {
            pos = pos + 1;
        }
        let ghost before = out@;
        out.insert(pos, x);
        proof {
            assert(out@ == before.insert(pos as int, x));
            assert forall|a: int, b: int| 0 <= a < b < out@.len() implies card_rank(out@[a])
                >= card_rank(out@[b]) by {
                if pos < before.len() {
                    assert(card_rank(before[pos as int]) < rx);
                }
            }
            assert(cards@.subrange(0, i + 1) =~= cards@.subrange(0, i as int).push(x));
        }
        i = i + 1;
    }
    assert(cards@.subrange(0, cards@.len() as int) =~= cards@);
    out
}

/// A hand of Camel Cards, with its bid.
#[derive(Debug)]
pub struct Hand {
    pub cards: Vec<Card>,
    pub cards_sorted: Vec<Card>,
    pub strength: Strength,
    pub bid: u32,
}

pub open spec fn cards_of(s: Seq<char>) -> Seq<Card> {
    s.map_values(|c: char| card_of(c)->Some_0)
}

pub open spec fn all_cards(s: Seq<char>) -> bool {
    forall|i: int| 0 <= i < s.len() ==> (#[trigger] card_of(s[i])) is Some
}

/// The first space of `s` stands at `i`.
pub open spec fn first_space_at(s: Seq<char>, i: int) -> bool {
    0 <= i < s.len() && s[i] == ' ' && forall|j: int| 0 <= j < i ==> #[trigger] s[j] != ' '
}

/// The cards and the bid of a line: split at its first space; a line without one has
/// a bid of `0`.
pub open spec fn split_bid(s: Seq<char>) -> (Seq<char>, Seq<char>) {
    if exists|i: int| #[trigger] first_space_at(s, i) {
        let i = choose|i: int| #[trigger] first_space_at(s, i);
        (s.subrange(0, i), s.subrange(i + 1, s.len() as int))
    } else {
        (s, seq!['0'])
    }
}

/// The line holds five card labels and, after a space, a bid that fits a `u32`.
pub open spec fn valid_hand(s: Seq<char>) -> bool {
    let (c, b) = split_bid(s);
    c.len() == 5 && all_cards(c) && u32_of(b) is Some
}

/// Splits a line at its first space.
pub fn split_line(s: &Vec<char>) -> (r: (Vec<char>, Vec<char>))
    ensures
        r.0@ == split_bid(s@).0,
        r.1@ == split_bid(s@).1,
{
    let mut i: usize = 0;
    while i < s.len()
        invariant
            i <= s@.len(),
            forall|j: int| 0 <= j < i ==> #[trigger] s@[j] != ' ',
        decreases s.len() - i,
    {
        if s[i] == ' ' {
            let mut cards: Vec<char> = Vec::new();
            let mut bid: Vec<char> = Vec::new();
            let mut k: usize = 0;
            while k < s.len()
                invariant
                    i < s@.len(),
                    k <= s@.len(),
                    k <= i ==> cards@ == s@.subrange(0, k as int) && bid@.len() == 0,
                    k > i ==> cards@ == s@.subrange(0, i as int) && bid@ == s@.subrange(
                        i + 1,
                        k as int,
                    ),
                decreases s.len() - k,
            {
                if k < i {
                    cards.push(s[k]);
                } else if k > i {
                    bid.push(s[k]);
                }
                k = k + 1;
                assert(k <= i ==> cards@ =~= s@.subrange(0, k as int));
                assert(k > i ==> cards@ =~= s@.subrange(0, i as int));
                assert(k > i ==> bid@ =~= s@.subrange(i + 1, k as int));
            }
            proof {
                assert(first_space_at(s@, i as int));
                let j = choose|j: int| #[trigger] first_space_at(s@, j);
                if j < i {
                    assert(s@[j] != ' ');
                }
                if i < j {
                    assert(s@[i as int] != ' ');
                }
            }
            return (cards, bid);
        }
        i = i + 1;
    }
    let mut cards: Vec<char> = Vec::new();
    let mut k: usize = 0;
    while k < s.len()
        invariant
            k <= s@.len(),
            cards@ == s@.subrange(0, k as int),
        decreases s.len() - k,
    {
        cards.push(s[k]);
        k = k + 1;
        assert(cards@ =~= s@.subrange(0, k as int));
    }
    assert(cards@ =~= s@);
    let bid = vec!['0'];
    assert(bid@ =~= seq!['0']);
    (cards, bid)
}

impl Hand {
    /// Reads a hand such as `KTJJT 220`: five card labels and, after a space, the bid;
    /// a line of labels alone has a bid of 0. `None` where the line is no such hand.
    pub fn from(s: &str) -> (r: Option<Hand>)
        ensures
            r is Some <==> valid_hand(s@),
            r matches Some(h) ==> {
                &&& h.cards@ == cards_of(split_bid(s@).0)
                &&& sorted_desc(h.cards_sorted@)
                &&& h.cards_sorted@.to_multiset() == h.cards@.to_multiset()
                &&& h.strength == strength_of_sorted(h.cards_sorted@)
                &&& Some(h.bid) == u32_of(split_bid(s@).1)
            },
    {
        let line = chars_of(s);
        let (cards_str, bid_str) = split_line(&line);
        if cards_str.len() != 5 {
            return None;
        }
        let mut cards: Vec<Card> = Vec::new();
        let mut i: usize = 0;
        while i < 5
            invariant
                i <= 5,
                cards_str@.len() == 5,
                cards_str@ == split_bid(s@).0,
                cards@.len() == i,
                forall|j: int| 0 <= j < i ==> (#[trigger] card_of(cards_str@[j])) is Some,
                forall|j: int| 0 <= j < i ==> cards@[j] == #[trigger] card_of(cards_str@[j])->Some_0,
            decreases 5 - i,
        {
            match Card::from(cards_str[i]) {
                Some(c) => cards.push(c),
                None => {
                    assert(card_of(cards_str@[i as int]) is None);
                    assert(!all_cards(cards_str@));
                    return None;
                },
            }
            i = i + 1;
        }
        assert(cards@ =~= cards_of(cards_str@));
        let cards_sorted = sort_by_strength(&cards);
        proof {
            cards@.to_multiset_ensures();
            cards_sorted@.to_multiset_ensures();
        }
        assert(cards_sorted@.len() == 5);
        let strength = Hand::strength(&cards_sorted);
        let bid = match parse_u32(&bid_str) {
            Some(b) => b,
            None => {
                return None;
            },
        };
        Some(Hand { cards, cards_sorted, strength, bid })
    }

    /// The type of five cards sorted from the strongest to the weakest.
    pub fn strength(cards_sorted: &Vec<Card>) -> (r: Strength)
        requires
            cards_sorted@.len() == 5,
        ensures
            r == strength_of_sorted(cards_sorted@),
    {
        if Hand::is_five_of_a_kind(cards_sorted) {
            return Strength::FiveOfAKind;
        }
        if Hand::is_four_of_a_kind(cards_sorted) {
            return Strength::FourOfAKind;
        }
        if Hand::is_full_house(cards_sorted) {
            return Strength::FullHouse;
        }
        if Hand::is_three_of_a_kind(cards_sorted) {
            return Strength::ThreeOfAKind;
        }
        if Hand::is_two_pair(cards_sorted) {
            return Strength::TwoPair;
        }
        if Hand::is_one_pair(cards_sorted) {
            return Strength::OnePair;
        }
        Strength::HighCard
    }

    /// In sorted cards all five are equal when the first equals the last.
    pub fn is_five_of_a_kind(cs: &Vec<Card>) -> (r: bool)
        requires
            cs@.len() == 5,
        ensures
            r == (cs@[0] == cs@[4]),
    {
        cs[0] == cs[4]
    }

    /// Some four neighbouring cards are equal.
    pub fn is_four_of_a_kind(cs: &Vec<Card>) -> (r: bool)
        ensures
            r == has_equal_run(ranks(cs@), 4),
    {
        let ws = quadruple_windows(cs);
        proof {
            lemma_windows_equal_run(ranks(cs@), ws@, 4);
        }
        some_window_same(&ws)
    }

    pub fn is_full_house(cs: &Vec<Card>) -> (r: bool)
        requires
            cs@.len() == 5,
        ensures
            r == full_house_sorted(cs@),
    {
        (cs[0] == cs[1] && cs[1] == cs[2]) && (cs[3] == cs[4]) || (cs[0] == cs[1]) && (cs[2]
            == cs[3] && cs[3] == cs[4])
    }

    /// Some three neighbouring cards are equal.
    pub fn is_three_of_a_kind(cs: &Vec<Card>) -> (r: bool)
        ensures
            r == has_equal_run(ranks(cs@), 3),
    {
        let ws = triple_windows(cs);
        proof {
            lemma_windows_equal_run(ranks(cs@), ws@, 3);
        }
        some_window_same(&ws)
    }

    pub fn is_two_pair(cs: &Vec<Card>) -> (r: bool)
        requires
            cs@.len() == 5,
        ensures
            r == two_pair_sorted(cs@),
    {
        (cs[1] == cs[2] && cs[3] == cs[4]) || (cs[0] == cs[1] && cs[3] == cs[4]) || (cs[0]
            == cs[1] && cs[2] == cs[3])
    }

    /// Some two neighbouring cards are equal.
    pub fn is_one_pair(cs: &Vec<Card>) -> (r: bool)
        ensures
            r == has_equal_run(ranks(cs@), 2),
    {
        let ws = pair_windows(cs);
        proof {
            lemma_windows_equal_run(ranks(cs@), ws@, 2);
        }
        some_window_same(&ws)
    }
}

/// Two cards sequences hold the same cards in the same order.
fn same_cards(a: &Vec<Card>, b: &Vec<Card>) -> (r: bool)
    ensures
        r == (a@ == b@),
{
    if a.len() != b.len() {
        return false;
    }
    let mut i: usize = 0;
    while i < a.len()
        invariant
            a@.len() == b@.len(),
            i <= a@.len(),
            forall|j: int| 0 <= j < i ==> a@[j] == b@[j],
        decreases a.len() - i,
    {
        if a[i] != b[i] {
            return false;
        }
        i = i + 1;
    }
    assert(a@ =~= b@);
    true
}

/// Hands are equal when they are of one type and hold the same cards, in any order.
impl PartialEq for Hand {
    fn eq(&self, other: &Hand) -> (r: bool) {
        self.strength == other.strength && same_cards(&self.cards_sorted, &other.cards_sorted)
    }
}

impl vstd::std_specs::cmp::PartialEqSpecImpl for Hand {
    open spec fn obeys_eq_spec() -> bool {
        true
    }

    open spec fn eq_spec(&self, other: &Hand) -> bool {
        self.strength == other.strength && self.cards_sorted@ == other.cards_sorted@
    }
}

/// Hands are ordered by type, then by their cards in the order they were dealt.
impl PartialOrd for Hand {
    fn partial_cmp(&self, other: &Hand) -> (r: Option<Ordering>) {
        reveal(hand_cmp);
        let a = self.strength.level();
        let b = other.strength.level();
        if a < b {
            Some(Ordering::Less)
        } else if a > b {
            Some(Ordering::Greater)
        } else {
            Some(compare_cards(&self.cards, &other.cards))
        }
    }
}

impl vstd::std_specs::cmp::PartialOrdSpecImpl for Hand {
    open spec fn obeys_partial_cmp_spec() -> bool {
        true
    }

    open spec fn partial_cmp_spec(&self, other: &Hand) -> Option<Ordering> {
        Some(hand_cmp(self.strength, self.cards@, other.strength, other.cards@))
    }
}

/// Lexicographic comparison reverses when its arguments are swapped.
pub proof fn lemma_lex_cmp_swap(a: Seq<u8>, b: Seq<u8>)
    ensures
        lex_cmp(a, b) == Ordering::Greater <==> lex_cmp(b, a) == Ordering::Less,
        lex_cmp(a, b) == Ordering::Equal <==> lex_cmp(b, a) == Ordering::Equal,
    decreases a.len(),
{
    if a.len() > 0 && b.len() > 0 && a[0] == b[0] {
        lemma_lex_cmp_swap(a.drop_first(), b.drop_first());
    }
}

/// Swapping two hands swaps a win for a loss.
pub proof fn lemma_hand_cmp_swap(a: Strength, ca: Seq<Card>, b: Strength, cb: Seq<Card>)
    ensures
        hand_cmp(a, ca, b, cb) == Ordering::Greater <==> hand_cmp(b, cb, a, ca) == Ordering::Less,
{
    reveal(hand_cmp);
    lemma_lex_cmp_swap(ranks(ca), ranks(cb));
}

/// The hands are in increasing order: no hand ranks above the next.
pub open spec fn ranked(hs: Seq<Hand>) -> bool {
    forall|i: int|
        0 <= i < hs.len() - 1 ==> hand_cmp((#[trigger] hs[i]).strength, hs[i].cards@, hs[i + 1].strength, hs[i + 1].cards@)
            != Ordering::Greater
}

/// What the hands win: each hand's bid times its rank, the weakest ranking 1.
#[verifier::opaque]
pub open spec fn winnings(hs: Seq<Hand>) -> int
    decreases hs.len(),
{
    if hs.len() == 0 {
        0
    } else {
        winnings(hs.drop_last()) + hs.last().bid * hs.len()
    }
}

proof fn lemma_winnings_step(hs: Seq<Hand>)
    requires
        hs.len() > 0,
    ensures
        winnings(hs) == winnings(hs.drop_last()) + hs.last().bid * hs.len(),
{
    reveal(winnings);
}

proof fn lemma_winnings_grow(hs: Seq<Hand>, i: int)
    requires
        0 <= i <= hs.len(),
    ensures
        0 <= winnings(hs.subrange(0, i)) <= winnings(hs),
    decreases hs.len(),
{
    reveal(winnings);
    if hs.len() > 0 {
        let n = hs.len() as int;
        let b = hs.last().bid as int;
        assert(b * n >= 0) by (nonlinear_arith)
            requires
                b >= 0,
                n >= 0,
        ;
        if i == hs.len() {
            assert(hs.subrange(0, i) =~= hs);
            lemma_winnings_grow(hs.drop_last(), i - 1);
            assert(hs.drop_last().subrange(0, i - 1) =~= hs.drop_last());
        } else {
            lemma_winnings_grow(hs.drop_last(), i);
            assert(hs.drop_last().subrange(0, i) =~= hs.subrange(0, i));
        }
    } else {
        assert(hs.subrange(0, i) =~= hs);
    }
}

impl Hand {
    /// Compares by type, then by the cards in the order they were dealt.
    pub fn compare(&self, other: &Hand) -> (r: Ordering)
        ensures
            r == hand_cmp(self.strength, self.cards@, other.strength, other.cards@),
    {
        reveal(hand_cmp);
        let a = self.strength.level();
        let b = other.strength.level();
        if a < b {
            Ordering::Less
        } else if a > b {
            Ordering::Greater
        } else {
            compare_cards(&self.cards, &other.cards)
        }
    }
}

/// Whether hand `a` ranks above hand `b`.
fn ranks_above(a: &Hand, b: &Hand) -> (r: bool)
    ensures
        r == (hand_cmp(a.strength, a.cards@, b.strength, b.cards@) == Ordering::Greater),
{
    match a.compare(b) {
        Ordering::Greater => true,
        _ => false,
    }
}

/// Puts a hand into ranked hands before the first that ranks above it.
#[verifier::rlimit(40)]
fn insert_ranked(out: &mut Vec<Hand>, h: Hand)
    requires
        ranked(old(out)@),
    ensures
        ranked(final(out)@),
        final(out)@.to_multiset() == old(out)@.to_multiset().insert(h),
{
    let mut pos: usize = 0;
    while pos < out.len() && !ranks_above(&out[pos], &h)
        invariant
            pos <= out@.len(),
            forall|j: int|
                0 <= j < pos ==> hand_cmp((#[trigger] out@[j]).strength, out@[j].cards@, h.strength, h.cards@)
                    != Ordering::Greater,
        decreases out.len() - pos,
    {
        pos = pos + 1;
    }
    let ghost before = out@;
    proof {
        if pos < before.len() {
            let o = before[pos as int];
            lemma_hand_cmp_swap(o.strength, o.cards@, h.strength, h.cards@);
        }
    }
    out.insert(pos, h);
    proof {
        assert(out@ == before.insert(pos as int, h));
        assert forall|i: int| 0 <= i < out@.len() - 1 implies hand_cmp(
            (#[trigger] out@[i]).strength,
            out@[i].cards@,
            out@[i + 1].strength,
            out@[i + 1].cards@,
        ) != Ordering::Greater by {
            if i + 1 < pos {
                assert(out@[i] == before[i] && out@[i + 1] == before[i + 1]);
            } else if i + 1 == pos {
                assert(out@[i] == before[i] && out@[i + 1] == h);
            } else if i == pos {
                assert(out@[i] == h && out@[i + 1] == before[pos as int]);
            } else {
                assert(out@[i] == before[i - 1] && out@[i + 1] == before[i]);
            }
        }
    }
}

/// The hands from the weakest to the strongest.
pub fn rank_hands(hands: Vec<Hand>) -> (r: Vec<Hand>)
    ensures
        r@.to_multiset() == hands@.to_multiset(),
        ranked(r@),
{
    let ghost all = hands@;
    let mut rest = hands;
    let mut out: Vec<Hand> = Vec::new();
    assert(out@.to_multiset() =~= vstd::multiset::Multiset::empty()) by {
        out@.to_multiset_ensures();
    }
    assert(out@.to_multiset().add(rest@.to_multiset()) =~= all.to_multiset());
    while rest.len() > 0
        invariant
            out@.to_multiset().add(rest@.to_multiset()) == all.to_multiset(),
            ranked(out@),
        decreases rest.len(),
    {
        let ghost before_rest = rest@;
        let ghost before = out@;
        let h = rest.pop().unwrap();
        proof {
            assert(before_rest == rest@.push(h));
            assert(before_rest.to_multiset() == rest@.to_multiset().insert(h));
        }
        insert_ranked(&mut out, h);
        assert(out@.to_multiset().add(rest@.to_multiset()) =~= before.to_multiset().add(
            before_rest.to_multiset(),
        ));
    }
    assert(rest@.to_multiset() =~= vstd::multiset::Multiset::empty()) by {
        rest@.to_multiset_ensures();
    }
    assert(out@.to_multiset() =~= all.to_multiset());
    out
}

/// Ranks the hands and adds up each bid times its rank; `None` where the total does
/// not fit in a `u64`. Returns the ranked hands too.
pub fn total_winnings(hands: Vec<Hand>) -> (r: (Vec<Hand>, Option<u64>))
    ensures
        r.0@.to_multiset() == hands@.to_multiset(),
        ranked(r.0@),
        match r.1 {
            Some(v) => winnings(r.0@) == v,
            None => winnings(r.0@) > u64::MAX,
        },
{
    let ghost given = hands@;
    let ranked_hands = rank_hands(hands);
    let mut total: u64 = 0;
    let mut i: usize = 0;
    assert(ranked_hands@.subrange(0, 0) =~= Seq::<Hand>::empty());
    assert(winnings(Seq::<Hand>::empty()) == 0) by {
        reveal(winnings);
    }
    while i < ranked_hands.len()
        invariant
            i <= ranked_hands@.len(),
            ranked_hands@.to_multiset() == given.to_multiset(),
            given == hands@,
            ranked(ranked_hands@),
            winnings(ranked_hands@.subrange(0, i as int)) == total,
        decreases ranked_hands.len() - i,
    {
        assert(ranked_hands@.subrange(0, i + 1).drop_last() =~= ranked_hands@.subrange(0, i as int));
        proof {
            lemma_winnings_step(ranked_hands@.subrange(0, i + 1));
        }
        let bid = ranked_hands[i].bid as u64;
        let rank = (i as u64) + 1;
        let ghost b = bid as int;
        let ghost k = rank as int;
        assert(b * k <= 0xffff_ffff * 0x1_0000_0000_0000_0000) by (nonlinear_arith)
            requires
                0 <= b <= 0xffff_ffff,
                0 <= k <= 0x1_0000_0000_0000_0000,
        ;
        let prize = (bid as u128) * (rank as u128);
        if prize > (u64::MAX - total) as u128 {
            proof {
                lemma_winnings_grow(ranked_hands@, i + 1);
            }
            return (ranked_hands, None);
        }
        total = total + prize as u64;
        i = i + 1;
    }
    assert(ranked_hands@.subrange(0, ranked_hands@.len() as int) =~= ranked_hands@);
    (ranked_hands, Some(total))
}

} // verus!
