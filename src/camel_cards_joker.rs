use vstd::prelude::*;

use core::cmp::Ordering;
use itertools::Itertools;

use crate::camel_cards::{lemma_lex_cmp_swap, lex_cmp, split_bid, split_line, valid_hand, Strength, strength_level, all_cards};
use crate::numbers::{parse_u32, u32_of};
use crate::text::chars_of;

verus! {

broadcast use vstd::seq_lib::to_multiset_build, vstd::seq_lib::to_multiset_insert;

/// A card label under the joker rule: `J` is a joker, the weakest card, which stands
/// in for any other.
#[derive(Clone, Copy, Debug)]
pub enum Card {
    Joker,
    Two,
    Three,
    Four,
    Five,
    Six,
    Seven,
    Eight,
    Nine,
    Ten,
    Queen,
    King,
    Ace,
}

/// The strength of a card: 1 for the joker, 2 for a two up to 14 for an ace.
pub open spec fn card_rank(c: Card) -> u8 {
    match c {
        Card::Joker => 1,
        Card::Two => 2,
        Card::Three => 3,
        Card::Four => 4,
        Card::Five => 5,
        Card::Six => 6,
        Card::Seven => 7,
        Card::Eight => 8,
        Card::Nine => 9,
        Card::Ten => 10,
        Card::Queen => 12,
        Card::King => 13,
        Card::Ace => 14,
    }
}

/// Two ranks match when they are equal or one of them is the joker's.
pub open spec fn rank_match(a: u8, b: u8) -> bool {
    a == 1 || b == 1 || a == b
}

/// Two cards match when they are the same card or one of them is a joker.
pub open spec fn card_match(a: Card, b: Card) -> bool {
    rank_match(card_rank(a), card_rank(b))
}

/// The card a label character names.
pub open spec fn card_of(c: char) -> Option<Card> {
    if c == '2' {
        Some(Card::Two)
    } else if c == '3' {
        Some(Card::Three)
    } else if c == '4' {
        Some(Card::Four)
    } else if c == '5' {
        Some(Card::Five)
    } else if c == '6' {
        Some(Card::Six)
    } else if c == '7' {
        Some(Card::Seven)
    } else if c == '8' {
        Some(Card::Eight)
    } else if c == '9' {
        Some(Card::Nine)
    } else if c == 'T' {
        Some(Card::Ten)
    } else if c == 'J' {
        Some(Card::Joker)
    } else if c == 'Q' {
        Some(Card::Queen)
    } else if c == 'K' {
        Some(Card::King)
    } else if c == 'A' {
        Some(Card::Ace)
    } else {
        None
    }
}

pub open spec fn cards_of(s: Seq<char>) -> Seq<Card> {
    s.map_values(|c: char| card_of(c)->Some_0)
}

pub open spec fn ranks(cs: Seq<Card>) -> Seq<u8> {
    cs.map_values(|c: Card| card_rank(c))
}

/// Cards from the strongest to the weakest.
pub open spec fn sorted_desc(cs: Seq<Card>) -> bool {
    forall|i: int, j: int| 0 <= i < j < cs.len() ==> card_rank(cs[i]) >= card_rank(cs[j])
}

/// `p` picks `k` distinct positions of `s` whose entries all match each other.
pub open spec fn matching_choice(s: Seq<u8>, p: Seq<int>, k: int) -> bool {
    &&& p.len() == k
    &&& forall|a: int| 0 <= a < k ==> 0 <= #[trigger] p[a] < s.len()
    &&& forall|a: int, b: int| 0 <= a < b < k ==> p[a] != p[b]
    &&& forall|a: int, b: int| 0 <= a < k && 0 <= b < k ==> rank_match(s[p[a]], s[p[b]])
}

/// Some `k` of the entries of `s` all match each other.
pub open spec fn has_matching(s: Seq<u8>, k: int) -> bool {
    exists|p: Seq<int>| #[trigger] matching_choice(s, p, k)
}

/// All five cards match their neighbours, the last matching the first.
pub open spec fn five_sorted(cs: Seq<Card>) -> bool {
    card_match(cs[0], cs[1]) && card_match(cs[1], cs[2]) && card_match(cs[2], cs[3]) && card_match(
        cs[3],
        cs[4],
    ) && card_match(cs[4], cs[0])
}

/// Three matching cards and two matching cards, in a hand sorted by strength.
pub open spec fn full_house_sorted(cs: Seq<Card>) -> bool {
    (card_match(cs[0], cs[1]) && card_match(cs[1], cs[2]) && card_match(cs[3], cs[4])) || (
    card_match(cs[0], cs[1]) && card_match(cs[2], cs[3]) && card_match(cs[3], cs[4]))
}

/// Two matching pairs, in a hand sorted by strength.
pub open spec fn two_pair_sorted(cs: Seq<Card>) -> bool {
    (card_match(cs[1], cs[2]) && card_match(cs[3], cs[4])) || (card_match(cs[0], cs[1])
        && card_match(cs[3], cs[4])) || (card_match(cs[0], cs[1]) && card_match(cs[2], cs[3]))
}

/// The type of a hand of five cards sorted by strength, jokers standing in for any card.
pub open spec fn strength_of_sorted(cs: Seq<Card>) -> Strength {
    if five_sorted(cs) {
        Strength::FiveOfAKind
    } else if has_matching(ranks(cs), 4) {
        Strength::FourOfAKind
    } else if full_house_sorted(cs) {
        Strength::FullHouse
    } else if has_matching(ranks(cs), 3) {
        Strength::ThreeOfAKind
    } else if two_pair_sorted(cs) {
        Strength::TwoPair
    } else if has_matching(ranks(cs), 2) {
        Strength::OnePair
    } else {
        Strength::HighCard
    }
}

/// Orders by type first, then by the cards in the order they were dealt.
#[verifier::opaque]
pub open spec fn hand_cmp(a: Strength, ca: Seq<Card>, b: Strength, cb: Seq<Card>) -> Ordering {
    if strength_level(a) < strength_level(b) {
        Ordering::Less
    } else if strength_level(a) > strength_level(b) {
        Ordering::Greater
    } else {
        lex_cmp(ranks(ca), ranks(cb))
    }
}

impl Card {
    pub fn from(c: char) -> (r: Option<Card>)
        ensures
            r == card_of(c),
    {
        match c {
            'J' => Some(Card::Joker),
            '2' => Some(Card::Two),
            '3' => Some(Card::Three),
            '4' => Some(Card::Four),
            '5' => Some(Card::Five),
            '6' => Some(Card::Six),
            '7' => Some(Card::Seven),
            '8' => Some(Card::Eight),
            '9' => Some(Card::Nine),
            'T' => Some(Card::Ten),
            'Q' => Some(Card::Queen),
            'K' => Some(Card::King),
            'A' => Some(Card::Ace),
            _ => None,
        }
    }

    pub fn rank(&self) -> (r: u8)
        ensures
            r == card_rank(*self),
    {
        match self {
            Card::Joker => 1,
            Card::Two => 2,
            Card::Three => 3,
            Card::Four => 4,
            Card::Five => 5,
            Card::Six => 6,
            Card::Seven => 7,
            Card::Eight => 8,
            Card::Nine => 9,
            Card::Ten => 10,
            Card::Queen => 12,
            Card::King => 13,
            Card::Ace => 14,
        }
    }
}

/// A joker is taken for the same card as any card.
impl PartialEq for Card {
    fn eq(&self, other: &Card) -> (r: bool) {
        let a = self.rank();
        let b = other.rank();
        a == 1 || b == 1 || a == b
    }
}

impl vstd::std_specs::cmp::PartialEqSpecImpl for Card {
    open spec fn obeys_eq_spec() -> bool {
        true
    }

    open spec fn eq_spec(&self, other: &Card) -> bool {
        card_match(*self, *other)
    }
}

/// Whether all the given ranks match each other.
pub fn ranks_all_match(xs: &Vec<u8>) -> (r: bool)
    ensures
        r == forall|a: int, b: int|
            0 <= a < xs@.len() && 0 <= b < xs@.len() ==> rank_match(xs@[a], xs@[b]),
{
    let mut a: usize = 0;
    while a < xs.len()
        invariant
            a <= xs@.len(),
            forall|i: int, j: int| 0 <= i < a && 0 <= j < xs@.len() ==> rank_match(xs@[i], xs@[j]),
        decreases xs.len() - a,
    {
        let mut b: usize = 0;
        while b < xs.len()
            invariant
                a < xs@.len(),
                b <= xs@.len(),
                forall|i: int, j: int|
                    0 <= i < a && 0 <= j < xs@.len() ==> rank_match(xs@[i], xs@[j]),
                forall|j: int| 0 <= j < b ==> rank_match(xs@[a as int], xs@[j]),
            decreases xs.len() - b,
        {
            let x = xs[a];
            let y = xs[b];
            if !(x == 1 || y == 1 || x == y) {
                assert(!rank_match(xs@[a as int], xs@[b as int]));
                return false;
            }
            b = b + 1;
        }
        a = a + 1;
    }
    true
}

/// `p` picks `k` distinct positions of `s`, in some order.
pub open spec fn is_choice(s: Seq<u8>, p: Seq<int>, k: int) -> bool {
    &&& p.len() == k
    &&& forall|a: int| 0 <= a < k ==> 0 <= #[trigger] p[a] < s.len()
    &&& forall|a: int, b: int| 0 <= a < b < k ==> p[a] != p[b]
}

/// The entries of `s` at the positions `p`, in that order.
pub open spec fn picked(s: Seq<u8>, p: Seq<int>) -> Seq<u8> {
    p.map_values(|i: int| s[i])
}

/// `xs` holds the entries of `s` at choices of `k` distinct positions, and at every
/// such choice.
pub open spec fn are_arrangements(s: Seq<u8>, xs: Seq<Vec<u8>>, k: int) -> bool {
    &&& forall|i: int|
        0 <= i < xs.len() ==> exists|p: Seq<int>| #[trigger] is_choice(s, p, k) && (#[trigger] xs[i])@ == picked(s, p)
    &&& forall|p: Seq<int>|
        #[trigger] is_choice(s, p, k) ==> exists|i: int| 0 <= i < xs.len() && (#[trigger] xs[i])@ == picked(s, p)
}

/// All entries of `v` match each other.
pub open spec fn all_match(v: Seq<u8>) -> bool {
    forall|a: int, b: int| 0 <= a < v.len() && 0 <= b < v.len() ==> rank_match(v[a], v[b])
}

/// Relies on `Itertools::permutations`: it yields the items at every choice of `k`
/// distinct positions, in every order, and nothing else.
#[verifier::external_body]
fn arrangements(cs: &Vec<Card>, k: usize) -> (r: Vec<Vec<u8>>)
    ensures
        are_arrangements(ranks(cs@), r@, k as int),
{
    cs.iter().map(|c| c.rank()).permutations(k).collect()
}

/// Whether some `k` of the cards all match each other.
fn some_choice_matches(cs: &Vec<Card>, k: usize) -> (r: bool)
    ensures
        r == has_matching(ranks(cs@), k as int),
{
    let ghost s = ranks(cs@);
    let xs = arrangements(cs, k);
    let mut i: usize = 0;
    while i < xs.len()
        invariant
            s == ranks(cs@),
            are_arrangements(s, xs@, k as int),
            i <= xs@.len(),
            forall|q: int| 0 <= q < i ==> !all_match(#[trigger] xs@[q]@),
        decreases xs.len() - i,
    {
        if ranks_all_match(&xs[i]) {
            proof {
                let p = choose|p: Seq<int>| #[trigger] is_choice(s, p, k as int) && xs@[i as int]@ == picked(s, p);
                assert forall|a: int, b: int| 0 <= a < k && 0 <= b < k implies rank_match(s[p[a]], s[p[b]]) by {
                    assert(xs@[i as int]@[a] == s[p[a]]);
                    assert(xs@[i as int]@[b] == s[p[b]]);
                }
                assert(matching_choice(s, p, k as int));
            }
            return true;
        }
        i = i + 1;
    }
    proof {
        if has_matching(s, k as int) {
            let p = choose|p: Seq<int>| #[trigger] matching_choice(s, p, k as int);
            assert(is_choice(s, p, k as int));
            let q = choose|q: int| 0 <= q < xs@.len() && (#[trigger] xs@[q])@ == picked(s, p);
            assert forall|a: int, b: int| 0 <= a < xs@[q]@.len() && 0 <= b < xs@[q]@.len() implies rank_match(xs@[q]@[a], xs@[q]@[b]) by {
                assert(xs@[q]@[a] == s[p[a]]);
                assert(xs@[q]@[b] == s[p[b]]);
            }
            assert(all_match(xs@[q]@));
        }
    }
    false
}

/// The cards from the strongest to the weakest, jokers last.
pub fn sort_by_strength(cards: &Vec<Card>) -> (r: Vec<Card>)
    ensures
        sorted_desc(r@),
        r@.to_multiset() == cards@.to_multiset(),
{
    let mut out: Vec<Card> = Vec::new();
    let mut i: usize = 0;
    assert(cards@.subrange(0, 0) =~= out@);
    while i < cards.len()
        invariant
            i <= cards@.len(),
            sorted_desc(out@),
            out@.to_multiset() == cards@.subrange(0, i as int).to_multiset(),
        decreases cards.len() - i,
    {
        let x = cards[i];
        let rx = x.rank();
        let mut pos: usize = 0;
        while pos < out.len() && out[pos].rank() >= rx
            invariant
                pos <= out@.len(),
                forall|j: int| 0 <= j < pos ==> card_rank(out@[j]) >= rx,
            decreases out.len() - pos,
        {
            pos = pos + 1;
        }
        let ghost before = out@;
        out.insert(pos, x);
        proof {
            assert(out@ == before.insert(pos as int, x));
            assert forall|a: int, b: int| 0 <= a < b < out@.len() implies card_rank(out@[a])
                >= card_rank(out@[b]) by {
                if pos < before.len() {
                    assert(card_rank(before[pos as int]) < rx);
                }
            }
            assert(cards@.subrange(0, i + 1) =~= cards@.subrange(0, i as int).push(x));
        }
        i = i + 1;
    }
    assert(cards@.subrange(0, cards@.len() as int) =~= cards@);
    out
}

/// Compares two card sequences by rank, the first difference deciding.
pub fn compare_cards(a: &Vec<Card>, b: &Vec<Card>) -> (r: Ordering)
    ensures
        r == lex_cmp(ranks(a@), ranks(b@)),
{
    let mut i: usize = 0;
    assert(ranks(a@).subrange(0, a@.len() as int) =~= ranks(a@));
    assert(ranks(b@).subrange(0, b@.len() as int) =~= ranks(b@));
    while i < a.len() && i < b.len()
        invariant
            i <= a@.len(),
            i <= b@.len(),
            lex_cmp(ranks(a@), ranks(b@)) == lex_cmp(
                ranks(a@).subrange(i as int, a@.len() as int),
                ranks(b@).subrange(i as int, b@.len() as int),
            ),
        decreases a.len() - i,
    {
        let x = a[i].rank();
        let y = b[i].rank();
        if x < y {
            return Ordering::Less;
        }
        if x > y {
            return Ordering::Greater;
        }
        assert(ranks(a@).subrange(i as int, a@.len() as int).drop_first() =~= ranks(a@).subrange(
            i + 1,
            a@.len() as int,
        ));
        assert(ranks(b@).subrange(i as int, b@.len() as int).drop_first() =~= ranks(b@).subrange(
            i + 1,
            b@.len() as int,
        ));
        i = i + 1;
    }
    if i < a.len() {
        Ordering::Greater
    } else if i < b.len() {
        Ordering::Less
    } else {
        Ordering::Equal
    }
}

/// A hand of Camel Cards under the joker rule, with its bid.
#[derive(Debug)]
pub struct Hand {
    pub cards: Vec<Card>,
    pub strength: Strength,
    pub bid: u32,
}

impl Hand {
    /// Reads a hand such as `KTJJT 220`: five card labels and, after a space, the bid;
    /// a line of labels alone has a bid of 0. `None` where the line is no such hand.
    pub fn from(s: &str) -> (r: Option<Hand>)
        ensures
            r is Some <==> valid_hand(s@),
            r matches Some(h) ==> {
                &&& h.cards@ == cards_of(split_bid(s@).0)
                &&& exists|sorted: Seq<Card>|
                    {
                        &&& sorted_desc(sorted)
                        &&& sorted.to_multiset() == h.cards@.to_multiset()
                        &&& h.strength == #[trigger] strength_of_sorted(sorted)
                    }
                &&& Some(h.bid) == u32_of(split_bid(s@).1)
            },
    {
        let line = chars_of(s);
        let (cards_str, bid_str) = split_line(&line);
        if cards_str.len() != 5 {
            return None;
        }
        let mut cards: Vec<Card> = Vec::new();
        let mut i: usize = 0;
        while i < 5
            invariant
                i <= 5,
                cards_str@.len() == 5,
                cards_str@ == split_bid(s@).0,
                cards@.len() == i,
                forall|j: int| 0 <= j < i ==> (#[trigger] card_of(cards_str@[j])) is Some,
                forall|j: int| 0 <= j < i ==> cards@[j] == #[trigger] card_of(cards_str@[j])->Some_0,
            decreases 5 - i,
        {
            match Card::from(cards_str[i]) {
                Some(c) => cards.push(c),
                None => {
                    assert(crate::camel_cards::card_of(cards_str@[i as int]) is None);
                    assert(!all_cards(cards_str@));
                    return None;
                },
            }
            i = i + 1;
        }
        assert(cards@ =~= cards_of(cards_str@));
        assert(all_cards(cards_str@)) by {
            assert forall|j: int| 0 <= j < 5 implies (#[trigger] crate::camel_cards::card_of(
                cards_str@[j],
            )) is Some by {
                assert(card_of(cards_str@[j]) is Some);
            }
        }
        let cards_sorted = sort_by_strength(&cards);
        proof {
            cards@.to_multiset_ensures();
            cards_sorted@.to_multiset_ensures();
        }
        let strength = Hand::strength(&cards_sorted);
        let bid = match parse_u32(&bid_str) {
            Some(b) => b,
            None => {
                return None;
            },
        };
        Some(Hand { cards, strength, bid })
    }

    /// The type of five cards sorted from the strongest to the weakest.
    pub fn strength(cards_sorted: &Vec<Card>) -> (r: Strength)
        requires
            cards_sorted@.len() == 5,
        ensures
            r == strength_of_sorted(cards_sorted@),
    {
        if Hand::is_five_of_a_kind(cards_sorted) {
            return Strength::FiveOfAKind;
        }
        if Hand::is_four_of_a_kind(cards_sorted) {
            return Strength::FourOfAKind;
        }
        if Hand::is_full_house(cards_sorted) {
            return Strength::FullHouse;
        }
        if Hand::is_three_of_a_kind(cards_sorted) {
            return Strength::ThreeOfAKind;
        }
        if Hand::is_two_pair(cards_sorted) {
            return Strength::TwoPair;
        }
        if Hand::is_one_pair(cards_sorted) {
            return Strength::OnePair;
        }
        Strength::HighCard
    }

    pub fn is_five_of_a_kind(cs: &Vec<Card>) -> (r: bool)
        requires
            cs@.len() == 5,
        ensures
            r == five_sorted(cs@),
    {
        cs[0] == cs[1] && cs[1] == cs[2] && cs[2] == cs[3] && cs[3] == cs[4] && cs[4] == cs[0]
    }

    /// Some four of the cards all match each other.
    pub fn is_four_of_a_kind(cs: &Vec<Card>) -> (r: bool)
        ensures
            r == has_matching(ranks(cs@), 4),
    {
        some_choice_matches(cs, 4)
    }

    pub fn is_full_house(cs: &Vec<Card>) -> (r: bool)
        requires
            cs@.len() == 5,
        ensures
            r == full_house_sorted(cs@),
    {
        (cs[0] == cs[1] && cs[1] == cs[2]) && (cs[3] == cs[4]) || (cs[0] == cs[1]) && (cs[2]
            == cs[3] && cs[3] == cs[4])
    }

    /// Some three of the cards all match each other.
    pub fn is_three_of_a_kind(cs: &Vec<Card>) -> (r: bool)
        ensures
            r == has_matching(ranks(cs@), 3),
    {
        some_choice_matches(cs, 3)
    }

    pub fn is_two_pair(cs: &Vec<Card>) -> (r: bool)
        requires
            cs@.len() == 5,
        ensures
            r == two_pair_sorted(cs@),
    {
        (cs[1] == cs[2] && cs[3] == cs[4]) || (cs[0] == cs[1] && cs[3] == cs[4]) || (cs[0]
            == cs[1] && cs[2] == cs[3])
    }

    /// Some two of the cards match each other.
    pub fn is_one_pair(cs: &Vec<Card>) -> (r: bool)
        ensures
            r == has_matching(ranks(cs@), 2),
    {
        some_choice_matches(cs, 2)
    }
}

/// Card sequences of one length whose cards match position by position.
fn matching_cards(a: &Vec<Card>, b: &Vec<Card>) -> (r: bool)
    ensures
        r == (a@.len() == b@.len() && forall|j: int| 0 <= j < a@.len() ==> card_match(a@[j], b@[j])),
{
    if a.len() != b.len() {
        return false;
    }
    let mut i: usize = 0;
    while i < a.len()
        invariant
            a@.len() == b@.len(),
            i <= a@.len(),
            forall|j: int| 0 <= j < i ==> card_match(a@[j], b@[j]),
        decreases a.len() - i,
    {
        if a[i] != b[i] {
            return false;
        }
        i = i + 1;
    }
    true
}

/// Hands are equal when they are of one type and their cards match in the order dealt.
impl PartialEq for Hand {
    fn eq(&self, other: &Hand) -> (r: bool) {
        self.strength == other.strength && matching_cards(&self.cards, &other.cards)
    }
}

impl vstd::std_specs::cmp::PartialEqSpecImpl for Hand {
    open spec fn obeys_eq_spec() -> bool {
        true
    }

    open spec fn eq_spec(&self, other: &Hand) -> bool {
        &&& self.strength == other.strength
        &&& self.cards@.len() == other.cards@.len()
        &&& forall|j: int| 0 <= j < self.cards@.len() ==> card_match(self.cards@[j], other.cards@[j])
    }
}

/// Hands are ordered by type, then by their cards in the order they were dealt.
impl PartialOrd for Hand {
    fn partial_cmp(&self, other: &Hand) -> (r: Option<Ordering>) {
        reveal(hand_cmp);
        let a = self.strength.level();
        let b = other.strength.level();
        if a < b {
            Some(Ordering::Less)
        } else if a > b {
            Some(Ordering::Greater)
        } else {
            Some(compare_cards(&self.cards, &other.cards))
        }
    }
}

impl vstd::std_specs::cmp::PartialOrdSpecImpl for Hand {
    open spec fn obeys_partial_cmp_spec() -> bool {
        true
    }

    open spec fn partial_cmp_spec(&self, other: &Hand) -> Option<Ordering> {
        Some(hand_cmp(self.strength, self.cards@, other.strength, other.cards@))
    }
}

/// Swapping two hands swaps a win for a loss.
pub proof fn lemma_hand_cmp_swap(a: Strength, ca: Seq<Card>, b: Strength, cb: Seq<Card>)
    ensures
        hand_cmp(a, ca, b, cb) == Ordering::Greater <==> hand_cmp(b, cb, a, ca) == Ordering::Less,
{
    reveal(hand_cmp);
    lemma_lex_cmp_swap(ranks(ca), ranks(cb));
}

/// The hands are in increasing order: no hand ranks above the next.
pub open spec fn ranked(hs: Seq<Hand>) -> bool {
    forall|i: int|
        0 <= i < hs.len() - 1 ==> hand_cmp((#[trigger] hs[i]).strength, hs[i].cards@, hs[i + 1].strength, hs[i + 1].cards@)
            != Ordering::Greater
}

/// What the hands win: each hand's bid times its rank, the weakest ranking 1.
#[verifier::opaque]
pub open spec fn winnings(hs: Seq<Hand>) -> int
    decreases hs.len(),
{
    if hs.len() == 0 {
        0
    } else {
        winnings(hs.drop_last()) + hs.last().bid * hs.len()
    }
}

proof fn lemma_winnings_step(hs: Seq<Hand>)
    requires
        hs.len() > 0,
    ensures
        winnings(hs) == winnings(hs.drop_last()) + hs.last().bid * hs.len(),
{
    reveal(winnings);
}

proof fn lemma_winnings_grow(hs: Seq<Hand>, i: int)
    requires
        0 <= i <= hs.len(),
    ensures
        0 <= winnings(hs.subrange(0, i)) <= winnings(hs),
    decreases hs.len(),
{
    reveal(winnings);
    if hs.len() > 0 {
        let n = hs.len() as int;
        let b = hs.last().bid as int;
        assert(b * n >= 0) by (nonlinear_arith)
            requires
                b >= 0,
                n >= 0,
        ;
        if i == hs.len() {
            assert(hs.subrange(0, i) =~= hs);
            lemma_winnings_grow(hs.drop_last(), i - 1);
            assert(hs.drop_last().subrange(0, i - 1) =~= hs.drop_last());
        } else {
            lemma_winnings_grow(hs.drop_last(), i);
            assert(hs.drop_last().subrange(0, i) =~= hs.subrange(0, i));
        }
    } else {
        assert(hs.subrange(0, i) =~= hs);
    }
}

impl Hand {
    /// Compares by type, then by the cards in the order they were dealt.
    pub fn compare(&self, other: &Hand) -> (r: Ordering)
        ensures
            r == hand_cmp(self.strength, self.cards@, other.strength, other.cards@),
    {
        reveal(hand_cmp);
        let a = self.strength.level();
        let b = other.strength.level();
        if a < b {
            Ordering::Less
        } else if a > b {
            Ordering::Greater
        } else {
            compare_cards(&self.cards, &other.cards)
        }
    }
}

/// Whether hand `a` ranks above hand `b`.
fn ranks_above(a: &Hand, b: &Hand) -> (r: bool)
    ensures
        r == (hand_cmp(a.strength, a.cards@, b.strength, b.cards@) == Ordering::Greater),
{
    match a.compare(b) {
        Ordering::Greater => true,
        _ => false,
    }
}

/// Puts a hand into ranked hands before the first that ranks above it.
#[verifier::rlimit(40)]
fn insert_ranked(out: &mut Vec<Hand>, h: Hand)
    requires
        ranked(old(out)@),
    ensures
        ranked(final(out)@),
        final(out)@.to_multiset() == old(out)@.to_multiset().insert(h),
{
    let mut pos: usize = 0;
    while pos < out.len() && !ranks_above(&out[pos], &h)
        invariant
            pos <= out@.len(),
            forall|j: int|
                0 <= j < pos ==> hand_cmp((#[trigger] out@[j]).strength, out@[j].cards@, h.strength, h.cards@)
                    != Ordering::Greater,
        decreases out.len() - pos,
    {
        pos = pos + 1;
    }
    let ghost before = out@;
    proof {
        if pos < before.len() {
            let o = before[pos as int];
            lemma_hand_cmp_swap(o.strength, o.cards@, h.strength, h.cards@);
        }
    }
    out.insert(pos, h);
    proof {
        assert(out@ == before.insert(pos as int, h));
        assert forall|i: int| 0 <= i < out@.len() - 1 implies hand_cmp(
            (#[trigger] out@[i]).strength,
            out@[i].cards@,
            out@[i + 1].strength,
            out@[i + 1].cards@,
        ) != Ordering::Greater by {
            if i + 1 < pos {
                assert(out@[i] == before[i] && out@[i + 1] == before[i + 1]);
            } else if i + 1 == pos {
                assert(out@[i] == before[i] && out@[i + 1] == h);
            } else if i == pos {
                assert(out@[i] == h && out@[i + 1] == before[pos as int]);
            } else {
                assert(out@[i] == before[i - 1] && out@[i + 1] == before[i]);
            }
        }
    }
}

/// The hands from the weakest to the strongest.
pub fn rank_hands(hands: Vec<Hand>) -> (r: Vec<Hand>)
    ensures
        r@.to_multiset() == hands@.to_multiset(),
        ranked(r@),
{
    let ghost all = hands@;
    let mut rest = hands;
    let mut out: Vec<Hand> = Vec::new();
    assert(out@.to_multiset() =~= vstd::multiset::Multiset::empty()) by {
        out@.to_multiset_ensures();
    }
    assert(out@.to_multiset().add(rest@.to_multiset()) =~= all.to_multiset());
    while rest.len() > 0
        invariant
            out@.to_multiset().add(rest@.to_multiset()) == all.to_multiset(),
            ranked(out@),
        decreases rest.len(),
    {
        let ghost before_rest = rest@;
        let ghost before = out@;
        let h = rest.pop().unwrap();
        proof {
            assert(before_rest == rest@.push(h));
            assert(before_rest.to_multiset() == rest@.to_multiset().insert(h));
        }
        insert_ranked(&mut out, h);
        assert(out@.to_multiset().add(rest@.to_multiset()) =~= before.to_multiset().add(
            before_rest.to_multiset(),
        ));
    }
    assert(rest@.to_multiset() =~= vstd::multiset::Multiset::empty()) by {
        rest@.to_multiset_ensures();
    }
    assert(out@.to_multiset() =~= all.to_multiset());
    out
}

/// Ranks the hands and adds up each bid times its rank; `None` where the total does
/// not fit in a `u64`. Returns the ranked hands too.
pub fn total_winnings(hands: Vec<Hand>) -> (r: (Vec<Hand>, Option<u64>))
    ensures
        r.0@.to_multiset() == hands@.to_multiset(),
        ranked(r.0@),
        match r.1 {
            Some(v) => winnings(r.0@) == v,
            None => winnings(r.0@) > u64::MAX,
        },
{
    let ghost given = hands@;
    let ranked_hands = rank_hands(hands);
    let mut total: u64 = 0;
    let mut i: usize = 0;
    assert(ranked_hands@.subrange(0, 0) =~= Seq::<Hand>::empty());
    assert(winnings(Seq::<Hand>::empty()) == 0) by {
        reveal(winnings);
    }
    while i < ranked_hands.len()
        invariant
            i <= ranked_hands@.len(),
            ranked_hands@.to_multiset() == given.to_multiset(),
            given == hands@,
            ranked(ranked_hands@),
            winnings(ranked_hands@.subrange(0, i as int)) == total,
        decreases ranked_hands.len() - i,
    {
        assert(ranked_hands@.subrange(0, i + 1).drop_last() =~= ranked_hands@.subrange(0, i as int));
        proof {
            lemma_winnings_step(ranked_hands@.subrange(0, i + 1));
        }
        let bid = ranked_hands[i].bid as u64;
        let rank = (i as u64) + 1;
        let ghost b = bid as int;
        let ghost k = rank as int;
        assert(b * k <= 0xffff_ffff * 0x1_0000_0000_0000_0000) by (nonlinear_arith)
            requires
                0 <= b <= 0xffff_ffff,
                0 <= k <= 0x1_0000_0000_0000_0000,
        ;
        let prize = (bid as u128) * (rank as u128);
        if prize > (u64::MAX - total) as u128 {
            proof {
                lemma_winnings_grow(ranked_hands@, i + 1);
            }
            return (ranked_hands, None);
        }
        total = total + prize as u64;
        i = i + 1;
    }
    assert(ranked_hands@.subrange(0, ranked_hands@.len() as int) =~= ranked_hands@);
    (ranked_hands, Some(total))
}

} // verus!
