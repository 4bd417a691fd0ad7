use pipe_maze::camel_cards;
use pipe_maze::camel_cards::Strength;
use pipe_maze::camel_cards::Strength::{
    FiveOfAKind, FourOfAKind, FullHouse, HighCard, OnePair, ThreeOfAKind, TwoPair,
};
use pipe_maze::camel_cards_joker::Hand;

fn hand(s: &str) -> Hand {
    Hand::from(s).unwrap()
}

fn plain(s: &str) -> camel_cards::Hand {
    camel_cards::Hand::from(s).unwrap()
}

#[test]
fn main_parsing() {
    assert_eq!(hand("KAKA3"), hand("KAKA3"));
    assert_ne!(hand("KAKA3"), hand("KK3AA"));
    assert_ne!(hand("KKTTT"), hand("TTTKK"));
    assert_ne!(hand("23456"), hand("789TJ"));
    assert_ne!(hand("2345T"), hand("2345Q"));
    assert_ne!(hand("2345T"), hand("2345J"));
    assert_ne!(hand("AAATT"), hand("TTTAA"));
}

#[test]
fn main_strength() {
    assert_eq!(hand("AAAAA").strength, FiveOfAKind);
    assert_eq!(hand("AA8AA").strength, FourOfAKind);
    assert_eq!(hand("23332").strength, FullHouse);
    assert_eq!(hand("TTT98").strength, ThreeOfAKind);
    assert_eq!(hand("23432").strength, TwoPair);
    assert_eq!(hand("A23A4").strength, OnePair);
    assert_eq!(hand("23456").strength, HighCard);

    assert_eq!(hand("QJJQ2").strength, FourOfAKind);
    assert_eq!(hand("32T3K").strength, OnePair);
    assert_eq!(hand("KK677").strength, TwoPair);
    assert_eq!(hand("T55J5").strength, FourOfAKind);
    assert_eq!(hand("KTJJT").strength, FourOfAKind);
    assert_eq!(hand("QQQJA").strength, FourOfAKind);
}

const FIVES: [&str; 8] = ["KKKKK", "22222", "JKKKK", "KJKKK", "KKJKK", "KKKJK", "KKKKJ", "JJJJJ"];

const FOURS: [&str; 10] = [
    "2KKKK", "K2KKK", "KK2KK", "KKK2K", "KKKK2", "2JKKK", "2KJKK", "2KJJK", "2KJKJ", "2KJJJ",
];

const FULL_HOUSES: [&str; 5] = ["KKKQQ", "QQKKK", "QQJKK", "KJKQQ", "AAJQQ"];

const THREES: [&str; 7] = ["AAA23", "23334", "AA23A", "KKK23", "KKJ23", "AJ5QQ", "KJJ23"];

const TWO_PAIRS: [&str; 3] = ["AA3KK", "23344", "44575"];

const ONE_PAIRS: [&str; 3] = ["AA234", "J2345", "J9QKA"];

const HIGH_CARDS: [&str; 2] = ["23456", "789TQ"];

fn test_positive(expect: Strength, testees: &[&str]) {
    for positive in testees {
        let h = hand(positive);
        assert_eq!(h.strength, expect, "{:} {:?}", positive, h.cards)
    }
}

fn test_negative(expect: Strength, testees: &[&str]) {
    for negative in testees {
        let h = hand(negative);
        assert_ne!(h.strength, expect, "{:} {:?}", negative, h.cards)
    }
}

#[test]
fn strength_five_of_a_kind() {
    let expect = FiveOfAKind;
    test_positive(expect, &FIVES);
    test_negative(expect, &FOURS);
    test_negative(expect, &FULL_HOUSES);
    test_negative(expect, &THREES);
    test_negative(expect, &TWO_PAIRS);
    test_negative(expect, &ONE_PAIRS);
    test_negative(expect, &HIGH_CARDS);
}

#[test]
fn strength_four_of_a_kind() {
    let expect = FourOfAKind;
    test_positive(expect, &FOURS);
    test_negative(expect, &FIVES);
    test_negative(expect, &FULL_HOUSES);
    test_negative(expect, &THREES);
    test_negative(expect, &TWO_PAIRS);
    test_negative(expect, &ONE_PAIRS);
    test_negative(expect, &HIGH_CARDS);
}

#[test]
fn strength_full_house() {
    let expect = FullHouse;
    test_positive(expect, &FULL_HOUSES);
    test_negative(expect, &FIVES);
    test_negative(expect, &FOURS);
    test_negative(expect, &THREES);
    test_negative(expect, &TWO_PAIRS);
    test_negative(expect, &ONE_PAIRS);
    test_negative(expect, &HIGH_CARDS);
}

#[test]
fn strength_three_of_a_kind() {
    let expect = ThreeOfAKind;
    test_positive(expect, &THREES);
    test_negative(expect, &FIVES);
    test_negative(expect, &FOURS);
    test_negative(expect, &FULL_HOUSES);
    test_negative(expect, &TWO_PAIRS);
    test_negative(expect, &ONE_PAIRS);
    test_negative(expect, &HIGH_CARDS);
}

#[test]
fn strength_two_pair() {
    let expect = TwoPair;
    test_positive(expect, &TWO_PAIRS);
    test_negative(expect, &FIVES);
    test_negative(expect, &FOURS);
    test_negative(expect, &FULL_HOUSES);
    test_negative(expect, &THREES);
    test_negative(expect, &ONE_PAIRS);
    test_negative(expect, &HIGH_CARDS);
}

#[test]
fn strength_one_pair() {
    let expect = OnePair;
    test_positive(expect, &ONE_PAIRS);
    test_negative(expect, &FIVES);
    test_negative(expect, &FOURS);
    test_negative(expect, &FULL_HOUSES);
    test_negative(expect, &THREES);
    test_negative(expect, &TWO_PAIRS);
    test_negative(expect, &HIGH_CARDS);
}

#[test]
fn strength_high_card() {
    let expect = HighCard;
    test_positive(expect, &HIGH_CARDS);
    test_negative(expect, &FIVES);
    test_negative(expect, &FOURS);
    test_negative(expect, &FULL_HOUSES);
    test_negative(expect, &THREES);
    test_negative(expect, &TWO_PAIRS);
    test_negative(expect, &ONE_PAIRS);
}

#[test]
fn main_order() {
    assert!(hand("33332") > hand("2AAAA"));
    assert!(hand("77888") > hand("77788"));
}

#[test]
fn joker_ranking_of_example() {
    let mut hands: Vec<Hand> =
        ["32T3K", "T55J5", "KK677", "KTJJT", "QQQJA"].iter().map(|s| hand(s)).collect();
    hands.sort_by(|a, b| a.partial_cmp(b).unwrap());
    let order: Vec<u8> = hands.iter().map(|h| h.cards[0].rank()).collect();
    assert_eq!(order, vec![3, 13, 10, 12, 13]);
    assert_eq!(hands[4].cards[1].rank(), 10);
}

#[test]
fn bid_is_read_after_space() {
    assert_eq!(hand("32T3K 765").bid, 765);
    assert_eq!(hand("32T3K").bid, 0);
    assert_eq!(hand("32T3K +7").bid, 7);
    assert!(Hand::from("32T3K x").is_none());
    assert!(Hand::from("32T3K 4294967296").is_none());
    assert_eq!(hand("32T3K 4294967295").bid, 4294967295);
    assert!(Hand::from("32T3").is_none());
    assert!(Hand::from("32T3KA").is_none());
    assert!(Hand::from("32X3K 1").is_none());
}

#[test]
fn plain_parsing() {
    assert_eq!(plain("KAKA3"), plain("KK3AA"));
    assert_eq!(plain("KKTTT"), plain("TTTKK"));
    assert_ne!(plain("23456"), plain("789TJ"));
    assert_ne!(plain("2345T"), plain("2345J"));
    assert_ne!(plain("AAATT"), plain("TTTAA"));
}

#[test]
fn plain_strength() {
    assert_eq!(plain("AAAAA").strength, FiveOfAKind);
    assert_eq!(plain("AA8AA").strength, FourOfAKind);
    assert_eq!(plain("23332").strength, FullHouse);
    assert_eq!(plain("TTT98").strength, ThreeOfAKind);
    assert_eq!(plain("23432").strength, TwoPair);
    assert_eq!(plain("A23A4").strength, OnePair);
    assert_eq!(plain("23456").strength, HighCard);
}

#[test]
fn plain_order() {
    assert!(plain("33332") > plain("2AAAA"));
    assert!(plain("77888") > plain("77788"));
}

#[test]
fn plain_ranking_of_example() {
    let mut hands: Vec<camel_cards::Hand> =
        ["32T3K 765", "T55J5 684", "KK677 28", "KTJJT 220", "QQQJA 483"].iter().map(|s| plain(s)).collect();
    hands.sort_by(|a, b| a.partial_cmp(b).unwrap());
    let bids: Vec<u32> = hands.iter().map(|h| h.bid).collect();
    assert_eq!(bids, vec![765, 220, 28, 684, 483]);
}

#[test]
fn plain_sorted_cards_descend() {
    let h = plain("A23A4");
    let ranks: Vec<u8> = h.cards_sorted.iter().map(|c| c.rank()).collect();
    assert_eq!(ranks, vec![14, 14, 4, 3, 2]);
}

const EXAMPLE: [&str; 5] = ["32T3K 765", "T55J5 684", "KK677 28", "KTJJT 220", "QQQJA 483"];

#[test]
fn plain_total_winnings_of_example() {
    let hands: Vec<camel_cards::Hand> = EXAMPLE.iter().map(|s| plain(s)).collect();
    let (ranked, total) = camel_cards::total_winnings(hands);
    assert_eq!(total, Some(6440));
    let bids: Vec<u32> = ranked.iter().map(|h| h.bid).collect();
    assert_eq!(bids, vec![765, 220, 28, 684, 483]);
}

#[test]
fn joker_total_winnings_of_example() {
    let hands: Vec<Hand> = EXAMPLE.iter().map(|s| hand(s)).collect();
    let (ranked, total) = pipe_maze::camel_cards_joker::total_winnings(hands);
    assert_eq!(total, Some(5905));
    let bids: Vec<u32> = ranked.iter().map(|h| h.bid).collect();
    assert_eq!(bids, vec![765, 28, 684, 483, 220]);
}
