use pipe_maze::almanac::{AlmanacMap, Greenhouse, Range};
use pipe_maze::scratchcards::{Card, Numbers};

#[test]
fn range_reads_and_applies() {
    let r = Range::from("50 98 2").unwrap();
    assert_eq!(r, Range { destination_start: 50, source_start: 98, length: 2 });
    assert!(r.applies(98));
    assert!(r.applies(100));
    assert!(!r.applies(101));
    assert!(!r.applies(97));
    assert_eq!(r.get_destination(99), 51);
    assert_eq!(Range::from("50 98"), None);
    assert_eq!(Range::from("50 x 2"), None);
}

#[test]
fn map_sends_sources() {
    let m = AlmanacMap::from("seed-to-soil map:\n50 98 2\n52 50 48").unwrap();
    assert_eq!(m.name, "seed-to-soil");
    assert_eq!(m.ranges.len(), 2);
    assert_eq!(m.find_range_id(79), Some(1));
    assert_eq!(m.find_range_id(14), None);
    assert_eq!(m.get_destination(79), Some(81));
    assert_eq!(m.get_destination(14), Some(14));
    assert_eq!(m.get_destination(98), Some(50));
    assert_eq!(m.get_destination(55), Some(57));
    assert!(AlmanacMap::from("seed-to-soil map 50 98 2").is_none());
}

#[test]
fn lowest_location_of_seeds() {
    let text = "seeds: 79 14\n\nseed-to-soil map:\n50 98 2\n52 50 48\n\nsoil-to-fertilizer map:\n0 15 37\n37 52 2\n39 0 15";
    let g = Greenhouse::from(text).unwrap();
    assert_eq!(g.seeds, vec![79, 14]);
    assert_eq!(g.maps.len(), 2);
    assert_eq!(g.lowest_location(), Some(53));
    assert!(Greenhouse::from("seeds: 1 2").is_none());
}

#[test]
fn location_beyond_u64_is_reported() {
    let text = "seeds: 10\n\na-to-b map:\n18446744073709551615 5 10";
    let g = Greenhouse::from(text).unwrap();
    assert_eq!(g.lowest_location(), None);
}

#[test]
fn scratchcard_worth() {
    let card = Card::from("Card 1: 41 48 83 86 17 | 83 86  6 31 17  9 48 53").unwrap();
    let mut matching = card.numbers_matching();
    matching.sort();
    assert_eq!(matching, vec![17, 48, 83, 86]);
    assert_eq!(card.worth(), 8);
    let card = Card::from("Card 5: 87 83 26 28 32 | 88 30 70 12 93 22 82 36").unwrap();
    assert_eq!(card.worth(), 0);
    let card = Card::from("Card 4: 41 92 73 84 69 | 59 84 76 51 58  5 54 83").unwrap();
    assert_eq!(card.worth(), 1);
}

#[test]
fn numbers_keep_each_once() {
    assert_eq!(Numbers::from(" 5 6  5 7 ").unwrap().numbers, vec![5, 6, 7]);
    assert!(Numbers::from("5 x").is_none());
    assert!(Card::from("Card 1: 1 2 3").is_none());
}

const CARDS: [&str; 6] = [
    "Card 1: 41 48 83 86 17 | 83 86  6 31 17  9 48 53",
    "Card 2: 13 32 20 16 61 | 61 30 68 82 17 32 24 19",
    "Card 3:  1 21 53 59 44 | 69 82 63 72 16 21 14  1",
    "Card 4: 41 92 73 84 69 | 59 84 76 51 58  5 54 83",
    "Card 5: 87 83 26 28 32 | 88 30 70 12 93 22 82 36",
    "Card 6: 31 18 13 56 72 | 74 77 10 23 35 67 36 11",
];

#[test]
fn scratchcard_points_and_copies_of_example() {
    let cards: Vec<Card> = CARDS.iter().map(|s| Card::from(s).unwrap()).collect();
    assert_eq!(pipe_maze::scratchcards::points_total(&cards), Some(13));
    assert_eq!(pipe_maze::scratchcards::total_scratchcards(&cards), Some(30));
    assert_eq!(pipe_maze::scratchcards::total_scratchcards(&vec![]), Some(0));
}
