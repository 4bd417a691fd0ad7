use pipe_maze::engine::Engine;

const SCHEMATIC: &str = "467..114..\n...*......\n..35..633.\n......#...\n617*......\n.....+.58.\n..592.....\n......755.\n...$.*....\n.664.598..";

#[test]
fn schematic_is_read_row_by_row() {
    let engine = Engine::from(SCHEMATIC);
    assert_eq!(engine.height, 10);
    assert_eq!(engine.width, 10);
    assert_eq!(engine.field(0, 0), '4');
    assert_eq!(engine.field(1, 3), '*');
    let mut symbols = engine.symbols.clone();
    symbols.sort();
    assert_eq!(symbols, vec!['#', '$', '*', '+']);
}

#[test]
fn neighbors_skip_dots_and_edges() {
    let engine = Engine::from(SCHEMATIC);
    assert_eq!(engine.neighbors(0, 2), vec!['6', '*']);
    assert_eq!(engine.neighbors(0, 0), vec!['6']);
    assert_eq!(engine.neighbors(9, 9), Vec::<char>::new());
}

#[test]
fn numbers_and_their_places() {
    let engine = Engine::from(SCHEMATIC);
    let (numbers, places) = engine.numbers();
    assert_eq!(numbers.len(), 10);
    assert_eq!(numbers[0], vec!['4', '6', '7']);
    assert_eq!(places[0], vec![(0, 0), (0, 1), (0, 2)]);
    assert_eq!(numbers[1], vec!['1', '1', '4']);
    assert!(engine.is_partnumber(&places[0]));
    assert!(!engine.is_partnumber(&places[1]));
}

#[test]
fn number_at_row_end_is_left_out() {
    let engine = Engine::from("..12\n*...");
    let (numbers, _) = engine.numbers();
    assert_eq!(numbers.len(), 0);
}

#[test]
fn sum_of_part_numbers() {
    let engine = Engine::from(SCHEMATIC);
    assert_eq!(engine.part_number_sum(), Some(4361));
    assert_eq!(Engine::new().part_number_sum(), Some(0));
}
