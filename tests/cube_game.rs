use pipe_maze::cube_game::{Bag, Game, Round};

#[test]
fn reads_a_game() {
    let game = Game::from("Game 1: 3 blue, 4 red; 1 red, 2 green, 6 blue; 2 green").unwrap();
    assert_eq!(game.id, 1);
    assert_eq!(game.rounds.len(), 3);
    assert_eq!(game.rounds[0], Round { red: 4, green: 0, blue: 3 });
    assert_eq!(game.rounds[1], Round { red: 1, green: 2, blue: 6 });
    assert_eq!(game.rounds[2], Round { red: 0, green: 2, blue: 0 });
}

#[test]
fn possible_games_fit_the_bag() {
    let bag = Bag { red: 12, green: 13, blue: 14 };
    let first = Game::from("Game 1: 3 blue, 4 red; 1 red, 2 green, 6 blue; 2 green").unwrap();
    let third =
        Game::from("Game 3: 8 green, 6 blue, 20 red; 5 blue, 4 red, 13 green; 5 green, 1 red")
            .unwrap();
    assert!(first.possible(&bag));
    assert!(!third.possible(&bag));
    assert!(!third.rounds[0].possible(&bag));
    assert!(third.rounds[1].possible(&bag));
}

#[test]
fn minimal_bag_and_power() {
    let first = Game::from("Game 1: 3 blue, 4 red; 1 red, 2 green, 6 blue; 2 green").unwrap();
    let bag = first.minimal_bag();
    assert_eq!(bag, Bag { red: 4, green: 2, blue: 6 });
    assert_eq!(bag.power(), 48);
    let third =
        Game::from("Game 3: 8 green, 6 blue, 20 red; 5 blue, 4 red, 13 green; 5 green, 1 red")
            .unwrap();
    assert_eq!(third.minimal_bag().power(), 1560);
    assert_eq!(Bag { red: 0, green: 7, blue: 9 }.power(), 0);
}

#[test]
fn malformed_rounds_are_refused() {
    assert_eq!(Round::from("5 purple"), None);
    assert_eq!(Round::from("five red"), None);
    assert_eq!(Round::from("5red"), None);
    assert!(Game::from("Game 1 3 blue").is_none());
    assert!(Game::from("Game x: 3 blue").is_none());
    assert!(Game::from("Game 2: 3 blue; 4 pink").is_none());
}

const GAMES: [&str; 5] = [
    "Game 1: 3 blue, 4 red; 1 red, 2 green, 6 blue; 2 green",
    "Game 2: 1 blue, 2 green; 3 green, 4 blue, 1 red; 1 green, 1 blue",
    "Game 3: 8 green, 6 blue, 20 red; 5 blue, 4 red, 13 green; 5 green, 1 red",
    "Game 4: 1 green, 3 red, 6 blue; 3 green, 6 red; 3 green, 15 blue, 14 red",
    "Game 5: 6 red, 1 blue, 3 green; 2 blue, 1 red, 2 green",
];

#[test]
fn sums_over_example_games() {
    let games: Vec<Game> = GAMES.iter().map(|s| Game::from(s).unwrap()).collect();
    let bag = Bag { red: 12, green: 13, blue: 14 };
    assert_eq!(pipe_maze::cube_game::possible_id_sum(&games, &bag), Some(8));
    let (bags, total) = pipe_maze::cube_game::power_sum(&games);
    assert_eq!(bags[0], Bag { red: 4, green: 2, blue: 6 });
    assert_eq!(total, Some(2286));
}
