use vstd::prelude::*;

use crate::numbers::{parse_u32, u32_of};
use crate::text::{chars_of, cut_at, cut_once, split_on, split_text};

verus! {

/// How many cubes of each colour a bag holds.
#[derive(Clone, Copy, Debug, PartialEq, Eq, Structural)]
pub struct Bag {
    pub red: u32,
    pub green: u32,
    pub blue: u32,
}

/// How many cubes of each colour were shown in one round of a game.
#[derive(Clone, Copy, Debug, PartialEq, Eq, Structural)]
pub struct Round {
    pub red: u32,
    pub green: u32,
    pub blue: u32,
}

/// A game: its number and the rounds played.
#[derive(Debug)]
pub struct Game {
    pub id: u32,
    pub rounds: Vec<Round>,
}

#[derive(Clone, Copy, Debug, PartialEq, Eq, Structural)]
pub enum Color {
    Red,
    Green,
    Blue,
}

pub open spec fn color_of(s: Seq<char>) -> Option<Color> {
    if s == seq!['r', 'e', 'd'] {
        Some(Color::Red)
    } else if s == seq!['g', 'r', 'e', 'e', 'n'] {
        Some(Color::Green)
    } else if s == seq!['b', 'l', 'u', 'e'] {
        Some(Color::Blue)
    } else {
        None
    }
}

/// `r` with the count of colour `c` set to `n`.
pub open spec fn with_count(r: Round, c: Color, n: u32) -> Round {
    match c {
        Color::Red => Round { red: n, ..r },
        Color::Green => Round { green: n, ..r },
        Color::Blue => Round { blue: n, ..r },
    }
}

/// One entry such as `5 green`: a count, a space and a colour.
pub open spec fn cubes_of(piece: Seq<char>) -> Option<(u32, Color)> {
    match cut_at(piece, seq![' ']) {
        Some((count, color)) => match (u32_of(count), color_of(color)) {
            (Some(n), Some(c)) => Some((n, c)),
            _ => None,
        },
        None => None,
    }
}

/// The round that entries describe, each entry setting the count of its colour.
pub open spec fn round_of_pieces(ps: Seq<Seq<char>>) -> Option<Round>
    decreases ps.len(),
{
    if ps.len() == 0 {
        Some(Round { red: 0, green: 0, blue: 0 })
    } else {
        match (round_of_pieces(ps.drop_last()), cubes_of(ps.last())) {
            (Some(r), Some((n, c))) => Some(with_count(r, c, n)),
            _ => None,
        }
    }
}

/// The round that a text such as `5 green, 2 blue, 10 red` describes.
pub open spec fn round_of(s: Seq<char>) -> Option<Round> {
    round_of_pieces(split_on(s, seq![',', ' ']))
}

/// The rounds that texts describe, if each describes one.
pub open spec fn rounds_of(ps: Seq<Seq<char>>) -> Option<Seq<Round>>
    decreases ps.len(),
{
    if ps.len() == 0 {
        Some(Seq::empty())
    } else {
        match (rounds_of(ps.drop_last()), round_of(ps.last())) {
            (Some(rs), Some(r)) => Some(rs.push(r)),
            _ => None,
        }
    }
}

/// The number and the rounds of a line such as `Game 50: 9 red; 5 green, 2 blue`.
pub open spec fn game_of(s: Seq<char>) -> Option<(u32, Seq<Round>)> {
    match cut_at(s, seq![':', ' ']) {
        Some((head, rest)) => match cut_at(head, seq![' ']) {
            Some((_, id)) => match (u32_of(id), rounds_of(split_on(rest, seq![';', ' ']))) {
                (Some(n), Some(rs)) => Some((n, rs)),
                _ => None,
            },
            None => None,
        },
        None => None,
    }
}

pub open spec fn fits(r: Round, bag: Bag) -> bool {
    r.red <= bag.red && r.green <= bag.green && r.blue <= bag.blue
}

impl Bag {
    /// The product of the three counts.
    pub fn power(&self) -> (r: u32)
        requires
            self.red * self.green * self.blue <= u32::MAX,
        ensures
            r == self.red * self.green * self.blue,
    {
        let ghost (x, y, z) = (self.red as int, self.green as int, self.blue as int);
        if self.red == 0 || self.green == 0 || self.blue == 0 {
            assert(x * y * z == 0) by (nonlinear_arith)
                requires
                    x == 0 || y == 0 || z == 0,
            ;
            return 0;
        }
        assert(x * y <= x * y * z) by (nonlinear_arith)
            requires
                x >= 0,
                y >= 0,
                z >= 1,
        ;
        self.red * self.green * self.blue
    }
}

fn color(s: &str) -> (r: Option<Color>)
    ensures
        r == color_of(s@),
{
    let cs = chars_of(s);
    let red = vec!['r', 'e', 'd'];
    let green = vec!['g', 'r', 'e', 'e', 'n'];
    let blue = vec!['b', 'l', 'u', 'e'];
    if same_text(&cs, &red) {
        assert(red@ =~= seq!['r', 'e', 'd']);
        Some(Color::Red)
    } else if same_text(&cs, &green) {
        assert(red@ =~= seq!['r', 'e', 'd']);
        assert(green@ =~= seq!['g', 'r', 'e', 'e', 'n']);
        Some(Color::Green)
    } else if same_text(&cs, &blue) {
        assert(red@ =~= seq!['r', 'e', 'd']);
        assert(green@ =~= seq!['g', 'r', 'e', 'e', 'n']);
        assert(blue@ =~= seq!['b', 'l', 'u', 'e']);
        Some(Color::Blue)
    } else {
        assert(red@ =~= seq!['r', 'e', 'd']);
        assert(green@ =~= seq!['g', 'r', 'e', 'e', 'n']);
        assert(blue@ =~= seq!['b', 'l', 'u', 'e']);
        None
    }
}

fn same_text(a: &Vec<char>, b: &Vec<char>) -> (r: bool)
    ensures
        r == (a@ == b@),
{
    if a.len() != b.len() {
        return false;
    }
    let mut i: usize = 0;
    while i < a.len()
        invariant
            a@.len() == b@.len(),
            i <= a@.len(),
            forall|j: int| 0 <= j < i ==> a@[j] == b@[j],
        decreases a.len() - i,
    {
        if a[i] != b[i] {
            return false;
        }
        i = i + 1;
    }
    assert(a@ =~= b@);
    true
}

impl Round {
    /// Reads a round such as `5 green, 2 blue, 10 red`; `None` where an entry is not a
    /// count and one of the colours red, green and blue.
    pub fn from(s: &str) -> (r: Option<Round>)
        ensures
            r == round_of(s@),
    {
        proof {
            reveal_strlit(", ");
            reveal_strlit(" ");
        }
        let pieces = split_text(s, ", ");
        assert(", "@ =~= seq![',', ' ']);
        let ghost ps = pieces@.map_values(|p: String| p@);
        let mut round = Round { red: 0, green: 0, blue: 0 };
        let mut i: usize = 0;
        assert(ps.subrange(0, 0) =~= Seq::<Seq<char>>::empty());
        while i < pieces.len()
            invariant
                ps == pieces@.map_values(|p: String| p@),
                ps == split_on(s@, seq![',', ' ']),
                i <= pieces@.len(),
                round_of_pieces(ps.subrange(0, i as int)) == Some(round),
            decreases pieces.len() - i,
        {
            assert(ps.subrange(0, i + 1).drop_last() =~= ps.subrange(0, i as int));
            proof {
                reveal_strlit(" ");
            }
            assert(" "@ =~= seq![' ']);
            let (count, name) = match cut_once(pieces[i].as_str(), " ") {
                Some(parts) => parts,
                None => {
                    proof {
                        lemma_none_prefix(ps, i as int + 1);
                    }
                    return None;
                },
            };
            let n = match parse_u32(&chars_of(count.as_str())) {
                Some(n) => n,
                None => {
                    proof {
                        lemma_none_prefix(ps, i as int + 1);
                    }
                    return None;
                },
            };
            match color(name.as_str()) {
                Some(Color::Red) => round = Round { red: n, ..round },
                Some(Color::Green) => round = Round { green: n, ..round },
                Some(Color::Blue) => round = Round { blue: n, ..round },
                None => {
                    proof {
                        lemma_none_prefix(ps, i as int + 1);
                    }
                    return None;
                },
            }
            i = i + 1;
        }
        assert(ps.subrange(0, ps.len() as int) =~= ps);
        Some(round)
    }

    /// The round can be played with the cubes in the bag.
    pub fn possible(&self, bag: &Bag) -> (r: bool)
        ensures
            r == fits(*self, *bag),
    {
        self.red <= bag.red && self.green <= bag.green && self.blue <= bag.blue
    }
}

/// Once a prefix of the entries fails to describe a round, so do all entries.
proof fn lemma_none_prefix(ps: Seq<Seq<char>>, i: int)
    requires
        0 <= i <= ps.len(),
        round_of_pieces(ps.subrange(0, i)) is None,
    ensures
        round_of_pieces(ps) is None,
    decreases ps.len() - i,
{
    if i < ps.len() {
        assert(ps.subrange(0, i + 1).drop_last() =~= ps.subrange(0, i));
        lemma_none_prefix(ps, i + 1);
    } else {
        assert(ps.subrange(0, i) =~= ps);
    }
}

proof fn lemma_rounds_none_prefix(ps: Seq<Seq<char>>, i: int)
    requires
        0 <= i <= ps.len(),
        rounds_of(ps.subrange(0, i)) is None,
    ensures
        rounds_of(ps) is None,
    decreases ps.len() - i,
{
    if i < ps.len() {
        assert(ps.subrange(0, i + 1).drop_last() =~= ps.subrange(0, i));
        lemma_rounds_none_prefix(ps, i + 1);
    } else {
        assert(ps.subrange(0, i) =~= ps);
    }
}

impl Game {
    /// Reads a game such as `Game 50: 9 red; 5 green, 2 blue, 10 red; 5 red, 1 green`.
    pub fn from(s: &str) -> (r: Option<Game>)
        ensures
            r is Some <==> game_of(s@) is Some,
            r matches Some(g) ==> game_of(s@) == Some((g.id, g.rounds@)),
    {
        proof {
            reveal_strlit(": ");
            reveal_strlit(" ");
            reveal_strlit("; ");
        }
        assert(": "@ =~= seq![':', ' ']);
        assert(" "@ =~= seq![' ']);
        assert("; "@ =~= seq![';', ' ']);
        let (head, rest) = match cut_once(s, ": ") {
            Some(parts) => parts,
            None => {
                return None;
            },
        };
        let (kind, id_text) = match cut_once(head.as_str(), " ") {
            Some(parts) => parts,
            None => {
                return None;
            },
        };
        let id = parse_u32(&chars_of(id_text.as_str()));
        let pieces = split_text(rest.as_str(), "; ");
        let ghost ps = pieces@.map_values(|p: String| p@);
        let mut rounds: Vec<Round> = Vec::new();
        let mut i: usize = 0;
        assert(ps.subrange(0, 0) =~= Seq::<Seq<char>>::empty());
        while i < pieces.len()
            invariant
                ps == pieces@.map_values(|p: String| p@),
                ps == split_on(rest@, seq![';', ' ']),
                cut_at(s@, seq![':', ' ']) == Some((head@, rest@)),
                cut_at(head@, seq![' ']) == Some((kind@, id_text@)),
                id == u32_of(id_text@),
                i <= pieces@.len(),
                rounds_of(ps.subrange(0, i as int)) == Some(rounds@),
            decreases pieces.len() - i,
        {
            assert(ps.subrange(0, i + 1).drop_last() =~= ps.subrange(0, i as int));
            match Round::from(pieces[i].as_str()) {
                Some(round) => rounds.push(round),
                None => {
                    proof {
                        lemma_rounds_none_prefix(ps, i as int + 1);
                    }
                    return None;
                },
            }
            i = i + 1;
        }
        assert(ps.subrange(0, ps.len() as int) =~= ps);
        match id {
            Some(id) => Some(Game { id, rounds }),
            None => None,
        }
    }

    /// Every round of the game can be played with the cubes in the bag.
    pub fn possible(&self, bag: &Bag) -> (r: bool)
        ensures
            r == forall|i: int| 0 <= i < self.rounds@.len() ==> fits(#[trigger] self.rounds@[i], *bag),
    {
        let mut i: usize = 0;
        while i < self.rounds.len()
            invariant
                i <= self.rounds@.len(),
                forall|j: int| 0 <= j < i ==> fits(#[trigger] self.rounds@[j], *bag),
            decreases self.rounds.len() - i,
        {
            if !self.rounds[i].possible(bag) {
                return false;
            }
            i = i + 1;
        }
        true
    }

    /// The smallest bag with which every round of the game can be played.
    pub fn minimal_bag(&self) -> (r: Bag)
        ensures
            forall|i: int| 0 <= i < self.rounds@.len() ==> fits(#[trigger] self.rounds@[i], r),
            r.red == 0 || exists|i: int| 0 <= i < self.rounds@.len() && #[trigger] self.rounds@[i].red == r.red,
            r.green == 0 || exists|i: int| 0 <= i < self.rounds@.len() && #[trigger] self.rounds@[i].green == r.green,
            r.blue == 0 || exists|i: int| 0 <= i < self.rounds@.len() && #[trigger] self.rounds@[i].blue == r.blue,
    {
        let mut bag = Bag { red: 0, green: 0, blue: 0 };
        let mut i: usize = 0;
        while i < self.rounds.len()
            invariant
                i <= self.rounds@.len(),
                forall|j: int| 0 <= j < i ==> fits(#[trigger] self.rounds@[j], bag),
                bag.red == 0 || exists|j: int| 0 <= j < i && #[trigger] self.rounds@[j].red == bag.red,
                bag.green == 0 || exists|j: int| 0 <= j < i && #[trigger] self.rounds@[j].green == bag.green,
                bag.blue == 0 || exists|j: int| 0 <= j < i && #[trigger] self.rounds@[j].blue == bag.blue,
            decreases self.rounds.len() - i,
        {
            let round = self.rounds[i];
            if round.red > bag.red {
                bag.red = round.red;
            }
            if round.green > bag.green {
                bag.green = round.green;
            }
            if round.blue > bag.blue {
                bag.blue = round.blue;
            }
            i = i + 1;
        }
        bag
    }
}

/// The sum of the numbers of the games that can be played with the bag.
pub open spec fn possible_ids(games: Seq<(u32, Seq<Round>)>, bag: Bag) -> int
    decreases games.len(),
{
    if games.len() == 0 {
        0
    } else {
        possible_ids(games.drop_last(), bag) + if forall|i: int|
            0 <= i < games.last().1.len() ==> fits(#[trigger] games.last().1[i], bag) {
            games.last().0 as int
        } else {
            0
        }
    }
}

/// The sum of the powers of the smallest bags of the games.
pub open spec fn power_total(bags: Seq<Bag>) -> int
    decreases bags.len(),
{
    if bags.len() == 0 {
        0
    } else {
        power_total(bags.drop_last()) + bags.last().red * bags.last().green * bags.last().blue
    }
}

pub open spec fn game_view(g: Game) -> (u32, Seq<Round>) {
    (g.id, g.rounds@)
}

proof fn lemma_possible_ids_grow(games: Seq<(u32, Seq<Round>)>, bag: Bag, i: int)
    requires
        0 <= i <= games.len(),
    ensures
        0 <= possible_ids(games.subrange(0, i), bag) <= possible_ids(games, bag),
    decreases games.len(),
{
    if games.len() > 0 {
        if i == games.len() {
            assert(games.subrange(0, i) =~= games);
            lemma_possible_ids_grow(games.drop_last(), bag, i - 1);
            assert(games.drop_last().subrange(0, i - 1) =~= games.drop_last());
        } else {
            lemma_possible_ids_grow(games.drop_last(), bag, i);
            assert(games.drop_last().subrange(0, i) =~= games.subrange(0, i));
        }
    } else {
        assert(games.subrange(0, i) =~= games);
    }
}

/// The sum of the numbers of the games that can be played with the bag; `None` where
/// it does not fit in a `u32`.
pub fn possible_id_sum(games: &Vec<Game>, bag: &Bag) -> (r: Option<u32>)
    ensures
        match r {
            Some(v) => possible_ids(games@.map_values(|g: Game| game_view(g)), *bag) == v,
            None => possible_ids(games@.map_values(|g: Game| game_view(g)), *bag) > u32::MAX,
        },
{
    let ghost gs = games@.map_values(|g: Game| game_view(g));
    let mut sum: u32 = 0;
    let mut i: usize = 0;
    assert(gs.subrange(0, 0) =~= Seq::<(u32, Seq<Round>)>::empty());
    while i < games.len()
        invariant
            gs == games@.map_values(|g: Game| game_view(g)),
            i <= games@.len(),
            possible_ids(gs.subrange(0, i as int), *bag) == sum,
        decreases games.len() - i,
    {
        assert(gs.subrange(0, i + 1).drop_last() =~= gs.subrange(0, i as int));
        let ok = games[i].possible(bag);
        proof {
            let g = gs.subrange(0, i + 1).last();
            assert(g == (games@[i as int].id, games@[i as int].rounds@));
            let rs = games@[i as int].rounds@;
            if ok {
                assert forall|j: int| 0 <= j < g.1.len() implies fits(#[trigger] g.1[j], *bag) by {
                    assert(fits(rs[j], *bag));
                }
            } else {
                let j = choose|j: int| 0 <= j < rs.len() && !fits(#[trigger] rs[j], *bag);
                assert(!fits(g.1[j], *bag));
            }
        }
        if ok {
            if games[i].id > u32::MAX - sum {
                proof {
                    lemma_possible_ids_grow(gs, *bag, i + 1);
                }
                return None;
            }
            sum = sum + games[i].id;
        }
        i = i + 1;
    }
    assert(gs.subrange(0, gs.len() as int) =~= gs);
    Some(sum)
}

proof fn lemma_power_total_grows(bags: Seq<Bag>, i: int)
    requires
        0 <= i <= bags.len(),
    ensures
        0 <= power_total(bags.subrange(0, i)) <= power_total(bags),
    decreases bags.len(),
{
    if bags.len() > 0 {
        let b = bags.last();
        assert(b.red * b.green * b.blue >= 0) by (nonlinear_arith);
        if i == bags.len() {
            assert(bags.subrange(0, i) =~= bags);
            lemma_power_total_grows(bags.drop_last(), i - 1);
            assert(bags.drop_last().subrange(0, i - 1) =~= bags.drop_last());
        } else {
            lemma_power_total_grows(bags.drop_last(), i);
            assert(bags.drop_last().subrange(0, i) =~= bags.subrange(0, i));
        }
    } else {
        assert(bags.subrange(0, i) =~= bags);
    }
}

/// The sum of the powers of the smallest bags of the games; `None` where a power or the
/// sum does not fit in a `u32`. Returns the smallest bags too.
pub fn power_sum(games: &Vec<Game>) -> (r: (Vec<Bag>, Option<u32>))
    ensures
        r.0@.len() == games@.len(),
        forall|i: int| 0 <= i < games@.len() ==> is_minimal(games@[i].rounds@, #[trigger] r.0@[i]),
        match r.1 {
            Some(v) => power_total(r.0@) == v,
            None => power_total(r.0@) > u32::MAX,
        },
{
    let mut bags: Vec<Bag> = Vec::new();
    let mut i: usize = 0;
    while i < games.len()
        invariant
            i <= games@.len(),
            bags@.len() == i,
            forall|j: int| 0 <= j < i ==> is_minimal(games@[j].rounds@, #[trigger] bags@[j]),
        decreases games.len() - i,
    {
        bags.push(games[i].minimal_bag());
        i = i + 1;
    }
    let mut sum: u32 = 0;
    let mut k: usize = 0;
    assert(bags@.subrange(0, 0) =~= Seq::<Bag>::empty());
    while k < bags.len()
        invariant
            k <= bags@.len(),
            bags@.len() == games@.len(),
            forall|j: int| 0 <= j < games@.len() ==> is_minimal(games@[j].rounds@, #[trigger] bags@[j]),
            power_total(bags@.subrange(0, k as int)) == sum,
        decreases bags.len() - k,
    {
        let b = bags[k];
        assert(bags@.subrange(0, k + 1).drop_last() =~= bags@.subrange(0, k as int));
        let ghost x = b.red as int;
        let ghost y = b.green as int;
        let ghost z = b.blue as int;
        assert(0 <= x * y <= 0xffff_ffff_ffff_ffff) by (nonlinear_arith)
            requires
                0 <= x <= 0xffff_ffff,
                0 <= y <= 0xffff_ffff,
        ;
        assert(0 <= x * y * z <= 0xffff_ffff_ffff_ffff_ffff_ffff) by (nonlinear_arith)
            requires
                0 <= x * y <= 0xffff_ffff_ffff_ffff,
                0 <= z <= 0xffff_ffff,
        ;
        let product = (b.red as u128) * (b.green as u128) * (b.blue as u128);
        if product > u32::MAX as u128 {
            proof {
                lemma_power_total_grows(bags@, k + 1);
            }
            return (bags, None);
        }
        let power = b.power();
        if power > u32::MAX - sum {
            proof {
                lemma_power_total_grows(bags@, k + 1);
            }
            return (bags, None);
        }
        sum = sum + power;
        k = k + 1;
    }
    assert(bags@.subrange(0, bags@.len() as int) =~= bags@);
    (bags, Some(sum))
}

/// `b` is the smallest bag with which every round can be played.
pub open spec fn is_minimal(rounds: Seq<Round>, b: Bag) -> bool {
    &&& forall|i: int| 0 <= i < rounds.len() ==> fits(#[trigger] rounds[i], b)
    &&& b.red == 0 || exists|i: int| 0 <= i < rounds.len() && #[trigger] rounds[i].red == b.red
    &&& b.green == 0 || exists|i: int| 0 <= i < rounds.len() && #[trigger] rounds[i].green == b.green
    &&& b.blue == 0 || exists|i: int| 0 <= i < rounds.len() && #[trigger] rounds[i].blue == b.blue
}

} // verus!
