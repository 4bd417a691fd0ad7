use vstd::prelude::*;

use crate::direction::{neighbor, opposite_of, Direction};
use crate::text::{
    chars_of, lemma_split_rows_keeps, lemma_split_rows_nonempty, lemma_split_rows_prefix,
    lemma_trimmed_keeps, split_rows, trim, trimmed, white_space,
};

verus! {

/// Why a grid could not be read, or its loop not be walked.
#[derive(Clone, Copy, Debug, PartialEq, Eq, Structural)]
pub enum GridError {
    /// A character outside the tile alphabet stands in the grid.
    MalformedGlyph,
    /// The rows do not all have the length of the first.
    NonRectangularGrid,
    /// No cell holds the start glyph `S`.
    StartNotFound,
    /// The start cell has a number of pipe neighbours pointing at it other than two.
    AmbiguousStartConnectivity,
    /// The walk along the loop met a tile that does not continue it in exactly one way.
    BrokenLoopInvariant,
}

/// The directions a glyph's pipe leaves its tile in; `None` for a character outside
/// the alphabet. The start glyph gets its connections later, from its neighbours.
pub open spec fn glyph_connections(glyph: char) -> Option<Seq<Direction>> {
    if glyph == '|' {
        Some(seq![Direction::North, Direction::South])
    } else if glyph == '-' {
        Some(seq![Direction::East, Direction::West])
    } else if glyph == 'L' {
        Some(seq![Direction::North, Direction::East])
    } else if glyph == 'J' {
        Some(seq![Direction::North, Direction::West])
    } else if glyph == '7' {
        Some(seq![Direction::South, Direction::West])
    } else if glyph == 'F' {
        Some(seq![Direction::South, Direction::East])
    } else if glyph == '.' || glyph == 'S' {
        Some(seq![])
    } else {
        None
    }
}

/// What a grid holds at one cell.
pub struct Cell {
    pub glyph: char,
    pub connects: Seq<Direction>,
}

/// A grid as rows of cells, and the (row, column) of its start cell.
pub struct GridModel {
    pub cells: Seq<Seq<Cell>>,
    pub start: (int, int),
}

impl GridModel {
    pub open spec fn in_bounds(self, p: (int, int)) -> bool {
        0 <= p.0 < self.cells.len() && 0 <= p.1 < self.cells[p.0].len()
    }

    pub open spec fn conns(self, p: (int, int)) -> Seq<Direction> {
        self.cells[p.0][p.1].connects
    }

    /// The cell next to `p` towards `d` exists and connects back towards `p`.
    pub open spec fn points_back(self, p: (int, int), d: Direction) -> bool {
        self.in_bounds(neighbor(p, d)) && self.conns(neighbor(p, d)).contains(opposite_of(d))
    }

    pub open spec fn pick(self, p: (int, int), d: Direction) -> Seq<Direction> {
        if self.points_back(p, d) {
            seq![d]
        } else {
            seq![]
        }
    }

    /// The directions in which a neighbour of `p` connects back to `p`, in the order
    /// north, west, south, east.
    pub open spec fn inferred(self, p: (int, int)) -> Seq<Direction> {
        self.pick(p, Direction::North) + self.pick(p, Direction::West) + self.pick(
            p,
            Direction::South,
        ) + self.pick(p, Direction::East)
    }

    /// A tile that can stand on a loop: it has two connections, and the neighbour at
    /// the end of each exists and connects back to it.
    #[verifier::opaque]
    pub open spec fn loop_tile(self, p: (int, int)) -> bool {
        &&& self.in_bounds(p)
        &&& self.conns(p).len() == 2
        &&& self.points_back(p, self.conns(p)[0])
        &&& self.points_back(p, self.conns(p)[1])
    }
}

pub open spec fn cell_of(glyph: char) -> Cell {
    Cell {
        glyph,
        connects: match glyph_connections(glyph) {
            Some(ds) => ds,
            None => seq![],
        },
    }
}

pub open spec fn cells_of(rows: Seq<Seq<char>>) -> Seq<Seq<Cell>> {
    rows.map_values(|row: Seq<char>| row.map_values(|g: char| cell_of(g)))
}

pub open spec fn glyphs_known(rows: Seq<Seq<char>>) -> bool {
    forall|r: int, c: int|
        0 <= r < rows.len() && 0 <= c < rows[r].len() ==> (#[trigger] glyph_connections(
            rows[r][c],
        )) is Some
}

pub open spec fn rectangular(rows: Seq<Seq<char>>) -> bool {
    forall|r: int| 0 <= r < rows.len() ==> #[trigger] rows[r].len() == rows[0].len()
}

pub open spec fn has_start(rows: Seq<Seq<char>>) -> bool {
    exists|r: int, c: int| 0 <= r < rows.len() && 0 <= c < rows[r].len() && rows[r][c] == 'S'
}

/// `p` holds the start glyph, and no cell after it in reading order does.
pub open spec fn is_last_start(rows: Seq<Seq<char>>, p: (int, int)) -> bool {
    &&& 0 <= p.0 < rows.len()
    &&& 0 <= p.1 < rows[p.0].len()
    &&& rows[p.0][p.1] == 'S'
    &&& forall|r: int, c: int|
        0 <= r < rows.len() && 0 <= c < rows[r].len() && rows[r][c] == 'S' ==> r < p.0 || (r
            == p.0 && c <= p.1)
}

pub open spec fn last_start(rows: Seq<Seq<char>>) -> (int, int) {
    choose|p: (int, int)| is_last_start(rows, p)
}

/// The grid that the rows describe before the start cell is given its connections.
pub open spec fn unpatched(rows: Seq<Seq<char>>) -> GridModel {
    GridModel { cells: cells_of(rows), start: last_start(rows) }
}

/// `m` with its start cell connected towards every neighbour that points back at it.
pub open spec fn patched(m: GridModel) -> GridModel {
    GridModel {
        cells: m.cells.update(
            m.start.0,
            m.cells[m.start.0].update(m.start.1, Cell { glyph: 'S', connects: m.inferred(m.start) }),
        ),
        start: m.start,
    }
}

/// The grid that rows of glyphs describe, or the first fault found in them.
pub open spec fn grid_of_rows(rows: Seq<Seq<char>>) -> Result<GridModel, GridError> {
    if !glyphs_known(rows) {
        Err(GridError::MalformedGlyph)
    } else if !rectangular(rows) {
        Err(GridError::NonRectangularGrid)
    } else if !has_start(rows) {
        Err(GridError::StartNotFound)
    } else if unpatched(rows).inferred(unpatched(rows).start).len() != 2 {
        Err(GridError::AmbiguousStartConnectivity)
    } else {
        Ok(patched(unpatched(rows)))
    }
}

/// The inferred connections of a cell name no direction twice.
pub proof fn lemma_inferred_distinct(m: GridModel, p: (int, int))
    ensures
        m.inferred(p).len() == 2 ==> m.inferred(p)[0] != m.inferred(p)[1],
{
}

pub proof fn lemma_last_start_unique(rows: Seq<Seq<char>>, p: (int, int))
    requires
        is_last_start(rows, p),
    ensures
        last_start(rows) == p,
{
    let q = last_start(rows);
    assert(is_last_start(rows, q));
}

/// The grid that a text describes once white space around it is removed.
pub open spec fn grid_of_text(s: Seq<char>) -> Result<GridModel, GridError> {
    grid_of_rows(split_rows(trimmed(s)))
}

/// A place in the grid as (row, column) in numbers.
pub open spec fn at(p: (usize, usize)) -> (int, int) {
    (p.0 as int, p.1 as int)
}

/// A text holding a character that is neither white space, nor a line feed, nor a
/// glyph of the catalogue, is refused as malformed before anything else is looked at.
pub proof fn lemma_malformed_glyph(s: Seq<char>, i: int)
    requires
        0 <= i < s.len(),
        !white_space(s[i]),
        s[i] != '\n',
        glyph_connections(s[i]) is None,
    ensures
        grid_of_text(s) == Err::<GridModel, GridError>(GridError::MalformedGlyph),
{
    lemma_trimmed_keeps(s, i);
    let t = trimmed(s);
    let j = choose|j: int| 0 <= j < t.len() && t[j] == s[i];
    lemma_split_rows_keeps(t, j);
    let rows = split_rows(t);
    let (r, c) = choose|r: int, c: int|
        0 <= r < rows.len() && 0 <= c < rows[r].len() && rows[r][c] == t[j];
    assert(glyph_connections(rows[r][c]) is None);
    assert(!glyphs_known(rows));
}

/// One cell of a grid: where it stands, its glyph and the directions its pipe leaves in.
pub struct Tile {
    pub row: usize,
    pub col: usize,
    pub glyph: char,
    pub connects: Vec<Direction>,
}

pub open spec fn tile_cell(t: Tile) -> Cell {
    Cell { glyph: t.glyph, connects: t.connects@ }
}

impl Tile {
    pub fn connects_to(&self, direction: Direction) -> (r: bool)
        ensures
            r == self.connects@.contains(direction),
    {
        let mut i: usize = 0;
        while i < self.connects.len()
            invariant
                i <= self.connects@.len(),
                forall|j: int| 0 <= j < i ==> self.connects@[j] != direction,
            decreases self.connects.len() - i,
        {
            if self.connects[i] == direction {
                return true;
            }
            i = i + 1;
        }
        false
    }
}

/// A rectangular block of tiles addressed by (row, column), with the place of its
/// start tile.
pub struct Grid {
    pub tiles: Vec<Vec<Tile>>,
    pub start_row: usize,
    pub start_col: usize,
}

impl View for Grid {
    type V = GridModel;

    closed spec fn view(&self) -> GridModel {
        GridModel {
            cells: self.tiles@.map_values(|row: Vec<Tile>| row@.map_values(|t: Tile| tile_cell(t))),
            start: (self.start_row as int, self.start_col as int),
        }
    }
}

spec fn row_matches(ts: Seq<Tile>, r: int, gs: Seq<char>) -> bool {
    &&& ts.len() == gs.len()
    &&& forall|c: int|
        0 <= c < ts.len() ==> {
            &&& (#[trigger] ts[c]).row == r
            &&& ts[c].col == c
            &&& ts[c].glyph == gs[c]
            &&& glyph_connections(gs[c]) == Some(ts[c].connects@)
        }
}

impl Grid {
    /// Rows of equal length, each tile knowing its own place and standing for the cell
    /// of the model there, and a start inside.
    pub open spec fn wf(&self) -> bool {
        &&& self.tiles@.len() > 0
        &&& self@.cells.len() == self.tiles@.len()
        &&& forall|r: int|
            0 <= r < self@.cells.len() ==> (#[trigger] self@.cells[r]).len() == self@.cells[0].len()
                && self@.cells[r].len() == self.tiles@[r]@.len()
        &&& forall|r: int, c: int|
            0 <= r < self.tiles@.len() && 0 <= c < self.tiles@[r]@.len() ==> tile_cell(
                #[trigger] self.tiles@[r]@[c],
            ) == self@.cells[r][c]
        &&& forall|r: int|
            0 <= r < self.tiles@.len() ==> (#[trigger] self.tiles@[r])@.len()
                == self.tiles@[0]@.len()
        &&& forall|r: int, c: int|
            0 <= r < self.tiles@.len() && 0 <= c < self.tiles@[r]@.len() ==> {
                &&& (#[trigger] self.tiles@[r]@[c]).row == r
                &&& self.tiles@[r]@[c].col == c
            }
        &&& self@.in_bounds(self@.start)
    }

    pub fn connections_by_char(glyph: char) -> (r: Result<Vec<Direction>, GridError>)
        ensures
            match glyph_connections(glyph) {
                Some(ds) => r matches Ok(v) && v@ == ds,
                None => r matches Err(e) && e == GridError::MalformedGlyph,
            },
    {
        match glyph {
            '|' => Ok(vec![Direction::North, Direction::South]),
            '-' => Ok(vec![Direction::East, Direction::West]),
            'L' => Ok(vec![Direction::North, Direction::East]),
            'J' => Ok(vec![Direction::North, Direction::West]),
            '7' => Ok(vec![Direction::South, Direction::West]),
            'F' => Ok(vec![Direction::South, Direction::East]),
            '.' => Ok(vec![]),
            'S' => Ok(vec![]),
            _ => Err(GridError::MalformedGlyph),
        }
    }

    /// The (row, column) of the start tile.
    pub fn start(&self) -> (r: (usize, usize))
        ensures
            at(r) == self@.start,
    {
        (self.start_row, self.start_col)
    }

    pub fn height(&self) -> (r: usize)
        ensures
            r == self@.cells.len(),
    {
        self.tiles.len()
    }

    /// The length of the rows, which is the same for all of them.
    pub fn width(&self) -> (r: usize)
        requires
            self.wf(),
        ensures
            r == self@.cells[0].len(),
            forall|q: int| 0 <= q < self@.cells.len() ==> #[trigger] self@.cells[q].len() == r,
    {
        self.tiles[0].len()
    }

    /// The tile at (`row`, `col`).
    pub fn get(&self, row: usize, col: usize) -> (r: &Tile)
        requires
            self.wf(),
            self@.in_bounds((row as int, col as int)),
        ensures
            *r == self.tiles@[row as int]@[col as int],
            r.row == row && r.col == col,
            tile_cell(*r) == self@.cells[row as int][col as int],
    {
        &self.tiles[row][col]
    }

    pub fn contains(&self, row: usize, col: usize) -> (r: bool)
        ensures
            r == self@.in_bounds((row as int, col as int)),
    {
        row < self.tiles.len() && col < self.tiles[row].len()
    }

    /// The cell next to (`row`, `col`) towards `d`, if the grid has one there.
    pub fn neighbor_position(&self, row: usize, col: usize, d: Direction) -> (r: Option<
        (usize, usize),
    >)
        ensures
            match r {
                Some(q) => self@.in_bounds(neighbor((row as int, col as int), d)) && (
                q.0 as int,
                q.1 as int,
                ) == neighbor((row as int, col as int), d),
                None => !self@.in_bounds(neighbor((row as int, col as int), d)),
            },
    {
        let (r2, c2) = match d {
            Direction::North => {
                if row == 0 {
                    return None;
                }
                (row - 1, col)
            },
            Direction::West => {
                if col == 0 {
                    return None;
                }
                (row, col - 1)
            },
            Direction::South => {
                if row >= self.tiles.len() {
                    return None;
                }
                (row + 1, col)
            },
            Direction::East => {
                if row >= self.tiles.len() || col >= self.tiles[row].len() {
                    return None;
                }
                (row, col + 1)
            },
        };
        if self.contains(r2, c2) {
            Some((r2, c2))
        } else {
            None
        }
    }

    /// Whether the neighbour towards `d` exists and connects back.
    pub fn points_back(&self, row: usize, col: usize, d: Direction) -> (r: bool)
        ensures
            r == self@.points_back((row as int, col as int), d),
    {
        match self.neighbor_position(row, col, d) {
            Some((r2, c2)) => self.tiles[r2][c2].connects_to(d.opposite()),
            None => false,
        }
    }

    /// The directions in which the neighbours of a cell connect back to it.
    pub fn connections_by_position(&self, row: usize, col: usize) -> (r: Vec<Direction>)
        ensures
            r@ == self@.inferred((row as int, col as int)),
    {
        let mut connections: Vec<Direction> = Vec::new();
        if self.points_back(row, col, Direction::North) {
            connections.push(Direction::North);
        }
        if self.points_back(row, col, Direction::West) {
            connections.push(Direction::West);
        }
        if self.points_back(row, col, Direction::South) {
            connections.push(Direction::South);
        }
        if self.points_back(row, col, Direction::East) {
            connections.push(Direction::East);
        }
        assert(connections@ =~= self@.inferred((row as int, col as int)));
        connections
    }

    /// Reads a grid from text already stripped of surrounding white space: one row
    /// per line, one tile per character.
    pub fn from_rows(t: &Vec<char>) -> (r: Result<Grid, GridError>)
        ensures
            match r {
                Ok(g) => {
                    &&& g.wf()
                    &&& grid_of_rows(split_rows(t@)) == Ok::<GridModel, GridError>(g@)
                    &&& g@.conns(g@.start).len() == 2
                    &&& g@.conns(g@.start)[0] != g@.conns(g@.start)[1]
                },
                Err(e) => grid_of_rows(split_rows(t@)) == Err::<GridModel, GridError>(e),
            },
    {
        let mut tiles: Vec<Vec<Tile>> = Vec::new();
        let mut cur_row: Vec<Tile> = Vec::new();
        let mut start: Option<(usize, usize)> = None;
        let mut i: usize = 0;
        while i < t.len()
            invariant
                i <= t@.len(),
                split_rows(t@.subrange(0, i as int)).len() == tiles@.len() + 1,
                forall|r: int|
                    0 <= r < tiles@.len() ==> row_matches(
                        #[trigger] tiles@[r]@,
                        r,
                        split_rows(t@.subrange(0, i as int))[r],
                    ),
                row_matches(
                    cur_row@,
                    tiles@.len() as int,
                    split_rows(t@.subrange(0, i as int))[tiles@.len() as int],
                ),
                start is Some ==> is_last_start(
                    split_rows(t@.subrange(0, i as int)),
                    (start->Some_0.0 as int, start->Some_0.1 as int),
                ),
                start is None ==> !has_start(split_rows(t@.subrange(0, i as int))),
            decreases t.len() - i,
        {
            let c = t[i];
            let ghost old_rows = split_rows(t@.subrange(0, i as int));
            proof {
                assert(t@.subrange(0, i + 1).drop_last() =~= t@.subrange(0, i as int));
                lemma_split_rows_nonempty(t@.subrange(0, i as int));
            }
            let ghost new_rows = split_rows(t@.subrange(0, i + 1));
            if c == '\n' {
                assert(new_rows == old_rows.push(Seq::empty()));
                tiles.push(cur_row);
                cur_row = Vec::new();
                assert(forall|r: int|
                    0 <= r < tiles@.len() ==> row_matches(#[trigger] tiles@[r]@, r, new_rows[r]));
            } else {
                let k = tiles.len();
                assert(new_rows == old_rows.update(k as int, old_rows[k as int].push(c)));
                match Grid::connections_by_char(c) {
                    Ok(connects) => {
                        let col = cur_row.len();
                        if c == 'S' {
                            start = Some((k, col));
                        }
                        cur_row.push(Tile { row: k, col, glyph: c, connects });
                        assert(forall|r: int|
                            0 <= r < tiles@.len() ==> row_matches(
                                #[trigger] tiles@[r]@,
                                r,
                                new_rows[r],
                            ));
                    },
                    Err(e) => {
                        proof {
                            lemma_split_rows_prefix(t@, i + 1);
                            let full = split_rows(t@);
                            assert(new_rows.last().is_prefix_of(full[k as int]));
                            let j = old_rows[k as int].len() as int;
                            assert(new_rows.last()[j] == c);
                            assert(full[k as int][j] == c);
                            assert(glyph_connections(full[k as int][j]) is None);
                        }
                        return Err(e);
                    },
                }
            }
            i = i + 1;
        }
        assert(t@.subrange(0, t@.len() as int) =~= t@);
        let ghost rows = split_rows(t@);
        tiles.push(cur_row);
        assert(forall|r: int|
            0 <= r < tiles@.len() ==> row_matches(#[trigger] tiles@[r]@, r, rows[r]));
        assert(glyphs_known(rows)) by {
            assert forall|r: int, c: int|
                0 <= r < rows.len() && 0 <= c < rows[r].len() implies (#[trigger] glyph_connections(
                rows[r][c],
            )) is Some by {
                assert(row_matches(tiles@[r]@, r, rows[r]));
                assert(tiles@[r]@[c].glyph == rows[r][c]);
            }
        }
        let width = tiles[0].len();
        let mut r: usize = 0;
        while r < tiles.len()
            invariant
                r <= tiles@.len(),
                tiles@.len() == rows.len(),
                width == tiles@[0]@.len(),
                glyphs_known(rows),
                rows == split_rows(t@),
                forall|q: int| 0 <= q < tiles@.len() ==> row_matches(#[trigger] tiles@[q]@, q, rows[q]),
                forall|q: int| 0 <= q < r ==> #[trigger] rows[q].len() == rows[0].len(),
            decreases tiles.len() - r,
        {
            assert(row_matches(tiles@[r as int]@, r as int, rows[r as int]));
            assert(row_matches(tiles@[0]@, 0, rows[0]));
            if tiles[r].len() != width {
                assert(!rectangular(rows)) by {
                    assert(rows[r as int].len() != rows[0].len());
                }
                return Err(GridError::NonRectangularGrid);
            }
            r = r + 1;
        }
        let (start_row, start_col) = match start {
            Some(p) => p,
            None => {
                return Err(GridError::StartNotFound);
            },
        };
        let g = Grid { tiles, start_row, start_col };
        proof {
            lemma_last_start_unique(rows, (start_row as int, start_col as int));
            assert forall|q: int| 0 <= q < rows.len() implies #[trigger] g@.cells[q]
                =~= cells_of(rows)[q] by {
                assert(row_matches(g.tiles@[q]@, q, rows[q]));
            }
            assert(g@.cells =~= cells_of(rows));
            assert(g@ == unpatched(rows));
            assert forall|q: int, c: int|
                0 <= q < g.tiles@.len() && 0 <= c < g.tiles@[q]@.len() implies {
                &&& (#[trigger] g.tiles@[q]@[c]).row == q
                &&& g.tiles@[q]@[c].col == c
            } by {
                assert(row_matches(g.tiles@[q]@, q, rows[q]));
            }
            assert forall|q: int| 0 <= q < g.tiles@.len() implies (#[trigger] g.tiles@[q])@.len()
                == g.tiles@[0]@.len() by {
                assert(row_matches(g.tiles@[q]@, q, rows[q]));
                assert(row_matches(g.tiles@[0]@, 0, rows[0]));
            }
        }
        let inferred = g.connections_by_position(start_row, start_col);
        if inferred.len() != 2 {
            return Err(GridError::AmbiguousStartConnectivity);
        }
        let ghost before = g@;
        let ghost old_tiles = g.tiles@;
        let mut tiles = g.tiles;
        let mut srow = tiles.remove(start_row);
        let old_tile = srow.remove(start_col);
        let ghost old_row = old_tiles[start_row as int]@;
        srow.insert(
            start_col,
            Tile { row: old_tile.row, col: old_tile.col, glyph: old_tile.glyph, connects: inferred },
        );
        assert(srow@ =~= old_row.update(start_col as int, srow@[start_col as int]));
        tiles.insert(start_row, srow);
        assert(tiles@ =~= old_tiles.update(start_row as int, tiles@[start_row as int]));
        let patched_grid = Grid { tiles, start_row, start_col };
        proof {
            let sr = start_row as int;
            assert forall|q: int| 0 <= q < rows.len() implies #[trigger] patched_grid@.cells[q]
                =~= patched(before).cells[q] by {
                if q == sr {
                    assert(patched_grid@.cells[q] =~= before.cells[q].update(
                        start_col as int,
                        Cell { glyph: 'S', connects: before.inferred(before.start) },
                    ));
                }
            }
            assert(patched_grid@.cells =~= patched(before).cells);
            lemma_inferred_distinct(before, before.start);
        }
        Ok(patched_grid)
    }

    /// Reads a grid from text: white space around it is dropped, then each line is a
    /// row and each character a tile.
    pub fn from(s: &str) -> (r: Result<Grid, GridError>)
        ensures
            match r {
                Ok(g) => {
                    &&& g.wf()
                    &&& grid_of_text(s@) == Ok::<GridModel, GridError>(g@)
                    &&& g@.conns(g@.start).len() == 2
                    &&& g@.conns(g@.start)[0] != g@.conns(g@.start)[1]
                },
                Err(e) => grid_of_text(s@) == Err::<GridModel, GridError>(e),
            },
    {
        let all = chars_of(s);
        let t = trim(&all);
        Grid::from_rows(&t)
    }

    /// Whether the cell has two connections, each reaching a neighbour that connects back.
    pub fn is_loop_tile(&self, row: usize, col: usize) -> (r: bool)
        ensures
            r == self@.loop_tile((row as int, col as int)),
    {
        reveal(GridModel::loop_tile);
        if !self.contains(row, col) {
            return false;
        }
        let tile = &self.tiles[row][col];
        tile.connects.len() == 2 && self.points_back(row, col, tile.connects[0])
            && self.points_back(row, col, tile.connects[1])
    }

    /// The two cells at the ends of a tile's connections, in the order of its connections.
    pub fn get_neighbors(&self, row: usize, col: usize) -> (r: Result<
        Vec<(usize, usize)>,
        GridError,
    >)
        requires
            self@.in_bounds((row as int, col as int)),
        ensures
            ({
                let p = (row as int, col as int);
                let ds = self@.conns(p);
                let ok = ds.len() == 2 && self@.in_bounds(neighbor(p, ds[0])) && self@.in_bounds(
                    neighbor(p, ds[1]),
                );
                match r {
                    Ok(v) => ok && v@.len() == 2 && at(v@[0]) == neighbor(p, ds[0]) && at(v@[1])
                        == neighbor(p, ds[1]),
                    Err(e) => !ok && e == GridError::BrokenLoopInvariant,
                }
            }),
    {
        let tile = &self.tiles[row][col];
        if tile.connects.len() != 2 {
            return Err(GridError::BrokenLoopInvariant);
        }
        let first = self.neighbor_position(row, col, tile.connects[0]);
        let second = self.neighbor_position(row, col, tile.connects[1]);
        match (first, second) {
            (Some(a), Some(b)) => Ok(vec![a, b]),
            _ => Err(GridError::BrokenLoopInvariant),
        }
    }
}

} // verus!
