use vstd::prelude::*;

verus! {

/// A compass orientation in which a pipe can leave its tile.
#[derive(Clone, Copy, Debug, PartialEq, Eq, Hash, Structural)]
pub enum Direction {
    North,
    South,
    East,
    West,
}

/// The direction that points back the way `d` came.
pub open spec fn opposite_of(d: Direction) -> Direction {
    match d {
        Direction::North => Direction::South,
        Direction::South => Direction::North,
        Direction::East => Direction::West,
        Direction::West => Direction::East,
    }
}

/// The cell one step from `p` (row, column) in direction `d`; rows grow southwards
/// and columns eastwards.
pub open spec fn neighbor(p: (int, int), d: Direction) -> (int, int) {
    match d {
        Direction::North => (p.0 - 1, p.1),
        Direction::South => (p.0 + 1, p.1),
        Direction::East => (p.0, p.1 + 1),
        Direction::West => (p.0, p.1 - 1),
    }
}

impl Direction {
    pub fn opposite(self) -> (r: Direction)
        ensures
            r == opposite_of(self),
    {
        match self {
            Direction::North => Direction::South,
            Direction::South => Direction::North,
            Direction::East => Direction::West,
            Direction::West => Direction::East,
        }
    }
}

/// Turning around twice faces the original way again, and no direction is its own
/// opposite.
pub proof fn lemma_opposite_involution(d: Direction)
    ensures
        opposite_of(opposite_of(d)) == d,
        opposite_of(d) != d,
{
}

/// Stepping towards `d` and then towards its opposite returns to the same cell.
pub proof fn lemma_step_back(p: (int, int), d: Direction)
    ensures
        neighbor(neighbor(p, d), opposite_of(d)) == p,
        neighbor(p, d) != p,
{
}

} // verus!
