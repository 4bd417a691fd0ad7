use vstd::prelude::*;

use crate::direction::{lemma_step_back, neighbor, opposite_of, Direction};
use crate::grid::{at, grid_of_text, Grid, GridError, GridModel};

verus! {

/// The neighbour of the start cell at the end of its `i`-th connection: where the
/// walker `i` stands after one step.
pub open spec fn first_step(m: GridModel, i: int) -> (int, int) {
    neighbor(m.start, m.conns(m.start)[i])
}

/// Where a walker on `cur`, having come from `prev`, goes next: of the two neighbours
/// of `cur` exactly one may be neither `prev` nor the start, and it must be a tile
/// that can stand on a loop.
#[verifier::opaque]
pub open spec fn advance(m: GridModel, prev: (int, int), cur: (int, int)) -> Option<(int, int)> {
    let a = neighbor(cur, m.conns(cur)[0]);
    let b = neighbor(cur, m.conns(cur)[1]);
    let a_ok = a != prev && a != m.start;
    let b_ok = b != prev && b != m.start;
    if a_ok && !b_ok && m.loop_tile(a) {
        Some(a)
    } else if b_ok && !a_ok && m.loop_tile(b) {
        Some(b)
    } else {
        None
    }
}

/// The last two cells (previous, current) of a walker that left the start towards
/// `first`, after `k` steps; `None` once the walk has broken down.
pub open spec fn walker(m: GridModel, first: (int, int), k: nat) -> Option<((int, int), (int, int))>
    decreases k,
{
    if k == 0 {
        None
    } else if k == 1 {
        if m.loop_tile(m.start) && m.loop_tile(first) {
            Some((m.start, first))
        } else {
            None
        }
    } else {
        match walker(m, first, (k - 1) as nat) {
            Some(pc) => match advance(m, pc.0, pc.1) {
                Some(next) => Some((pc.1, next)),
                None => None,
            },
            None => None,
        }
    }
}

/// Both walkers have taken `k` steps and stand on different cells.
pub open spec fn apart(m: GridModel, k: nat) -> bool {
    &&& walker(m, first_step(m, 0), k) is Some
    &&& walker(m, first_step(m, 1), k) is Some
    &&& walker(m, first_step(m, 0), k)->Some_0.1 != walker(m, first_step(m, 1), k)->Some_0.1
}

/// After `n` steps the two walkers stand on the same cell for the first time: `n` is
/// the distance from the start to the farthest point of the loop.
pub open spec fn first_meeting(m: GridModel, n: nat) -> bool {
    &&& n >= 1
    &&& walker(m, first_step(m, 0), n) is Some
    &&& walker(m, first_step(m, 1), n) is Some
    &&& walker(m, first_step(m, 0), n)->Some_0.1 == walker(m, first_step(m, 1), n)->Some_0.1
    &&& forall|k: nat| 1 <= k < n ==> #[trigger] apart(m, k)
}

/// The number of cells of a grid whose rows have the length of the first, or the
/// largest `usize` where that count does not fit.
#[verifier::opaque]
pub open spec fn step_limit(m: GridModel) -> int {
    let cells = m.cells.len() as int * m.cells[0].len() as int;
    if cells <= usize::MAX {
        cells
    } else {
        usize::MAX as int
    }
}

/// The walkers meet for the first time after one number of steps only.
pub proof fn lemma_first_meeting_unique(m: GridModel, n1: nat, n2: nat)
    requires
        first_meeting(m, n1),
        first_meeting(m, n2),
    ensures
        n1 == n2,
{
    if n1 < n2 {
        assert(apart(m, n1));
    } else if n2 < n1 {
        assert(apart(m, n2));
    }
}

proof fn lemma_walker_first(m: GridModel, f: (int, int))
    ensures
        walker(m, f, 1) == if m.loop_tile(m.start) && m.loop_tile(f) {
            Some((m.start, f))
        } else {
            None
        },
{
    reveal_with_fuel(walker, 1);
}

proof fn lemma_walker_next(
    m: GridModel,
    f: (int, int),
    k: nat,
    prev: (int, int),
    cur: (int, int),
)
    requires
        k >= 1,
        walker(m, f, k) == Some((prev, cur)),
    ensures
        walker(m, f, k + 1) == match advance(m, prev, cur) {
            Some(next) => Some((cur, next)),
            None => None,
        },
{
    reveal_with_fuel(walker, 2);
}

/// Walkers that stay apart for `s` steps and cannot take step `s + 1` never meet.
proof fn lemma_no_meeting(m: GridModel, s: nat)
    requires
        forall|k: nat| 1 <= k <= s ==> #[trigger] apart(m, k),
        walker(m, first_step(m, 0), s + 1) is None || walker(m, first_step(m, 1), s + 1) is None,
    ensures
        forall|n: nat| !first_meeting(m, n),
{
    assert forall|n: nat| !first_meeting(m, n) by {
        if first_meeting(m, n) {
            if n <= s {
                assert(apart(m, n));
            } else if n > s + 1 {
                assert(apart(m, s + 1));
            }
        }
    }
}

/// Whether two places are the same cell.
pub fn same_place(p: (usize, usize), q: (usize, usize)) -> (r: bool)
    ensures
        r == (p == q),
{
    p.0 == q.0 && p.1 == q.1
}

impl Grid {
    /// The cell a walker goes to from `cur` when it came from `prev`.
    pub fn next_on_loop(&self, prev: (usize, usize), cur: (usize, usize)) -> (r: Option<
        (usize, usize),
    >)
        requires
            self@.loop_tile(at(cur)),
        ensures
            match r {
                Some(q) => advance(self@, at(prev), at(cur)) == Some(at(q)) && self@.loop_tile(at(q)),
                None => advance(self@, at(prev), at(cur)) is None,
            },
    {
        reveal(advance);
        reveal(GridModel::loop_tile);
        let neighbors = match self.get_neighbors(cur.0, cur.1) {
            Ok(v) => v,
            Err(_) => {
                return None;
            },
        };
        let a = neighbors[0];
        let b = neighbors[1];
        let start = self.start();
        let a_ok = !same_place(a, prev) && !same_place(a, start);
        let b_ok = !same_place(b, prev) && !same_place(b, start);
        if a_ok && !b_ok && self.is_loop_tile(a.0, a.1) {
            Some(a)
        } else if b_ok && !a_ok && self.is_loop_tile(b.0, b.1) {
            Some(b)
        } else {
            None
        }
    }

    /// Sends two walkers from the start along its two connections, one step at a time,
    /// until they stand on the same cell. Returns the cells each walker visited, the
    /// start first.
    pub fn walk(&self) -> (r: Result<(Vec<(usize, usize)>, Vec<(usize, usize)>), GridError>)
        requires
            self.wf(),
        ensures
            match r {
                Ok((left, right)) => {
                    &&& left@.len() == right@.len()
                    &&& left@.len() >= 2
                    &&& first_meeting(self@, (left@.len() - 1) as nat)
                    &&& at(left@[0]) == self@.start && at(right@[0]) == self@.start
                    &&& forall|k: int|
                        1 <= k < left@.len() ==> walker(self@, first_step(self@, 0), k as nat)
                            == Some((at(left@[k - 1]), at(#[trigger] left@[k])))
                    &&& forall|k: int|
                        1 <= k < right@.len() ==> walker(self@, first_step(self@, 1), k as nat)
                            == Some((at(right@[k - 1]), at(#[trigger] right@[k])))
                    &&& forall|k: int| 0 <= k < left@.len() ==> self@.loop_tile(at(#[trigger] left@[k]))
                    &&& forall|k: int| 0 <= k < right@.len() ==> self@.loop_tile(at(#[trigger] right@[k]))
                },
                Err(e) => {
                    &&& e == GridError::BrokenLoopInvariant
                    &&& forall|n: nat| n <= step_limit(self@) ==> !first_meeting(self@, n)
                },
            },
    {
        let ghost m = self@;
        let ghost fa = first_step(m, 0);
        let ghost fb = first_step(m, 1);
        let start = self.start();
        proof {
            lemma_walker_first(m, fa);
            lemma_walker_first(m, fb);
        }
        if !self.is_loop_tile(start.0, start.1) {
            proof {
                lemma_no_meeting(m, 0);
            }
            return Err(GridError::BrokenLoopInvariant);
        }
        let neighbors = match self.get_neighbors(start.0, start.1) {
            Ok(v) => v,
            Err(e) => {
                assert(false) by {
                    reveal(GridModel::loop_tile);
                }
                return Err(e);
            },
        };
        let l1 = neighbors[0];
        let r1 = neighbors[1];
        if !self.is_loop_tile(l1.0, l1.1) || !self.is_loop_tile(r1.0, r1.1) {
            proof {
                lemma_no_meeting(m, 0);
            }
            return Err(GridError::BrokenLoopInvariant);
        }
        let limit = match self.height().checked_mul(self.width()) {
            Some(cells) => cells,
            None => usize::MAX,
        };
        assert(limit == step_limit(m)) by {
            reveal(step_limit);
        }
        let mut left: Vec<(usize, usize)> = vec![start, l1];
        let mut right: Vec<(usize, usize)> = vec![start, r1];
        let mut step: usize = 1;
        while !same_place(left[step], right[step])
            invariant
                m == self@,
                fa == first_step(m, 0),
                fb == first_step(m, 1),
                limit == step_limit(m),
                1 <= step,
                left@.len() == step + 1,
                right@.len() == step + 1,
                at(left@[0]) == m.start,
                at(right@[0]) == m.start,
                forall|k: int|
                    1 <= k <= step ==> walker(m, fa, k as nat) == Some(
                        (at(left@[k - 1]), at(#[trigger] left@[k])),
                    ),
                forall|k: int|
                    1 <= k <= step ==> walker(m, fb, k as nat) == Some(
                        (at(right@[k - 1]), at(#[trigger] right@[k])),
                    ),
                forall|k: nat| 1 <= k < step ==> #[trigger] apart(m, k),
                forall|k: int| 0 <= k <= step ==> m.loop_tile(at(#[trigger] left@[k])),
                forall|k: int| 0 <= k <= step ==> m.loop_tile(at(#[trigger] right@[k])),
            decreases usize::MAX - step,
        {
            assert(walker(m, fa, step as nat) == Some((at(left@[step - 1]), at(left@[step as int]))));
            assert(walker(m, fb, step as nat) == Some((at(right@[step - 1]), at(right@[step as int]))));
            assert(apart(m, step as nat));
            if step >= limit {
                proof {
                    assert forall|n: nat| n <= step_limit(m) implies !first_meeting(m, n) by {
                        if first_meeting(m, n) && n < step {
                            assert(apart(m, n));
                        }
                    }
                }
                return Err(GridError::BrokenLoopInvariant);
            }
            let next_left = self.next_on_loop(left[step - 1], left[step]);
            let next_right = self.next_on_loop(right[step - 1], right[step]);
            proof {
                lemma_walker_next(m, fa, step as nat, at(left@[step - 1]), at(left@[step as int]));
                lemma_walker_next(m, fb, step as nat, at(right@[step - 1]), at(right@[step as int]));
            }
            match (next_left, next_right) {
                (Some(nl), Some(nr)) => {
                    left.push(nl);
                    right.push(nr);
                    step = step + 1;
                    assert(at(left@[step as int]) == at(nl));
                    assert(at(right@[step as int]) == at(nr));
                },
                _ => {
                    proof {
                        lemma_no_meeting(m, step as nat);
                    }
                    return Err(GridError::BrokenLoopInvariant);
                },
            }
        }
        Ok((left, right))
    }

    /// The number of steps from the start to the cell of the loop farthest from it.
    pub fn farthest_distance(&self) -> (r: Result<usize, GridError>)
        requires
            self.wf(),
        ensures
            match r {
                Ok(n) => first_meeting(self@, n as nat),
                Err(e) => {
                    &&& e == GridError::BrokenLoopInvariant
                    &&& forall|n: nat| n <= step_limit(self@) ==> !first_meeting(self@, n)
                },
            },
    {
        match self.walk() {
            Ok((left, _right)) => Ok(left.len() - 1),
            Err(e) => Err(e),
        }
    }
}

/// Reads a grid from text and finds how many steps along its loop the farthest point
/// lies from the start.
pub fn farthest_point(text: &str) -> (r: Result<usize, GridError>)
    ensures
        match grid_of_text(text@) {
            Ok(m) => match r {
                Ok(n) => first_meeting(m, n as nat),
                Err(e) => e == GridError::BrokenLoopInvariant && forall|n: nat|
                    n <= step_limit(m) ==> !first_meeting(m, n),
            },
            Err(e) => r == Err::<usize, GridError>(e),
        },
{
    let grid = match Grid::from(text) {
        Ok(g) => g,
        Err(e) => {
            return Err(e);
        },
    };
    grid.farthest_distance()
}

/// Every tile the walkers pass over belongs to the loop in the strict sense: where it
/// connects towards a direction, the neighbour there exists and connects back towards it.
pub proof fn lemma_loop_reciprocity(m: GridModel, p: (int, int), d: Direction)
    requires
        m.loop_tile(p),
        m.conns(p).contains(d),
    ensures
        m.in_bounds(neighbor(p, d)),
        m.conns(neighbor(p, d)).contains(opposite_of(d)),
        neighbor(neighbor(p, d), opposite_of(d)) == p,
{
    reveal(GridModel::loop_tile);
    lemma_step_back(p, d);
}

/// Reading the same text twice gives the same grid, and its walkers first meet after
/// the same number of steps: the farthest distance is a function of the text.
pub proof fn lemma_farthest_deterministic(s: Seq<char>, n1: nat, n2: nat)
    requires
        grid_of_text(s) is Ok,
        first_meeting(grid_of_text(s)->Ok_0, n1),
        first_meeting(grid_of_text(s)->Ok_0, n2),
    ensures
        n1 == n2,
{
    lemma_first_meeting_unique(grid_of_text(s)->Ok_0, n1, n2);
}

/// A cell in the top row, or in the leftmost column, is never inferred to connect
/// outwards: a neighbour beyond the edge counts as no connection.
pub proof fn lemma_edge_inference(m: GridModel, p: (int, int))
    ensures
        p.0 == 0 ==> !m.inferred(p).contains(Direction::North),
        p.1 == 0 ==> !m.inferred(p).contains(Direction::West),
{
    let ds = m.inferred(p);
    if p.0 == 0 && ds.contains(Direction::North) {
        let i = choose|i: int| 0 <= i < ds.len() && ds[i] == Direction::North;
        assert(!m.in_bounds(neighbor(p, Direction::North)));
    }
    if p.1 == 0 && ds.contains(Direction::West) {
        let i = choose|i: int| 0 <= i < ds.len() && ds[i] == Direction::West;
        assert(!m.in_bounds(neighbor(p, Direction::West)));
    }
}

} // verus!
