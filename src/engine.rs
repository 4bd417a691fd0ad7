use vstd::prelude::*;

use crate::calibration::{is_numeric, numeric};
use crate::numbers::{is_decimal_digit, parse_u64, u64_of};
use crate::text::{chars_of, lines, lines_of};

verus! {

/// An engine schematic: rows of characters, the length of the longest row, the number
/// of rows, and the symbols found in it (characters that are neither numbers nor `.`).
#[derive(Debug)]
pub struct Engine {
    pub fields: Vec<Vec<char>>,
    pub width: usize,
    pub height: usize,
    pub symbols: Vec<char>,
}

/// A symbol is any character that is neither numeric nor a dot.
pub open spec fn is_symbol(c: char) -> bool {
    !numeric(c) && c != '.'
}

/// The offsets of the eight cells around a cell, row by row.
pub open spec fn window() -> Seq<(int, int)> {
    seq![(-1, -1), (-1, 0), (-1, 1), (0, -1), (0, 1), (1, -1), (1, 0), (1, 1)]
}

/// The runs of digits in a row that a non-digit closes, as (start, end) columns, and
/// the start of a run still open at the row's end.
pub open spec fn row_runs(s: Seq<char>) -> (Seq<(int, int)>, Option<int>)
    decreases s.len(),
{
    if s.len() == 0 {
        (Seq::empty(), None)
    } else {
        let (runs, open) = row_runs(s.drop_last());
        let i = s.len() - 1;
        if is_decimal_digit(s[i]) {
            (runs, if open is Some { open } else { Some(i) })
        } else {
            match open {
                Some(a) => (runs.push((a, i)), None),
                None => (runs, None),
            }
        }
    }
}

/// Every closed run of digits of the rows, as (row, start, end), row by row.
pub open spec fn all_runs(rows: Seq<Seq<char>>) -> Seq<(int, int, int)>
    decreases rows.len(),
{
    if rows.len() == 0 {
        Seq::empty()
    } else {
        let r = rows.len() - 1;
        all_runs(rows.drop_last()) + row_runs(rows[r]).0.map_values(
            |ab: (int, int)| (r, ab.0, ab.1),
        )
    }
}

/// The characters of the cells around (`row`, `pos`) that lie in the grid and are not
/// dots, in the order of the window.
pub open spec fn neighbor_chars(e: Engine, row: int, pos: int) -> Seq<char> {
    window().filter(shown(e, row, pos)).map_values(cell_at(e, row, pos))
}

/// Whether the cell at an offset from (`row`, `pos`) lies in the grid and is no dot.
pub open spec fn shown(e: Engine, row: int, pos: int) -> spec_fn((int, int)) -> bool {
    |d: (int, int)|
        0 <= row + d.0 < e.height && 0 <= pos + d.1 < e.width && e.fields@[row + d.0]@[pos
            + d.1] != '.'
}

/// The character at an offset from (`row`, `pos`).
pub open spec fn cell_at(e: Engine, row: int, pos: int) -> spec_fn((int, int)) -> char {
    |d: (int, int)| e.fields@[row + d.0]@[pos + d.1]
}

impl Engine {
    /// Every row is as long as the widest, and the counts match the rows.
    pub open spec fn wf(&self) -> bool {
        &&& self.height == self.fields@.len()
        &&& forall|r: int| 0 <= r < self.fields@.len() ==> (#[trigger] self.fields@[r])@.len() == self.width
    }

    pub fn new() -> (r: Engine)
        ensures
            r.fields@.len() == 0,
            r.width == 0,
            r.height == 0,
            r.symbols@.len() == 0,
    {
        Engine { fields: Vec::new(), width: 0, height: 0, symbols: Vec::new() }
    }

    /// Appends a row, noting each symbol in it that was not seen before.
    pub fn add_row(&mut self, row_string: &str)
        requires
            old(self).height < usize::MAX,
        ensures
            final(self).fields@.len() == old(self).fields@.len() + 1,
            forall|r: int| 0 <= r < old(self).fields@.len() ==> #[trigger] final(self).fields@[r] == old(self).fields@[r],
            final(self).fields@.last()@ == row_string@,
            final(self).width == if old(self).width >= row_string@.len() {
                old(self).width as int
            } else {
                row_string@.len() as int
            },
            final(self).height == old(self).height + 1,
            forall|c: char| #[trigger] final(self).symbols@.contains(c) <==> (old(self).symbols@.contains(c) || (row_string@.contains(c) && is_symbol(c))),
            old(self).symbols@.no_duplicates() ==> final(self).symbols@.no_duplicates(),
    {
        let cs = chars_of(row_string);
        let mut row: Vec<char> = Vec::new();
        let mut i: usize = 0;
        while i < cs.len()
            invariant
                cs@ == row_string@,
                i <= cs@.len(),
                row@ == cs@.subrange(0, i as int),
                forall|c: char| #[trigger] self.symbols@.contains(c) <==> (old(self).symbols@.contains(c) || (cs@.subrange(0, i as int).contains(c) && is_symbol(c))),
                old(self).symbols@.no_duplicates() ==> self.symbols@.no_duplicates(),
                self.fields == old(self).fields,
                self.width == old(self).width,
                self.height == old(self).height,
            decreases cs.len() - i,
        {
            let c = cs[i];
            row.push(c);
            let ghost before = self.symbols@;
            if !is_numeric(c) && c != '.' && !contains_char(&self.symbols, c) {
                self.symbols.push(c);
            }
            proof {
                assert(cs@.subrange(0, i + 1) =~= cs@.subrange(0, i as int).push(c));
                assert forall|x: char| #[trigger] self.symbols@.contains(x) <==> (old(self).symbols@.contains(x) || (cs@.subrange(0, i + 1).contains(x) && is_symbol(x))) by {
                    if self.symbols@.contains(x) && !before.contains(x) {
                        assert(x == c);
                        assert(cs@.subrange(0, i + 1)[i as int] == c);
                    }
                    if before.contains(x) {
                        let k = choose|k: int| 0 <= k < before.len() && #[trigger] before[k] == x;
                        assert(self.symbols@[k] == x);
                    }
                    if cs@.subrange(0, i + 1).contains(x) && is_symbol(x) && !cs@.subrange(0, i as int).contains(x) {
                        let k = choose|k: int| 0 <= k < i + 1 && #[trigger] cs@.subrange(0, i + 1)[k] == x;
                        if k < i {
                            assert(cs@.subrange(0, i as int)[k] == x);
                        }
                        assert(x == c);
                        if !before.contains(x) {
                            assert(self.symbols@[self.symbols@.len() - 1] == x);
                        }
                    }
                    if cs@.subrange(0, i as int).contains(x) {
                        let k = choose|k: int| 0 <= k < i && #[trigger] cs@.subrange(0, i as int)[k] == x;
                        assert(cs@.subrange(0, i + 1)[k] == x);
                    }
                }
            }
            i = i + 1;
        }
        assert(cs@.subrange(0, cs@.len() as int) =~= cs@);
        let len = row.len();
        if len > self.width {
            self.width = len;
        }
        self.height = self.height + 1;
        self.fields.push(row);
    }

    /// Reads a schematic, one row per line.
    pub fn from(s: &str) -> (r: Engine)
        requires
            lines_of(s@).len() < usize::MAX,
        ensures
            r.fields@.len() == lines_of(s@).len(),
            forall|i: int| 0 <= i < r.fields@.len() ==> (#[trigger] r.fields@[i])@ == lines_of(s@)[i],
            r.height == r.fields@.len(),
            r.symbols@.no_duplicates(),
            forall|c: char| #[trigger] r.symbols@.contains(c) <==> (is_symbol(c) && exists|i: int| 0 <= i < r.fields@.len() && (#[trigger] r.fields@[i])@.contains(c)),
    {
        let ls = lines(s);
        let ghost lv = ls@.map_values(|p: String| p@);
        let mut engine = Engine::new();
        let mut i: usize = 0;
        while i < ls.len()
            invariant
                lv == ls@.map_values(|p: String| p@),
                lv == lines_of(s@),
                lv.len() < usize::MAX,
                i <= ls@.len(),
                engine.fields@.len() == i,
                engine.height == i,
                forall|k: int| 0 <= k < i ==> (#[trigger] engine.fields@[k])@ == lv[k],
                engine.symbols@.no_duplicates(),
                forall|c: char| #[trigger] engine.symbols@.contains(c) <==> (is_symbol(c) && exists|k: int| 0 <= k < i && (#[trigger] engine.fields@[k])@.contains(c)),
            decreases ls.len() - i,
        {
            let ghost before = engine.fields@;
            engine.add_row(ls[i].as_str());
            proof {
                assert forall|c: char| #[trigger] engine.symbols@.contains(c) <==> (is_symbol(c) && exists|k: int| 0 <= k < i + 1 && (#[trigger] engine.fields@[k])@.contains(c)) by {
                    if is_symbol(c) && exists|k: int| 0 <= k < i + 1 && (#[trigger] engine.fields@[k])@.contains(c) {
                        let k = choose|k: int| 0 <= k < i + 1 && (#[trigger] engine.fields@[k])@.contains(c);
                        if k < i {
                            assert(before[k] == engine.fields@[k]);
                        }
                    }
                    if engine.symbols@.contains(c) && !(exists|k: int| 0 <= k < i && (#[trigger] before[k])@.contains(c)) {
                        assert(engine.fields@[i as int]@.contains(c));
                    }
                    if exists|k: int| 0 <= k < i && (#[trigger] before[k])@.contains(c) {
                        let k = choose|k: int| 0 <= k < i && (#[trigger] before[k])@.contains(c);
                        assert(engine.fields@[k] == before[k]);
                    }
                }
            }
            i = i + 1;
        }
        engine
    }

    /// The character at (`row`, `pos`).
    pub fn field(&self, row: usize, pos: usize) -> (r: char)
        requires
            row < self.fields@.len(),
            pos < self.fields@[row as int]@.len(),
        ensures
            r == self.fields@[row as int]@[pos as int],
    {
        self.fields[row][pos]
    }

    /// The characters around (`row`, `pos`) that lie in the schematic and are not dots.
    pub fn neighbors(&self, row: usize, pos: usize) -> (r: Vec<char>)
        requires
            self.wf(),
            row < self.height,
            pos < self.width,
        ensures
            r@ == neighbor_chars(*self, row as int, pos as int),
    {
        let offsets: [(i8, i8); 8] = [(-1, -1), (-1, 0), (-1, 1), (0, -1), (0, 1), (1, -1), (1, 0), (1, 1)];
        let ghost win = window();
        let ghost keep = shown(*self, row as int, pos as int);
        let ghost pick = cell_at(*self, row as int, pos as int);
        let mut neighbors: Vec<char> = Vec::new();
        let mut k: usize = 0;
        assert(win.subrange(0, 0).filter(keep) =~= Seq::<(int, int)>::empty());
        while k < 8
            invariant
                self.wf(),
                row < self.height,
                pos < self.width,
                k <= 8,
                win == window(),
                keep == shown(*self, row as int, pos as int),
                pick == cell_at(*self, row as int, pos as int),
                forall|j: int| 0 <= j < 8 ==> (offsets@[j].0 as int, offsets@[j].1 as int) == #[trigger] win[j],
                forall|j: int| 0 <= j < 8 ==> -1 <= (#[trigger] win[j]).0 <= 1 && -1 <= win[j].1 <= 1,
                win.len() == 8,
                neighbors@ == win.subrange(0, k as int).filter(keep).map_values(pick),
            decreases 8 - k,
        {
            let (dr, dp) = offsets[k];
            let ghost d = win[k as int];
            let ghost s0 = win.subrange(0, k as int);
            let ghost before = neighbors@;
            assert(win.subrange(0, k + 1) =~= s0.push(d));
            proof {
                s0.lemma_filter_push(d, keep);
            }
            let in_rows = if dr < 0 { row >= 1 } else if dr > 0 { row + 1 < self.height } else { true };
            let in_cols = if dp < 0 { pos >= 1 } else if dp > 0 { pos + 1 < self.width } else { true };
            assert(d == (dr as int, dp as int));
            assert(in_rows <==> 0 <= row + d.0 < self.height);
            assert(in_cols <==> 0 <= pos + d.1 < self.width);
            if !(in_rows && in_cols) {
                assert(!keep(d));
            }
            if in_rows && in_cols {
                let r = if dr < 0 { row - 1 } else if dr > 0 { row + 1 } else { row };
                let p = if dp < 0 { pos - 1 } else if dp > 0 { pos + 1 } else { pos };
                assert(r == row + d.0 && p == pos + d.1);
                let n = self.fields[r][p];
                assert(n == pick(d));
                assert(keep(d) <==> n != '.');
                if n != '.' {
                    neighbors.push(n);
                }
            }
            proof {
                assert(s0.filter(keep).push(d).map_values(pick) =~= s0.filter(keep).map_values(pick).push(pick(d)));
                if keep(d) {
                    assert(neighbors@ =~= before.push(pick(d)));
                } else {
                    assert(neighbors@ =~= before);
                }
            }
            k = k + 1;
        }
        assert(win.subrange(0, 8) =~= win);
        neighbors
    }
}

/// The rows of a schematic as character sequences.
pub open spec fn rows_of(e: Engine) -> Seq<Seq<char>> {
    e.fields@.map_values(|v: Vec<char>| v@)
}

/// The places (row, column) of the cells of a run.
pub open spec fn run_places(run: (int, int, int)) -> Seq<(usize, usize)> {
    Seq::new((run.2 - run.1) as nat, |j: int| (run.0 as usize, (run.1 + j) as usize))
}

/// The runs of a row `r` found in its first `p` cells, as (row, start, end).
pub open spec fn runs_so_far(rows: Seq<Seq<char>>, r: int, p: int) -> Seq<(int, int, int)> {
    all_runs(rows.subrange(0, r)) + row_runs(rows[r].subrange(0, p)).0.map_values(
        |ab: (int, int)| (r, ab.0, ab.1),
    )
}

/// The digits and places found so far match the runs.
pub open spec fn matches_runs(
    numbers: Seq<Vec<char>>,
    places: Seq<Vec<(usize, usize)>>,
    rows: Seq<Seq<char>>,
    runs: Seq<(int, int, int)>,
) -> bool {
    &&& numbers.len() == runs.len()
    &&& places.len() == runs.len()
    &&& forall|k: int|
        0 <= k < runs.len() ==> (#[trigger] numbers[k])@ == rows[runs[k].0].subrange(
            runs[k].1,
            runs[k].2,
        ) && places[k]@ == run_places(runs[k])
}

impl Engine {
    /// Every run of digits that a non-digit closes in its row, with the places of its
    /// digits, row by row; a run that reaches the end of its row is left out.
    pub fn numbers(&self) -> (r: (Vec<Vec<char>>, Vec<Vec<(usize, usize)>>))
        requires
            self.wf(),
        ensures
            matches_runs(r.0@, r.1@, rows_of(*self), all_runs(rows_of(*self))),
    {
        let ghost rows = rows_of(*self);
        let mut numbers: Vec<Vec<char>> = Vec::new();
        let mut numbers_positions: Vec<Vec<(usize, usize)>> = Vec::new();
        let mut r: usize = 0;
        assert(rows.subrange(0, 0) =~= Seq::<Seq<char>>::empty());
        while r < self.height
            invariant
                self.wf(),
                rows == rows_of(*self),
                r <= self.height,
                matches_runs(numbers@, numbers_positions@, rows, all_runs(rows.subrange(0, r as int))),
            decreases self.height - r,
        {
            let row = &self.fields[r];
            let mut number: Vec<char> = Vec::new();
            let mut number_positions: Vec<(usize, usize)> = Vec::new();
            let mut p: usize = 0;
            assert(rows[r as int].subrange(0, 0) =~= Seq::<char>::empty());
            assert(runs_so_far(rows, r as int, 0) =~= all_runs(rows.subrange(0, r as int)));
            while p < self.width
                invariant
                    self.wf(),
                    rows == rows_of(*self),
                    r < self.height,
                    row == &self.fields@[r as int],
                    p <= self.width,
                    matches_runs(numbers@, numbers_positions@, rows, runs_so_far(rows, r as int, p as int)),
                    match row_runs(rows[r as int].subrange(0, p as int)).1 {
                        Some(a) => 0 <= a < p && number@ == rows[r as int].subrange(a, p as int)
                            && number_positions@ == run_places((r as int, a, p as int)),
                        None => number@.len() == 0 && number_positions@.len() == 0,
                    },
                decreases self.width - p,
            {
                let c = row[p];
                let ghost pre = rows[r as int].subrange(0, p as int);
                assert(rows[r as int].subrange(0, p + 1).drop_last() =~= pre);
                #[verifier::truncate]
                let code = c as u32;
                if 48 <= code && code <= 57 {
                    number.push(c);
                    number_positions.push((r, p));
                    proof {
                        let open = row_runs(pre).1;
                        let a = if open is Some { open->Some_0 } else { p as int };
                        assert(number@ =~= rows[r as int].subrange(a, p + 1));
                        assert(number_positions@ =~= run_places((r as int, a, p + 1)));
                        assert(runs_so_far(rows, r as int, p + 1) =~= runs_so_far(rows, r as int, p as int));
                    }
                } else {
                    if number.len() > 0 {
                        let ghost a = row_runs(pre).1->Some_0;
                        let ghost before = runs_so_far(rows, r as int, p as int);
                        let ghost old_number = number@;
                        let ghost old_places = number_positions@;
                        let ghost old_numbers = numbers@;
                        let ghost old_positions = numbers_positions@;
                        numbers.push(number);
                        numbers_positions.push(number_positions);
                        number = Vec::new();
                        number_positions = Vec::new();
                        proof {
                            assert(runs_so_far(rows, r as int, p + 1) =~= before.push((r as int, a, p as int)));
                            assert forall|k: int| 0 <= k < numbers@.len() implies (#[trigger] numbers@[k])@ == rows[runs_so_far(rows, r as int, p + 1)[k].0].subrange(
                                runs_so_far(rows, r as int, p + 1)[k].1,
                                runs_so_far(rows, r as int, p + 1)[k].2,
                            ) && numbers_positions@[k]@ == run_places(runs_so_far(rows, r as int, p + 1)[k]) by {
                                if k < before.len() {
                                    assert(runs_so_far(rows, r as int, p + 1)[k] == before[k]);
                                    assert(numbers@[k] == old_numbers[k]);
                                    assert(numbers_positions@[k] == old_positions[k]);
                                } else {
                                    assert(numbers@[k]@ == old_number);
                                    assert(numbers_positions@[k]@ == old_places);
                                }
                            }
                        }
                    } else {
                        assert(runs_so_far(rows, r as int, p + 1) =~= runs_so_far(rows, r as int, p as int));
                    }
                }
                p = p + 1;
            }
            proof {
                assert(rows[r as int].subrange(0, p as int) =~= rows[r as int]);
                assert(rows.subrange(0, r + 1).drop_last() =~= rows.subrange(0, r as int));
                assert(all_runs(rows.subrange(0, r + 1)) =~= runs_so_far(rows, r as int, p as int));
            }
            r = r + 1;
        }
        assert(rows.subrange(0, rows.len() as int) =~= rows);
        (numbers, numbers_positions)
    }
}

/// Some place of the run has a neighbour that is a symbol of the schematic.
pub open spec fn touches_symbol(e: Engine, places: Seq<(usize, usize)>) -> bool {
    exists|j: int, k: int|
        0 <= j < places.len() && 0 <= k < neighbor_chars(e, places[j].0 as int, places[j].1 as int).len()
            && e.symbols@.contains(#[trigger] neighbor_chars(e, places[j].0 as int, places[j].1 as int)[k])
}

/// The sum of the numbers of the runs that touch a symbol; `None` where one of them
/// does not fit in a `u64`.
pub open spec fn part_sum(e: Engine, runs: Seq<(int, int, int)>) -> Option<int>
    decreases runs.len(),
{
    if runs.len() == 0 {
        Some(0)
    } else {
        let run = runs.last();
        match part_sum(e, runs.drop_last()) {
            Some(t) => if touches_symbol(e, run_places(run)) {
                match u64_of(rows_of(e)[run.0].subrange(run.1, run.2)) {
                    Some(v) => Some(t + v),
                    None => None,
                }
            } else {
                Some(t)
            },
            None => None,
        }
    }
}

proof fn lemma_part_sum_prefix(e: Engine, runs: Seq<(int, int, int)>, i: int)
    requires
        0 <= i <= runs.len(),
    ensures
        part_sum(e, runs.subrange(0, i)) is None ==> part_sum(e, runs) is None,
        part_sum(e, runs) matches Some(t) ==> (part_sum(e, runs.subrange(0, i)) matches Some(a) && 0 <= a <= t),
    decreases runs.len(),
{
    if runs.len() == 0 {
        assert(runs.subrange(0, i) =~= runs);
    } else if i == runs.len() {
        assert(runs.subrange(0, i) =~= runs);
        lemma_part_sum_prefix(e, runs.drop_last(), i - 1);
        assert(runs.drop_last().subrange(0, i - 1) =~= runs.drop_last());
    } else {
        lemma_part_sum_prefix(e, runs.drop_last(), i);
        assert(runs.drop_last().subrange(0, i) =~= runs.subrange(0, i));
        lemma_part_sum_prefix(e, runs.drop_last(), runs.len() - 1);
        assert(runs.drop_last().subrange(0, runs.len() - 1) =~= runs.drop_last());
    }
}

impl Engine {
    /// Whether a cell of the number at these places has a symbol around it.
    pub fn is_partnumber(&self, positions: &Vec<(usize, usize)>) -> (r: bool)
        requires
            self.wf(),
            forall|j: int| 0 <= j < positions@.len() ==> (#[trigger] positions@[j]).0 < self.height && positions@[j].1 < self.width,
        ensures
            r == touches_symbol(*self, positions@),
    {
        let mut j: usize = 0;
        while j < positions.len()
            invariant
                self.wf(),
                forall|q: int| 0 <= q < positions@.len() ==> (#[trigger] positions@[q]).0 < self.height && positions@[q].1 < self.width,
                j <= positions@.len(),
                forall|q: int, k: int|
                    0 <= q < j && 0 <= k < neighbor_chars(*self, positions@[q].0 as int, positions@[q].1 as int).len()
                        ==> !self.symbols@.contains(#[trigger] neighbor_chars(*self, positions@[q].0 as int, positions@[q].1 as int)[k]),
            decreases positions.len() - j,
        {
            let (r, p) = positions[j];
            let ns = self.neighbors(r, p);
            let mut k: usize = 0;
            while k < ns.len()
                invariant
                    ns@ == neighbor_chars(*self, r as int, p as int),
                    j < positions@.len(),
                    positions@[j as int] == (r, p),
                    k <= ns@.len(),
                    forall|m: int| 0 <= m < k ==> !self.symbols@.contains(#[trigger] ns@[m]),
                decreases ns.len() - k,
            {
                if contains_char(&self.symbols, ns[k]) {
                    assert(self.symbols@.contains(
                        neighbor_chars(*self, positions@[j as int].0 as int, positions@[j as int].1 as int)[k as int],
                    ));
                    return true;
                }
                k = k + 1;
            }
            j = j + 1;
        }
        false
    }

    /// The sum of all numbers that touch a symbol; `None` where a number or the sum
    /// does not fit.
    pub fn part_number_sum(&self) -> (r: Option<u64>)
        requires
            self.wf(),
        ensures
            match r {
                Some(v) => part_sum(*self, all_runs(rows_of(*self))) == Some(v as int),
                None => match part_sum(*self, all_runs(rows_of(*self))) {
                    Some(t) => t > u64::MAX,
                    None => true,
                },
            },
    {
        let (numbers, positions) = self.numbers();
        let ghost runs = all_runs(rows_of(*self));
        let mut sum: u64 = 0;
        let mut k: usize = 0;
        assert(runs.subrange(0, 0) =~= Seq::<(int, int, int)>::empty());
        while k < numbers.len()
            invariant
                self.wf(),
                runs == all_runs(rows_of(*self)),
                matches_runs(numbers@, positions@, rows_of(*self), runs),
                k <= numbers@.len(),
                part_sum(*self, runs.subrange(0, k as int)) == Some(sum as int),
            decreases numbers.len() - k,
        {
            assert(runs.subrange(0, k + 1).drop_last() =~= runs.subrange(0, k as int));
            proof {
                lemma_run_places_inside(*self, runs, k as int);
            }
            assert(numbers@[k as int]@ == rows_of(*self)[runs[k as int].0].subrange(runs[k as int].1, runs[k as int].2));
            assert(positions@[k as int]@ == run_places(runs[k as int]));
            if self.is_partnumber(&positions[k]) {
                match parse_u64(&numbers[k]) {
                    Some(v) => {
                        if v > u64::MAX - sum {
                            proof {
                                lemma_part_sum_prefix(*self, runs, k + 1);
                            }
                            return None;
                        }
                        sum = sum + v;
                    },
                    None => {
                        proof {
                            lemma_part_sum_prefix(*self, runs, k + 1);
                        }
                        return None;
                    },
                }
            }
            k = k + 1;
        }
        assert(runs.subrange(0, runs.len() as int) =~= runs);
        Some(sum)
    }
}

/// The places of every run lie inside the schematic.
proof fn lemma_run_places_inside(e: Engine, runs: Seq<(int, int, int)>, k: int)
    requires
        e.wf(),
        runs == all_runs(rows_of(e)),
        0 <= k < runs.len(),
    ensures
        forall|j: int| 0 <= j < run_places(runs[k]).len() ==> (#[trigger] run_places(runs[k])[j]).0 < e.height && run_places(runs[k])[j].1 < e.width,
{
    lemma_all_runs_inside(rows_of(e), e.width as int);
    let run = runs[k];
    assert forall|j: int| 0 <= j < run_places(run).len() implies (#[trigger] run_places(run)[j]).0 < e.height && run_places(run)[j].1 < e.width by {
        assert(0 <= run.0 < rows_of(e).len());
        assert(0 <= run.1 + j < run.2 <= e.width);
    }
}

proof fn lemma_row_runs_inside(s: Seq<char>)
    ensures
        forall|k: int| 0 <= k < row_runs(s).0.len() ==> 0 <= (#[trigger] row_runs(s).0[k]).0 <= row_runs(s).0[k].1 < s.len(),
        row_runs(s).1 matches Some(a) ==> 0 <= a < s.len(),
    decreases s.len(),
{
    if s.len() > 0 {
        lemma_row_runs_inside(s.drop_last());
    }
}

proof fn lemma_all_runs_inside(rows: Seq<Seq<char>>, width: int)
    requires
        forall|r: int| 0 <= r < rows.len() ==> (#[trigger] rows[r]).len() == width,
    ensures
        forall|k: int| 0 <= k < all_runs(rows).len() ==> {
            let run = #[trigger] all_runs(rows)[k];
            0 <= run.0 < rows.len() && 0 <= run.1 <= run.2 < width
        },
    decreases rows.len(),
{
    if rows.len() > 0 {
        let r = rows.len() - 1;
        lemma_all_runs_inside(rows.drop_last(), width);
        lemma_row_runs_inside(rows[r]);
        let head = all_runs(rows.drop_last());
        let tail = row_runs(rows[r]).0.map_values(|ab: (int, int)| (r, ab.0, ab.1));
        assert forall|k: int| 0 <= k < all_runs(rows).len() implies {
            let run = #[trigger] all_runs(rows)[k];
            0 <= run.0 < rows.len() && 0 <= run.1 <= run.2 < width
        } by {
            if k < head.len() {
                assert(all_runs(rows)[k] == head[k]);
            } else {
                assert(all_runs(rows)[k] == tail[k - head.len()]);
            }
        }
    }
}

fn contains_char(v: &Vec<char>, c: char) -> (r: bool)
    ensures
        r == v@.contains(c),
{
    let mut i: usize = 0;
    while i < v.len()
        invariant
            i <= v@.len(),
            forall|j: int| 0 <= j < i ==> v@[j] != c,
        decreases v.len() - i,
    {
        if v[i] == c {
            return true;
        }
        i = i + 1;
    }
    false
}

} // verus!
