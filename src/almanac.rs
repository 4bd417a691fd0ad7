use vstd::prelude::*;

use crate::numbers::{parse_u64, u64_of};
use crate::text::{chars_of, cut_at, cut_once, split_on, split_text, words, words_of};

verus! {

/// One line of a map: sources from `source_start` on go to destinations from
/// `destination_start` on.
#[derive(Clone, Copy, Debug, PartialEq, Eq, Structural)]
pub struct Range {
    pub destination_start: u64,
    pub source_start: u64,
    pub length: u64,
}

/// One map of the almanac: its name and its ranges, the first that applies winning.
#[derive(Debug)]
pub struct AlmanacMap {
    pub name: String,
    pub ranges: Vec<Range>,
}

/// The seeds and the maps, in the order they are applied.
#[derive(Debug)]
pub struct Greenhouse {
    pub seeds: Vec<u64>,
    pub maps: Vec<AlmanacMap>,
}

/// The range that a line such as `50 98 2` describes: the first three words, as numbers.
pub open spec fn range_of(s: Seq<char>) -> Option<Range> {
    let ws = words_of(s);
    if ws.len() >= 3 && u64_of(ws[0]) is Some && u64_of(ws[1]) is Some && u64_of(ws[2]) is Some {
        Some(
            Range {
                destination_start: u64_of(ws[0])->Some_0,
                source_start: u64_of(ws[1])->Some_0,
                length: u64_of(ws[2])->Some_0,
            },
        )
    } else {
        None
    }
}

/// The ranges that lines describe, if each describes one.
pub open spec fn ranges_of(ls: Seq<Seq<char>>) -> Option<Seq<Range>>
    decreases ls.len(),
{
    if ls.len() == 0 {
        Some(Seq::empty())
    } else {
        match (ranges_of(ls.drop_last()), range_of(ls.last())) {
            (Some(rs), Some(r)) => Some(rs.push(r)),
            _ => None,
        }
    }
}

/// The name and the ranges of a block such as `seed-to-soil map:\n50 98 2\n52 50 48`.
pub open spec fn map_of(s: Seq<char>) -> Option<(Seq<char>, Seq<Range>)> {
    match cut_at(s, seq![':', '\n']) {
        Some((head, body)) => match cut_at(head, seq![' ']) {
            Some((name, _)) => match ranges_of(split_on(body, seq!['\n'])) {
                Some(rs) => Some((name, rs)),
                None => None,
            },
            None => None,
        },
        None => None,
    }
}

/// The numbers that words write, if each writes one.
pub open spec fn seeds_of(ws: Seq<Seq<char>>) -> Option<Seq<u64>>
    decreases ws.len(),
{
    if ws.len() == 0 {
        Some(Seq::empty())
    } else {
        match (seeds_of(ws.drop_last()), u64_of(ws.last())) {
            (Some(ns), Some(n)) => Some(ns.push(n)),
            _ => None,
        }
    }
}

/// The source falls in the range; the end bound counts as inside.
pub open spec fn applies_to(r: Range, source: int) -> bool {
    r.source_start <= source <= r.source_start + r.length
}

/// Where the range sends a source inside it.
pub open spec fn shifted(r: Range, source: int) -> int {
    source - r.source_start + r.destination_start
}

/// The index of the first range that applies to the source.
pub open spec fn first_applying(rs: Seq<Range>, source: int, i: int) -> bool {
    0 <= i < rs.len() && applies_to(rs[i], source) && forall|j: int|
        0 <= j < i ==> !applies_to(#[trigger] rs[j], source)
}

/// Where a map sends a source: through its first applying range, or unchanged.
pub open spec fn destination(rs: Seq<Range>, source: int) -> int {
    if exists|i: int| #[trigger] first_applying(rs, source, i) {
        shifted(rs[choose|i: int| #[trigger] first_applying(rs, source, i)], source)
    } else {
        source
    }
}

impl Range {
    /// Reads a range such as `50 98 2`: destination start, source start, length.
    pub fn from(s: &str) -> (r: Option<Range>)
        ensures
            r == range_of(s@),
    {
        let ws = words(s);
        proof {
            assert(ws@.map_values(|p: String| p@).len() == ws@.len());
        }
        if ws.len() < 3 {
            return None;
        }
        assert(ws@[0]@ == words_of(s@)[0]);
        assert(ws@[1]@ == words_of(s@)[1]);
        assert(ws@[2]@ == words_of(s@)[2]);
        let destination_start = parse_u64(&chars_of(ws[0].as_str()));
        let source_start = parse_u64(&chars_of(ws[1].as_str()));
        let length = parse_u64(&chars_of(ws[2].as_str()));
        match (destination_start, source_start, length) {
            (Some(destination_start), Some(source_start), Some(length)) => Some(
                Range { destination_start, source_start, length },
            ),
            _ => None,
        }
    }

    pub fn applies(&self, source: u64) -> (r: bool)
        ensures
            r == applies_to(*self, source as int),
    {
        self.source_start <= source && source - self.source_start <= self.length
    }

    pub fn get_destination(&self, source: u64) -> (r: u64)
        requires
            self.source_start <= source,
            shifted(*self, source as int) <= u64::MAX,
        ensures
            r == shifted(*self, source as int),
    {
        source - self.source_start + self.destination_start
    }
}

proof fn lemma_ranges_none_prefix(ls: Seq<Seq<char>>, i: int)
    requires
        0 <= i <= ls.len(),
        ranges_of(ls.subrange(0, i)) is None,
    ensures
        ranges_of(ls) is None,
    decreases ls.len() - i,
{
    if i < ls.len() {
        assert(ls.subrange(0, i + 1).drop_last() =~= ls.subrange(0, i));
        lemma_ranges_none_prefix(ls, i + 1);
    } else {
        assert(ls.subrange(0, i) =~= ls);
    }
}

proof fn lemma_seeds_none_prefix(ws: Seq<Seq<char>>, i: int)
    requires
        0 <= i <= ws.len(),
        seeds_of(ws.subrange(0, i)) is None,
    ensures
        seeds_of(ws) is None,
    decreases ws.len() - i,
{
    if i < ws.len() {
        assert(ws.subrange(0, i + 1).drop_last() =~= ws.subrange(0, i));
        lemma_seeds_none_prefix(ws, i + 1);
    } else {
        assert(ws.subrange(0, i) =~= ws);
    }
}

impl AlmanacMap {
    /// Reads a map such as `seed-to-soil map:\n50 98 2\n52 50 48`.
    pub fn from(s: &str) -> (r: Option<AlmanacMap>)
        ensures
            match r {
                Some(m) => map_of(s@) == Some((m.name@, m.ranges@)),
                None => map_of(s@) is None,
            },
    {
        proof {
            reveal_strlit(":\n");
            reveal_strlit(" ");
            reveal_strlit("\n");
        }
        assert(":\n"@ =~= seq![':', '\n']);
        assert(" "@ =~= seq![' ']);
        assert("\n"@ =~= seq!['\n']);
        let (head, body) = match cut_once(s, ":\n") {
            Some(parts) => parts,
            None => {
                return None;
            },
        };
        let (name, kind) = match cut_once(head.as_str(), " ") {
            Some(parts) => parts,
            None => {
                return None;
            },
        };
        let lines = split_text(body.as_str(), "\n");
        let ghost ls = lines@.map_values(|p: String| p@);
        let mut ranges: Vec<Range> = Vec::new();
        let mut i: usize = 0;
        assert(ls.subrange(0, 0) =~= Seq::<Seq<char>>::empty());
        while i < lines.len()
            invariant
                ls == lines@.map_values(|p: String| p@),
                ls == split_on(body@, seq!['\n']),
                cut_at(s@, seq![':', '\n']) == Some((head@, body@)),
                cut_at(head@, seq![' ']) == Some((name@, kind@)),
                i <= lines@.len(),
                ranges_of(ls.subrange(0, i as int)) == Some(ranges@),
            decreases lines.len() - i,
        {
            assert(ls.subrange(0, i + 1).drop_last() =~= ls.subrange(0, i as int));
            match Range::from(lines[i].as_str()) {
                Some(range) => ranges.push(range),
                None => {
                    proof {
                        lemma_ranges_none_prefix(ls, i + 1);
                    }
                    return None;
                },
            }
            i = i + 1;
        }
        assert(ls.subrange(0, ls.len() as int) =~= ls);
        Some(AlmanacMap { name, ranges })
    }

    /// The index of the first range that applies to the source.
    pub fn find_range_id(&self, source: u64) -> (r: Option<usize>)
        ensures
            match r {
                Some(i) => first_applying(self.ranges@, source as int, i as int),
                None => forall|i: int| !#[trigger] first_applying(self.ranges@, source as int, i),
            },
    {
        let mut i: usize = 0;
        while i < self.ranges.len()
            invariant
                i <= self.ranges@.len(),
                forall|j: int| 0 <= j < i ==> !applies_to(#[trigger] self.ranges@[j], source as int),
            decreases self.ranges.len() - i,
        {
            if self.ranges[i].applies(source) {
                return Some(i);
            }
            i = i + 1;
        }
        proof {
            assert forall|k: int| !#[trigger] first_applying(self.ranges@, source as int, k) by {
                if 0 <= k < self.ranges@.len() {
                    assert(!applies_to(self.ranges@[k], source as int));
                }
            }
        }
        None
    }

    /// Where the map sends a source; `None` where that lies beyond `u64::MAX`.
    pub fn get_destination(&self, source: u64) -> (r: Option<u64>)
        ensures
            match r {
                Some(d) => d == destination(self.ranges@, source as int),
                None => destination(self.ranges@, source as int) > u64::MAX,
            },
    {
        match self.find_range_id(source) {
            Some(id) => {
                let range = self.ranges[id];
                proof {
                    let k = choose|k: int| #[trigger] first_applying(self.ranges@, source as int, k);
                    if k < id {
                        assert(!applies_to(self.ranges@[k], source as int));
                    } else if id < k {
                        assert(!applies_to(self.ranges@[id as int], source as int));
                    }
                }
                if source - range.source_start > u64::MAX - range.destination_start {
                    None
                } else {
                    Some(range.get_destination(source))
                }
            },
            None => Some(source),
        }
    }
}

/// Where the maps, applied in order, send a seed; `None` where a step leaves `u64`.
pub open spec fn location(maps: Seq<Seq<Range>>, seed: int) -> Option<int>
    decreases maps.len(),
{
    if maps.len() == 0 {
        Some(seed)
    } else {
        match location(maps.drop_last(), seed) {
            Some(x) => {
                let d = destination(maps.last(), x);
                if d <= u64::MAX {
                    Some(d)
                } else {
                    None
                }
            },
            None => None,
        }
    }
}

/// The numbers after `seeds: `, before the first blank line.
pub open spec fn seed_text(s: Seq<char>) -> Option<Seq<char>> {
    match cut_at(s, seq!['\n', '\n']) {
        Some((head, _)) => match cut_at(head, seq![':', ' ']) {
            Some((_, numbers)) => Some(numbers),
            None => None,
        },
        None => None,
    }
}

/// The blocks after the first blank line, one map each.
pub open spec fn map_texts(s: Seq<char>) -> Seq<Seq<char>> {
    match cut_at(s, seq!['\n', '\n']) {
        Some((_, rest)) => split_on(rest, seq!['\n', '\n']),
        None => Seq::empty(),
    }
}

impl Greenhouse {
    /// Reads an almanac: a `seeds:` line, a blank line, and maps separated by blank lines.
    pub fn from(s: &str) -> (r: Option<Greenhouse>)
        ensures
            match r {
                Some(g) => {
                    &&& seed_text(s@) is Some
                    &&& seeds_of(words_of(seed_text(s@)->Some_0)) == Some(g.seeds@)
                    &&& g.maps@.len() == map_texts(s@).len()
                    &&& forall|i: int|
                        0 <= i < g.maps@.len() ==> map_of(#[trigger] map_texts(s@)[i]) == Some(
                            (g.maps@[i].name@, g.maps@[i].ranges@),
                        )
                },
                None => {
                    ||| seed_text(s@) is None
                    ||| seeds_of(words_of(seed_text(s@)->Some_0)) is None
                    ||| exists|i: int|
                        0 <= i < map_texts(s@).len() && map_of(#[trigger] map_texts(s@)[i]) is None
                },
            },
    {
        proof {
            reveal_strlit("\n\n");
            reveal_strlit(": ");
        }
        assert("\n\n"@ =~= seq!['\n', '\n']);
        assert(": "@ =~= seq![':', ' ']);
        let (seed_part, map_part) = match cut_once(s, "\n\n") {
            Some(parts) => parts,
            None => {
                return None;
            },
        };
        let (_, numbers) = match cut_once(seed_part.as_str(), ": ") {
            Some(parts) => parts,
            None => {
                return None;
            },
        };
        let ws = words(numbers.as_str());
        let ghost wv = ws@.map_values(|p: String| p@);
        let mut seeds: Vec<u64> = Vec::new();
        let mut i: usize = 0;
        assert(wv.subrange(0, 0) =~= Seq::<Seq<char>>::empty());
        while i < ws.len()
            invariant
                wv == ws@.map_values(|p: String| p@),
                wv == words_of(numbers@),
                seed_text(s@) == Some(numbers@),
                i <= ws@.len(),
                seeds_of(wv.subrange(0, i as int)) == Some(seeds@),
            decreases ws.len() - i,
        {
            assert(wv.subrange(0, i + 1).drop_last() =~= wv.subrange(0, i as int));
            match parse_u64(&chars_of(ws[i].as_str())) {
                Some(n) => seeds.push(n),
                None => {
                    proof {
                        lemma_seeds_none_prefix(wv, i + 1);
                    }
                    return None;
                },
            }
            i = i + 1;
        }
        assert(wv.subrange(0, wv.len() as int) =~= wv);
        let blocks = split_text(map_part.as_str(), "\n\n");
        let ghost bv = blocks@.map_values(|p: String| p@);
        let mut maps: Vec<AlmanacMap> = Vec::new();
        let mut k: usize = 0;
        while k < blocks.len()
            invariant
                bv == blocks@.map_values(|p: String| p@),
                bv == split_on(map_part@, seq!['\n', '\n']),
                bv == map_texts(s@),
                seed_text(s@) is Some,
                seeds_of(words_of(seed_text(s@)->Some_0)) == Some(seeds@),
                k <= blocks@.len(),
                maps@.len() == k,
                forall|j: int| 0 <= j < k ==> map_of(bv[j]) == Some(
                    ((#[trigger] maps@[j]).name@, maps@[j].ranges@),
                ),
            decreases blocks.len() - k,
        {
            match AlmanacMap::from(blocks[k].as_str()) {
                Some(m) => maps.push(m),
                None => {
                    assert(map_of(map_texts(s@)[k as int]) is None);
                    return None;
                },
            }
            k = k + 1;
        }
        Some(Greenhouse { seeds, maps })
    }

    /// The lowest location that any seed reaches through all maps, or `u64::MAX` where
    /// there is no seed; `None` where a seed leaves the range of `u64` on its way.
    pub fn lowest_location(&self) -> (r: Option<u64>)
        ensures
            match r {
                Some(low) => {
                    &&& forall|i: int| 0 <= i < self.seeds@.len() ==> (location(
                        self.maps@.map_values(|m: AlmanacMap| m.ranges@),
                        #[trigger] self.seeds@[i] as int,
                    ) matches Some(x) && low <= x)
                    &&& low == u64::MAX || exists|i: int| 0 <= i < self.seeds@.len() && location(
                        self.maps@.map_values(|m: AlmanacMap| m.ranges@),
                        #[trigger] self.seeds@[i] as int,
                    ) == Some(low as int)
                },
                None => exists|i: int| 0 <= i < self.seeds@.len() && location(
                    self.maps@.map_values(|m: AlmanacMap| m.ranges@),
                    #[trigger] self.seeds@[i] as int,
                ) is None,
            },
    {
        let ghost ms = self.maps@.map_values(|m: AlmanacMap| m.ranges@);
        let mut lowest: u64 = u64::MAX;
        let mut i: usize = 0;
        while i < self.seeds.len()
            invariant
                ms == self.maps@.map_values(|m: AlmanacMap| m.ranges@),
                i <= self.seeds@.len(),
                forall|j: int| 0 <= j < i ==> (location(ms, #[trigger] self.seeds@[j] as int) matches Some(x) && lowest <= x),
                lowest == u64::MAX || exists|j: int| 0 <= j < i && location(ms, #[trigger] self.seeds@[j] as int) == Some(lowest as int),
            decreases self.seeds.len() - i,
        {
            let seed = self.seeds[i];
            let mut x: u64 = seed;
            let mut k: usize = 0;
            assert(ms.subrange(0, 0) =~= Seq::<Seq<Range>>::empty());
            while k < self.maps.len()
                invariant
                    ms == self.maps@.map_values(|m: AlmanacMap| m.ranges@),
                    k <= self.maps@.len(),
                    location(ms.subrange(0, k as int), seed as int) == Some(x as int),
                    i < self.seeds@.len(),
                    seed == self.seeds@[i as int],
                decreases self.maps.len() - k,
            {
                assert(ms.subrange(0, k + 1).drop_last() =~= ms.subrange(0, k as int));
                match self.maps[k].get_destination(x) {
                    Some(d) => x = d,
                    None => {
                        proof {
                            lemma_location_none_prefix(ms, seed as int, k + 1);
                            assert(location(ms, self.seeds@[i as int] as int) is None);
                        }
                        return None;
                    },
                }
                k = k + 1;
            }
            assert(ms.subrange(0, ms.len() as int) =~= ms);
            if x < lowest {
                lowest = x;
            }
            i = i + 1;
        }
        Some(lowest)
    }
}

proof fn lemma_location_none_prefix(ms: Seq<Seq<Range>>, seed: int, k: int)
    requires
        0 <= k <= ms.len(),
        location(ms.subrange(0, k), seed) is None,
    ensures
        location(ms, seed) is None,
    decreases ms.len() - k,
{
    if k < ms.len() {
        assert(ms.subrange(0, k + 1).drop_last() =~= ms.subrange(0, k));
        lemma_location_none_prefix(ms, seed, k + 1);
    } else {
        assert(ms.subrange(0, k) =~= ms);
    }
}

} // verus!
