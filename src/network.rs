use vstd::prelude::*;

use crate::text::{chars_of, cut_at, cut_once, split_on, split_text, string_of, trim, trimmed};

verus! {

/// A node of the network: its label and the labels of its left and right neighbours.
#[derive(Debug)]
pub struct Node {
    pub name: String,
    pub left: String,
    pub right: String,
}

/// A network of labelled nodes, each label once, with its start and end nodes.
#[derive(Debug)]
pub struct Network {
    pub nodes: Vec<Node>,
    pub nodes_start: Vec<Node>,
    pub nodes_end: Vec<Node>,
}

pub open spec fn label_of(s: Seq<char>, from: int) -> Seq<char> {
    s.subrange(from, from + 3)
}

pub open spec fn ends_with(s: Seq<char>, c: char) -> bool {
    s.len() > 0 && s.last() == c
}

/// The label that an instruction `L` or `R` leads to from a node.
pub open spec fn next_label(n: Node, d: char) -> Option<Seq<char>> {
    if d == 'L' {
        Some(n.left@)
    } else if d == 'R' {
        Some(n.right@)
    } else {
        None
    }
}

/// The node labelled `label`, if there is one.
pub open spec fn lookup(nodes: Seq<Node>, label: Seq<char>) -> Option<Node> {
    if exists|i: int| 0 <= i < nodes.len() && (#[trigger] nodes[i]).name@ == label {
        Some(nodes[choose|i: int| 0 <= i < nodes.len() && (#[trigger] nodes[i]).name@ == label])
    } else {
        None
    }
}

/// Where a walk that starts at `AAA` stands after `k` instructions, taken in turn and
/// from the first again once all are used.
pub open spec fn walk_position(nodes: Seq<Node>, ins: Seq<char>, k: nat) -> Option<Node>
    decreases k,
{
    if k == 0 {
        lookup(nodes, seq!['A', 'A', 'A'])
    } else if ins.len() == 0 {
        None
    } else {
        match walk_position(nodes, ins, (k - 1) as nat) {
            Some(n) => match next_label(n, ins[(k - 1) % (ins.len() as int)]) {
                Some(label) => lookup(nodes, label),
                None => None,
            },
            None => None,
        }
    }
}

/// The walk stands on a node other than `ZZZ` after `k` instructions.
pub open spec fn on_the_way(nodes: Seq<Node>, ins: Seq<char>, k: nat) -> bool {
    walk_position(nodes, ins, k) matches Some(n) && n.name@ != seq!['Z', 'Z', 'Z']
}

/// After `k` instructions, and not before, the walk reaches `ZZZ`.
pub open spec fn arrives_after(nodes: Seq<Node>, ins: Seq<char>, k: nat) -> bool {
    &&& walk_position(nodes, ins, k) matches Some(n) && n.name@ == seq!['Z', 'Z', 'Z']
    &&& forall|j: nat| j < k ==> #[trigger] on_the_way(nodes, ins, j)
}

/// The number of nodes times the number of instructions, or the largest `usize` where
/// that does not fit.
pub open spec fn step_cap(nodes: int, instructions: int) -> int {
    if nodes * instructions <= usize::MAX {
        nodes * instructions
    } else {
        usize::MAX as int
    }
}

/// Some node carries the label.
pub open spec fn has_label(nodes: Seq<Node>, label: Seq<char>) -> bool {
    exists|j: int| 0 <= j < nodes.len() && (#[trigger] nodes[j]).name@ == label
}

impl Node {
    /// Reads a node such as `AAA = (BBB, CCC)`.
    pub fn from(s: &str) -> (r: Option<Node>)
        ensures
            r is Some <==> s@.len() >= 15,
            r matches Some(n) ==> n.name@ == label_of(s@, 0) && n.left@ == label_of(s@, 7)
                && n.right@ == label_of(s@, 12),
    {
        let cs = chars_of(s);
        if cs.len() < 15 {
            return None;
        }
        let name = string_of(&slice_of(&cs, 0, 3));
        let left = string_of(&slice_of(&cs, 7, 10));
        let right = string_of(&slice_of(&cs, 12, 15));
        Some(Node { name, left, right })
    }

    /// The label that the instruction leads to: `L` the left, `R` the right neighbour.
    pub fn get_label_by_direction(&self, direction: char) -> (r: Option<String>)
        ensures
            match r {
                Some(l) => next_label(*self, direction) == Some(l@),
                None => next_label(*self, direction) is None,
            },
    {
        match direction {
            'L' => Some(self.left.clone()),
            'R' => Some(self.right.clone()),
            _ => None,
        }
    }

    pub fn is_start_node(&self) -> (r: bool)
        ensures
            r == ends_with(self.name@, 'A'),
    {
        let cs = chars_of(self.name.as_str());
        cs.len() > 0 && cs[cs.len() - 1] == 'A'
    }

    pub fn is_end_node(&self) -> (r: bool)
        ensures
            r == ends_with(self.name@, 'Z'),
    {
        let cs = chars_of(self.name.as_str());
        cs.len() > 0 && cs[cs.len() - 1] == 'Z'
    }

    /// A node with the same labels.
    pub fn duplicate(&self) -> (r: Node)
        ensures
            r == *self,
    {
        Node { name: self.name.clone(), left: self.left.clone(), right: self.right.clone() }
    }
}

fn slice_of(cs: &Vec<char>, from: usize, to: usize) -> (r: Vec<char>)
    requires
        from <= to <= cs@.len(),
    ensures
        r@ == cs@.subrange(from as int, to as int),
{
    let mut r: Vec<char> = Vec::new();
    let mut i: usize = from;
    while i < to
        invariant
            from <= i <= to <= cs@.len(),
            r@ == cs@.subrange(from as int, i as int),
        decreases to - i,
    {
        r.push(cs[i]);
        i = i + 1;
        assert(r@ =~= cs@.subrange(from as int, i as int));
    }
    r
}

fn same_text(a: &String, b: &String) -> (r: bool)
    ensures
        r == (a@ == b@),
{
    let x = chars_of(a.as_str());
    let y = chars_of(b.as_str());
    if x.len() != y.len() {
        return false;
    }
    let mut i: usize = 0;
    while i < x.len()
        invariant
            x@ == a@,
            y@ == b@,
            x@.len() == y@.len(),
            i <= x@.len(),
            forall|j: int| 0 <= j < i ==> x@[j] == y@[j],
        decreases x.len() - i,
    {
        if x[i] != y[i] {
            return false;
        }
        i = i + 1;
    }
    assert(x@ =~= y@);
    true
}

impl Network {
    /// No two nodes carry the same label.
    pub open spec fn wf(&self) -> bool {
        forall|i: int, j: int|
            0 <= i < j < self.nodes@.len() ==> (#[trigger] self.nodes@[i]).name@ != (
            #[trigger] self.nodes@[j]).name@
    }

    pub fn new() -> (r: Network)
        ensures
            r.wf(),
            r.nodes@.len() == 0,
            r.nodes_start@.len() == 0,
            r.nodes_end@.len() == 0,
    {
        Network { nodes: Vec::new(), nodes_start: Vec::new(), nodes_end: Vec::new() }
    }

    /// Adds a node, replacing one with the same label; a node whose label ends in `A`
    /// is also a start node, one whose label ends in `Z` an end node.
    pub fn insert(&mut self, node: Node)
        requires
            old(self).wf(),
        ensures
            final(self).wf(),
            (exists|i: int| 0 <= i < old(self).nodes@.len() && (#[trigger] old(self).nodes@[i]).name@ == node.name@)
                ==> exists|i: int|
                0 <= i < old(self).nodes@.len() && (#[trigger] old(self).nodes@[i]).name@ == node.name@
                    && final(self).nodes@ == old(self).nodes@.update(i, node),
            !(exists|i: int| 0 <= i < old(self).nodes@.len() && (#[trigger] old(self).nodes@[i]).name@ == node.name@)
                ==> final(self).nodes@ == old(self).nodes@.push(node),
            final(self).nodes_start@ == if ends_with(node.name@, 'A') {
                old(self).nodes_start@.push(node)
            } else {
                old(self).nodes_start@
            },
            final(self).nodes_end@ == if ends_with(node.name@, 'Z') {
                old(self).nodes_end@.push(node)
            } else {
                old(self).nodes_end@
            },
    {
        if node.is_start_node() {
            self.nodes_start.push(node.duplicate());
        }
        if node.is_end_node() {
            self.nodes_end.push(node.duplicate());
        }
        let ghost starts = self.nodes_start@;
        let ghost ends = self.nodes_end@;
        let mut i: usize = 0;
        while i < self.nodes.len()
            invariant
                self.nodes@ == old(self).nodes@,
                self.nodes_start@ == starts,
                self.nodes_end@ == ends,
                starts == if ends_with(node.name@, 'A') {
                    old(self).nodes_start@.push(node)
                } else {
                    old(self).nodes_start@
                },
                ends == if ends_with(node.name@, 'Z') {
                    old(self).nodes_end@.push(node)
                } else {
                    old(self).nodes_end@
                },
                old(self).wf(),
                i <= self.nodes@.len(),
                forall|j: int| 0 <= j < i ==> (#[trigger] self.nodes@[j]).name@ != node.name@,
            decreases self.nodes.len() - i,
        {
            if same_text(&self.nodes[i].name, &node.name) {
                let ghost before = self.nodes@;
                self.nodes.set(i, node);
                proof {
                    assert(before[i as int].name@ == self.nodes@[i as int].name@);
                    assert forall|a: int, b: int|
                        0 <= a < b < self.nodes@.len() implies (#[trigger] self.nodes@[a]).name@
                        != (#[trigger] self.nodes@[b]).name@ by {
                        if a != i && b != i {
                            assert(before[a] == self.nodes@[a]);
                            assert(before[b] == self.nodes@[b]);
                        } else if a == i {
                            assert(before[b] == self.nodes@[b]);
                        } else {
                            assert(before[a] == self.nodes@[a]);
                        }
                    }
                }
                return;
            }
            i = i + 1;
        }
        self.nodes.push(node);
    }

    /// The node with the label, if there is one.
    pub fn get_node_by_label(&self, label: &String) -> (r: Option<&Node>)
        requires
            self.wf(),
        ensures
            match r {
                Some(n) => lookup(self.nodes@, label@) == Some(*n),
                None => lookup(self.nodes@, label@) is None,
            },
    {
        let mut i: usize = 0;
        while i < self.nodes.len()
            invariant
                self.wf(),
                i <= self.nodes@.len(),
                forall|j: int| 0 <= j < i ==> (#[trigger] self.nodes@[j]).name@ != label@,
            decreases self.nodes.len() - i,
        {
            if same_text(&self.nodes[i].name, label) {
                proof {
                    let k = choose|k: int| 0 <= k < self.nodes@.len() && (#[trigger] self.nodes@[k]).name@ == label@;
                    if k != i {
                        if k < i {
                            assert(self.nodes@[k].name@ != label@);
                        } else {
                            assert(self.nodes@[i as int].name@ != self.nodes@[k].name@);
                        }
                    }
                }
                return Some(&self.nodes[i]);
            }
            i = i + 1;
        }
        None
    }

    /// Reads a network, one node such as `AAA = (BBB, CCC)` per line.
    pub fn from(s: &str) -> (r: Option<Network>)
        ensures
            r is Some <==> forall|i: int|
                0 <= i < split_on(s@, seq!['\n']).len() ==> (#[trigger] split_on(s@, seq!['\n'])[i]).len() >= 15,
            r matches Some(net) ==> net.wf() && forall|i: int|
                0 <= i < split_on(s@, seq!['\n']).len() ==> has_label(
                    net.nodes@,
                    label_of(#[trigger] split_on(s@, seq!['\n'])[i], 0),
                ),
    {
        proof {
            reveal_strlit("\n");
        }
        assert("\n"@ =~= seq!['\n']);
        let lines = split_text(s, "\n");
        let ghost ls = lines@.map_values(|p: String| p@);
        let mut network = Network::new();
        let mut i: usize = 0;
        while i < lines.len()
            invariant
                ls == lines@.map_values(|p: String| p@),
                ls == split_on(s@, seq!['\n']),
                network.wf(),
                i <= lines@.len(),
                forall|k: int| 0 <= k < i ==> (#[trigger] ls[k]).len() >= 15,
                forall|k: int| 0 <= k < i ==> has_label(network.nodes@, label_of(#[trigger] ls[k], 0)),
            decreases lines.len() - i,
        {
            let node = match Node::from(lines[i].as_str()) {
                Some(n) => n,
                None => {
                    assert(ls[i as int].len() < 15);
                    return None;
                },
            };
            let ghost before = network.nodes@;
            let ghost name = node.name@;
            network.insert(node);
            proof {
                assert forall|k: int| 0 <= k < i + 1 implies has_label(
                    network.nodes@,
                    label_of(#[trigger] ls[k], 0),
                ) by {
                    if k < i {
                        let j = choose|j: int|
                            0 <= j < before.len() && (#[trigger] before[j]).name@ == label_of(ls[k], 0);
                        if exists|m: int| 0 <= m < before.len() && (#[trigger] before[m]).name@ == name {
                            let m = choose|m: int|
                                0 <= m < before.len() && (#[trigger] before[m]).name@ == name
                                    && network.nodes@ == before.update(m, network.nodes@[m]);
                            if j == m {
                                assert(network.nodes@[m].name@ == name);
                            } else {
                                assert(network.nodes@[j] == before[j]);
                            }
                            assert(network.nodes@[j].name@ == label_of(ls[k], 0));
                        } else {
                            assert(network.nodes@[j] == before[j]);
                        }
                    } else {
                        if exists|m: int| 0 <= m < before.len() && (#[trigger] before[m]).name@ == name {
                            let m = choose|m: int|
                                0 <= m < before.len() && (#[trigger] before[m]).name@ == name
                                    && network.nodes@ == before.update(m, network.nodes@[m]);
                            assert(network.nodes@[m].name@ == label_of(ls[k], 0));
                        } else {
                            assert(network.nodes@[before.len() as int].name@ == label_of(ls[k], 0));
                        }
                    }
                }
            }
            i = i + 1;
        }
        Some(network)
    }

    /// The number of instructions, taken in turn and repeated, that lead from `AAA` to
    /// `ZZZ`; `None` where the walk breaks off, or has not arrived after as many steps
    /// as there are nodes times instructions.
    pub fn steps(&self, instructions: &str) -> (r: Option<usize>)
        requires
            self.wf(),
        ensures
            match r {
                Some(k) => arrives_after(self.nodes@, instructions@, k as nat),
                None => forall|k: nat|
                    k <= step_cap(self.nodes@.len() as int, instructions@.len() as int) ==> !#[trigger] arrives_after(self.nodes@, instructions@, k),
            },
    {
        let ins = chars_of(instructions);
        let ghost nodes = self.nodes@;
        let limit: usize = match self.nodes.len().checked_mul(ins.len()) {
            Some(m) => m,
            None => usize::MAX,
        };
        let aaa = string_of(&vec!['A', 'A', 'A']);
        let zzz = string_of(&vec!['Z', 'Z', 'Z']);
        assert(aaa@ =~= seq!['A', 'A', 'A']);
        assert(zzz@ =~= seq!['Z', 'Z', 'Z']);
        let mut current = match self.get_node_by_label(&aaa) {
            Some(n) => n,
            None => {
                proof {
                    assert forall|k: nat| k <= step_cap(nodes.len() as int, ins@.len() as int) implies !#[trigger] arrives_after(nodes, instructions@, k) by {
                        if k > 0 {
                            assert(!on_the_way(nodes, instructions@, 0));
                        }
                    }
                }
                return None;
            },
        };
        let mut steps: usize = 0;
        while !same_text(&current.name, &zzz)
            invariant
                self.wf(),
                nodes == self.nodes@,
                ins@ == instructions@,
                zzz@ == seq!['Z', 'Z', 'Z'],
                limit as int == step_cap(nodes.len() as int, ins@.len() as int),
                walk_position(nodes, ins@, steps as nat) == Some(*current),
                forall|j: nat| j < steps ==> #[trigger] on_the_way(nodes, ins@, j),
            decreases usize::MAX - steps,
        {
            assert(on_the_way(nodes, ins@, steps as nat));
            if steps >= limit || ins.len() == 0 {
                proof {
                    assert forall|k: nat| k <= step_cap(nodes.len() as int, ins@.len() as int) implies !#[trigger] arrives_after(nodes, instructions@, k) by {
                        if arrives_after(nodes, ins@, k) {
                            if k < steps {
                                assert(on_the_way(nodes, ins@, k));
                            } else if k > steps {
                                assert(on_the_way(nodes, ins@, steps as nat));
                            }
                        }
                    }
                }
                return None;
            }
            let d = ins[steps % ins.len()];
            let label = match current.get_label_by_direction(d) {
                Some(l) => l,
                None => {
                    proof {
                        lemma_walk_stops(nodes, ins@, steps as nat);
                    }
                    return None;
                },
            };
            match self.get_node_by_label(&label) {
                Some(n) => current = n,
                None => {
                    proof {
                        lemma_walk_stops(nodes, ins@, steps as nat);
                    }
                    return None;
                },
            }
            steps = steps + 1;
        }
        Some(steps)
    }
}

/// A walk that cannot take step `s + 1` never arrives after more than `s` steps.
proof fn lemma_walk_stops(nodes: Seq<Node>, ins: Seq<char>, s: nat)
    requires
        walk_position(nodes, ins, s + 1) is None,
        forall|j: nat| j <= s ==> #[trigger] on_the_way(nodes, ins, j),
    ensures
        forall|k: nat| !#[trigger] arrives_after(nodes, ins, k),
{
    assert forall|k: nat| !#[trigger] arrives_after(nodes, ins, k) by {
        if arrives_after(nodes, ins, k) {
            if k <= s {
                assert(on_the_way(nodes, ins, k));
            } else if k > s + 1 {
                assert(on_the_way(nodes, ins, s + 1));
            }
        }
    }
}

/// The node lines of a puzzle: what follows its first line, trimmed, cut at line feeds.
pub open spec fn node_lines(s: Seq<char>) -> Seq<Seq<char>> {
    split_on(trimmed(cut_at(s, seq!['\n'])->Some_0.1), seq!['\n'])
}

/// The instructions (the first line) and the network (the rest, trimmed) of a puzzle.
pub fn parse_input(s: &str) -> (r: Option<(String, Network)>)
    ensures
        r is Some <==> cut_at(s@, seq!['\n']) is Some && forall|i: int|
            0 <= i < node_lines(s@).len() ==> (#[trigger] node_lines(s@)[i]).len() >= 15,
        r matches Some((ins, net)) ==> {
            &&& ins@ == cut_at(s@, seq!['\n'])->Some_0.0
            &&& net.wf()
            &&& forall|i: int|
                0 <= i < node_lines(s@).len() ==> has_label(
                    net.nodes@,
                    label_of(#[trigger] node_lines(s@)[i], 0),
                )
        },
{
    proof {
        reveal_strlit("\n");
    }
    assert("\n"@ =~= seq!['\n']);
    let (instructions, rest) = match cut_once(s, "\n") {
        Some(parts) => parts,
        None => {
            return None;
        },
    };
    let body = string_of(&trim(&chars_of(rest.as_str())));
    match Network::from(body.as_str()) {
        Some(network) => Some((instructions, network)),
        None => None,
    }
}

/// The labels of a node, as plain text.
pub open spec fn node_view(n: Node) -> (Seq<char>, Seq<char>, Seq<char>) {
    (n.name@, n.left@, n.right@)
}

pub open spec fn views(ns: Seq<Node>) -> Seq<(Seq<char>, Seq<char>, Seq<char>)> {
    ns.map_values(|n: Node| node_view(n))
}

/// Every node of `cur` moved along the instruction `d`; `None` where one cannot move.
pub open spec fn advance_all(nodes: Seq<Node>, cur: Seq<Node>, d: char) -> Option<Seq<Node>>
    decreases cur.len(),
{
    if cur.len() == 0 {
        Some(Seq::empty())
    } else {
        match (advance_all(nodes, cur.drop_last(), d), next_label(cur.last(), d)) {
            (Some(ns), Some(label)) => match lookup(nodes, label) {
                Some(n) => Some(ns.push(n)),
                None => None,
            },
            _ => None,
        }
    }
}

/// Where walks that start together at every start node stand after `k` instructions.
pub open spec fn ghost_position(net: Network, ins: Seq<char>, k: nat) -> Option<Seq<Node>>
    decreases k,
{
    if k == 0 {
        Some(net.nodes_start@)
    } else if ins.len() == 0 {
        None
    } else {
        match ghost_position(net, ins, (k - 1) as nat) {
            Some(cur) => advance_all(net.nodes@, cur, ins[(k - 1) % (ins.len() as int)]),
            None => None,
        }
    }
}

/// After `k` instructions the walks stand, in order, on the end nodes; not before.
pub open spec fn ghosts_arrive_after(net: Network, ins: Seq<char>, k: nat) -> bool {
    &&& ghost_position(net, ins, k) matches Some(cur) && views(cur) == views(net.nodes_end@)
    &&& forall|j: nat| j < k ==> #[trigger] ghosts_on_the_way(net, ins, j)
}

pub open spec fn ghosts_on_the_way(net: Network, ins: Seq<char>, j: nat) -> bool {
    ghost_position(net, ins, j) matches Some(cur) && views(cur) != views(net.nodes_end@)
}

/// Whether two node lists hold the same labels in the same order.
fn same_nodes(a: &Vec<Node>, b: &Vec<Node>) -> (r: bool)
    ensures
        r == (views(a@) == views(b@)),
{
    if a.len() != b.len() {
        return false;
    }
    let mut i: usize = 0;
    while i < a.len()
        invariant
            a@.len() == b@.len(),
            i <= a@.len(),
            forall|j: int| 0 <= j < i ==> node_view(#[trigger] a@[j]) == node_view(b@[j]),
        decreases a.len() - i,
    {
        if !(same_text(&a[i].name, &b[i].name) && same_text(&a[i].left, &b[i].left) && same_text(
            &a[i].right,
            &b[i].right,
        )) {
            assert(views(a@)[i as int] != views(b@)[i as int]);
            return false;
        }
        i = i + 1;
    }
    assert(views(a@) =~= views(b@));
    true
}

proof fn lemma_advance_all_prefix(nodes: Seq<Node>, cur: Seq<Node>, d: char, i: int)
    requires
        0 <= i <= cur.len(),
        advance_all(nodes, cur.subrange(0, i), d) is None,
    ensures
        advance_all(nodes, cur, d) is None,
    decreases cur.len() - i,
{
    if i < cur.len() {
        assert(cur.subrange(0, i + 1).drop_last() =~= cur.subrange(0, i));
        lemma_advance_all_prefix(nodes, cur, d, i + 1);
    } else {
        assert(cur.subrange(0, i) =~= cur);
    }
}

impl Network {
    /// Moves every node of `cur` along the instruction `d`.
    pub fn advance_all(&self, cur: &Vec<Node>, d: char) -> (r: Option<Vec<Node>>)
        requires
            self.wf(),
        ensures
            match r {
                Some(next) => advance_all(self.nodes@, cur@, d) == Some(next@),
                None => advance_all(self.nodes@, cur@, d) is None,
            },
    {
        let mut next: Vec<Node> = Vec::new();
        let mut i: usize = 0;
        assert(cur@.subrange(0, 0) =~= Seq::<Node>::empty());
        while i < cur.len()
            invariant
                self.wf(),
                i <= cur@.len(),
                advance_all(self.nodes@, cur@.subrange(0, i as int), d) == Some(next@),
            decreases cur.len() - i,
        {
            assert(cur@.subrange(0, i + 1).drop_last() =~= cur@.subrange(0, i as int));
            let label = match cur[i].get_label_by_direction(d) {
                Some(l) => l,
                None => {
                    proof {
                        lemma_advance_all_prefix(self.nodes@, cur@, d, i + 1);
                    }
                    return None;
                },
            };
            match self.get_node_by_label(&label) {
                Some(n) => next.push(n.duplicate()),
                None => {
                    proof {
                        lemma_advance_all_prefix(self.nodes@, cur@, d, i + 1);
                    }
                    return None;
                },
            }
            i = i + 1;
        }
        assert(cur@.subrange(0, cur@.len() as int) =~= cur@);
        Some(next)
    }

    /// The number of instructions, taken in turn and repeated, after which walks that
    /// start together at every start node stand, in order, on the end nodes; `None`
    /// where a walk breaks off or they have not arrived after `max_steps`.
    pub fn ghost_steps(&self, instructions: &str, max_steps: usize) -> (r: Option<usize>)
        requires
            self.wf(),
        ensures
            match r {
                Some(k) => ghosts_arrive_after(*self, instructions@, k as nat),
                None => forall|k: nat| k <= max_steps ==> !#[trigger] ghosts_arrive_after(*self, instructions@, k),
            },
    {
        let ins = chars_of(instructions);
        let mut current: Vec<Node> = Vec::new();
        let mut i: usize = 0;
        while i < self.nodes_start.len()
            invariant
                i <= self.nodes_start@.len(),
                current@ == self.nodes_start@.subrange(0, i as int),
            decreases self.nodes_start.len() - i,
        {
            current.push(self.nodes_start[i].duplicate());
            i = i + 1;
            assert(current@ =~= self.nodes_start@.subrange(0, i as int));
        }
        assert(current@ =~= self.nodes_start@);
        let mut steps: usize = 0;
        while !same_nodes(&current, &self.nodes_end)
            invariant
                self.wf(),
                ins@ == instructions@,
                ghost_position(*self, ins@, steps as nat) == Some(current@),
                forall|j: nat| j < steps ==> #[trigger] ghosts_on_the_way(*self, ins@, j),
            decreases usize::MAX - steps,
        {
            assert(ghosts_on_the_way(*self, ins@, steps as nat));
            if steps >= max_steps || ins.len() == 0 {
                proof {
                    assert forall|k: nat| k <= max_steps implies !#[trigger] ghosts_arrive_after(*self, instructions@, k) by {
                        if ghosts_arrive_after(*self, ins@, k) {
                            if k < steps {
                                assert(ghosts_on_the_way(*self, ins@, k));
                            } else if k > steps {
                                assert(ghosts_on_the_way(*self, ins@, steps as nat));
                            }
                        }
                    }
                }
                return None;
            }
            let d = ins[steps % ins.len()];
            match self.advance_all(&current, d) {
                Some(next) => current = next,
                None => {
                    proof {
                        assert(ghost_position(*self, ins@, (steps + 1) as nat) is None);
                        assert forall|k: nat| !#[trigger] ghosts_arrive_after(*self, ins@, k) by {
                            if ghosts_arrive_after(*self, ins@, k) {
                                if k <= steps {
                                    assert(ghosts_on_the_way(*self, ins@, k));
                                } else if k > steps + 1 {
                                    assert(ghosts_on_the_way(*self, ins@, (steps + 1) as nat));
                                }
                            }
                        }
                    }
                    return None;
                },
            }
            steps = steps + 1;
        }
        Some(steps)
    }
}

} // verus!
