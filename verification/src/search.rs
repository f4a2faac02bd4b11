//! One A* search over the grid, and the open list that it draws from.

use crate::distance::Distance;
use crate::grid::{
    lemma_step_is_octile, octile, slot_cost, step_cost, with_tile, Grid, Measure, Point, Tile,
    TileView,
};
use vstd::multiset::Multiset;
use vstd::prelude::*;

verus! {

/// A tile waiting to be expanded: where it is, the cost `g` of reaching it,
/// and `f`, that cost plus the estimate of what is left.
#[derive(Clone, Copy, Debug)]
pub struct Node {
    pub point: Point,
    pub f: Distance,
    pub g: Distance,
}

impl Node {
    /// Whether `self` leaves the open list no later than `other`: its `f` is
    /// smaller; or the two are equal and its `g` is smaller; or these are
    /// equal too and its point comes no later, row by row. No two different
    /// nodes go before each other.
    pub open spec fn goes_before(self, other: Node) -> bool {
        if !other.f.spec_le(&self.f) {
            true
        } else if !self.f.spec_le(&other.f) {
            false
        } else if !other.g.spec_le(&self.g) {
            true
        } else if !self.g.spec_le(&other.g) {
            false
        } else {
            self.point.y < other.point.y || (self.point.y == other.point.y && self.point.x
                <= other.point.x)
        }
    }

    pub fn point(&self) -> (p: &Point)
        ensures
            *p == self.point,
    {
        &self.point
    }

    /// Decides `goes_before`.
    pub fn comes_before(&self, other: &Node) -> (r: bool)
        ensures
            r == self.goes_before(*other),
    {
        if !other.f.le(&self.f) {
            true
        } else if !self.f.le(&other.f) {
            false
        } else if !other.g.le(&self.g) {
            true
        } else if !self.g.le(&other.g) {
            false
        } else {
            self.point.y < other.point.y || (self.point.y == other.point.y && self.point.x
                <= other.point.x)
        }
    }

    /// Of two nodes one goes before the other.
    pub proof fn lemma_goes_before_total(a: Node, b: Node)
        ensures
            a.goes_before(b) || b.goes_before(a),
    {
        Distance::lemma_le_total(a.f, b.f);
        Distance::lemma_le_total(a.g, b.g);
    }

    /// Nodes that go before each other are one node.
    pub proof fn lemma_goes_before_antisymmetric(a: Node, b: Node)
        requires
            a.goes_before(b),
            b.goes_before(a),
        ensures
            a == b,
    {
        Distance::lemma_le_total(a.f, b.f);
        Distance::lemma_le_total(a.g, b.g);
        Distance::lemma_le_antisymmetric(a.f, b.f);
        Distance::lemma_le_antisymmetric(a.g, b.g);
    }

    /// `goes_before` is transitive.
    pub proof fn lemma_goes_before_transitive(a: Node, b: Node, c: Node)
        requires
            a.goes_before(b),
            b.goes_before(c),
        ensures
            a.goes_before(c),
    {
        lemma_three_lengths(a.f, b.f, c.f);
        lemma_three_lengths(a.g, b.g, c.g);
    }
}

/// What the order of lengths says of three of them.
proof fn lemma_three_lengths(a: Distance, b: Distance, c: Distance)
    ensures
        a.spec_le(&b) || b.spec_le(&a),
        b.spec_le(&c) || c.spec_le(&b),
        a.spec_le(&c) || c.spec_le(&a),
        a.spec_le(&b) && b.spec_le(&c) ==> a.spec_le(&c),
        c.spec_le(&b) && b.spec_le(&a) ==> c.spec_le(&a),
        b.spec_le(&a) && a.spec_le(&c) ==> b.spec_le(&c),
        c.spec_le(&a) && a.spec_le(&b) ==> c.spec_le(&b),
        a.spec_le(&c) && c.spec_le(&b) ==> a.spec_le(&b),
        b.spec_le(&c) && c.spec_le(&a) ==> b.spec_le(&a),
{
    Distance::lemma_le_total(a, b);
    Distance::lemma_le_total(b, c);
    Distance::lemma_le_total(a, c);
    if a.spec_le(&b) && b.spec_le(&c) {
        Distance::lemma_le_transitive(a, b, c);
    }
    if c.spec_le(&b) && b.spec_le(&a) {
        Distance::lemma_le_transitive(c, b, a);
    }
    if b.spec_le(&a) && a.spec_le(&c) {
        Distance::lemma_le_transitive(b, a, c);
    }
    if c.spec_le(&a) && a.spec_le(&b) {
        Distance::lemma_le_transitive(c, a, b);
    }
    if a.spec_le(&c) && c.spec_le(&b) {
        Distance::lemma_le_transitive(a, c, b);
    }
    if b.spec_le(&c) && c.spec_le(&a) {
        Distance::lemma_le_transitive(b, c, a);
    }
}

/// Whether `node` is held in `open` and goes before all that is held there.
pub open spec fn is_least(open: Multiset<Node>, node: Node) -> bool {
    &&& open.contains(node)
    &&& forall|other: Node| #[trigger] open.contains(other) ==> node.goes_before(other)
}

/// The node of `open` that goes before all others.
pub open spec fn least(open: Multiset<Node>) -> Node {
    choose|node: Node| is_least(open, node)
}

/// There is one least node at most.
pub proof fn lemma_least_unique(open: Multiset<Node>, node: Node)
    requires
        is_least(open, node),
    ensures
        least(open) == node,
{
    let chosen = least(open);
    assert(is_least(open, chosen));
    Node::lemma_goes_before_antisymmetric(chosen, node);
}

/// Whether every node but the first goes no earlier than the one at half its
/// index: the order of a binary heap.
pub open spec fn heap_ordered(s: Seq<Node>) -> bool {
    forall|k: int| 0 < k < s.len() ==> (#[trigger] s[(k - 1) / 2]).goes_before(s[k])
}

/// The heap order, but for the node at `i`, which may have to rise.
spec fn ordered_above(s: Seq<Node>, i: int) -> bool {
    &&& forall|k: int| 0 < k < s.len() && k != i ==> (#[trigger] s[(k - 1) / 2]).goes_before(s[k])
    &&& forall|k: int|
        0 < k < s.len() && (k - 1) / 2 == i && i > 0 ==> s[(i - 1) / 2].goes_before(
            #[trigger] s[k],
        )
}

/// The heap order, but for the node at `i`, which may have to sink.
spec fn ordered_below(s: Seq<Node>, i: int) -> bool {
    &&& forall|k: int|
        0 < k < s.len() && (k - 1) / 2 != i ==> (#[trigger] s[(k - 1) / 2]).goes_before(s[k])
    &&& forall|k: int|
        0 < k < s.len() && (k - 1) / 2 == i && i > 0 ==> s[(i - 1) / 2].goes_before(
            #[trigger] s[k],
        )
}

/// In a heap the first node goes before every other.
proof fn lemma_first_goes_before(s: Seq<Node>, k: int)
    requires
        heap_ordered(s),
        0 <= k < s.len(),
    ensures
        s[0].goes_before(s[k]),
    decreases k,
{
    if k == 0 {
        Distance::lemma_le_total(s[0].f, s[0].f);
        Distance::lemma_le_total(s[0].g, s[0].g);
    } else {
        lemma_first_goes_before(s, (k - 1) / 2);
        assert(s[(k - 1) / 2].goes_before(s[k]));
        Node::lemma_goes_before_transitive(s[0], s[(k - 1) / 2], s[k]);
    }
}

/// Swaps the nodes at `i` and `j`.
fn swap_nodes(nodes: &mut Vec<Node>, i: usize, j: usize)
    requires
        i < old(nodes)@.len(),
        j < old(nodes)@.len(),
        i != j,
    ensures
        final(nodes)@ == old(nodes)@.update(i as int, old(nodes)@[j as int]).update(
            j as int,
            old(nodes)@[i as int],
        ),
        final(nodes)@.to_multiset() == old(nodes)@.to_multiset(),
{
    let a = nodes[i];
    let b = nodes[j];
    nodes[i] = b;
    nodes[j] = a;
    proof {
        broadcast use vstd::seq_lib::group_to_multiset_ensures;

        let s0 = old(nodes)@;
        let s1 = s0.update(i as int, b);
        assert(nodes@ == s1.update(j as int, a));
        vstd::seq_lib::to_multiset_update(s0, i as int, b);
        vstd::seq_lib::to_multiset_update(s1, j as int, a);
        assert(s0.contains(a) && s0.contains(b));
        assert(s1[j as int] == b);
        assert(nodes@.to_multiset() =~= s0.to_multiset());
    }
}

/// The tiles that a search has reached and not yet expanded, kept as a binary
/// heap so that the node that goes before all others is at hand.
#[derive(Debug)]
pub struct OpenList {
    nodes: Vec<Node>,
}

impl View for OpenList {
    type V = Multiset<Node>;

    closed spec fn view(&self) -> Multiset<Node> {
        self.nodes@.to_multiset()
    }
}

impl OpenList {
    /// Whether the nodes are in heap order.
    pub closed spec fn wf(&self) -> bool {
        heap_ordered(self.nodes@)
    }

    pub fn new() -> (open: OpenList)
        ensures
            open.wf(),
            open@ == Multiset::<Node>::empty(),
    {
        let open = OpenList { nodes: Vec::new() };
        proof {
            broadcast use vstd::seq_lib::group_to_multiset_ensures;

            assert(open.nodes@.to_multiset() =~= Multiset::<Node>::empty());
        }
        open
    }

    /// The number of nodes held.
    pub fn len(&self) -> (n: usize)
        ensures
            n == self@.len(),
    {
        proof {
            broadcast use vstd::seq_lib::group_to_multiset_ensures;

        }
        self.nodes.len()
    }

    /// Adds a node.
    pub fn push(&mut self, node: Node)
        requires
            old(self).wf(),
        ensures
            final(self).wf(),
            final(self)@ == old(self)@.insert(node),
    {
        self.nodes.push(node);
        proof {
            broadcast use vstd::seq_lib::group_to_multiset_ensures;

            assert(self.nodes@ == old(self).nodes@.push(node));
        }
        let mut i: usize = self.nodes.len() - 1;
        while i > 0
            invariant
                i < self.nodes@.len(),
                ordered_above(self.nodes@, i as int),
                self.nodes@.to_multiset() == old(self)@.insert(node),
            ensures
                heap_ordered(self.nodes@),
                self.nodes@.to_multiset() == old(self)@.insert(node),
            decreases i,
        {
            let parent: usize = (i - 1) / 2;
            if self.nodes[parent].comes_before(&self.nodes[i]) {
                break ;
            }
            let ghost s = self.nodes@;
            proof {
                Node::lemma_goes_before_total(s[parent as int], s[i as int]);
            }
            swap_nodes(&mut self.nodes, i, parent);
            proof {
                let t = self.nodes@;
                assert forall|k: int| 0 < k < t.len() && k != parent implies (#[trigger] t[(k - 1)
                    / 2]).goes_before(t[k]) by {
                    if k == i {
                    } else if (k - 1) / 2 == i as int {
                        assert(s[(i - 1) / 2].goes_before(s[k]));
                    } else if (k - 1) / 2 == parent as int {
                        assert(s[(k - 1) / 2].goes_before(s[k]));
                        Node::lemma_goes_before_transitive(s[i as int], s[parent as int], s[k]);
                    } else {
                        assert(s[(k - 1) / 2].goes_before(s[k]));
                    }
                }
                assert forall|k: int|
                    0 < k < t.len() && (k - 1) / 2 == parent && parent > 0 implies t[(parent - 1)
                    / 2].goes_before(#[trigger] t[k]) by {
                    assert(s[(parent - 1) / 2].goes_before(s[parent as int]));
                    if k != i {
                        assert(s[(k - 1) / 2].goes_before(s[k]));
                        Node::lemma_goes_before_transitive(
                            s[(parent - 1) / 2],
                            s[parent as int],
                            s[k],
                        );
                    }
                }
            }
            i = parent;
        }
    }

    /// Takes out the node that goes before every other one held, if any is
    /// held.
    pub fn pop(&mut self) -> (first: Option<Node>)
        requires
            old(self).wf(),
        ensures
            final(self).wf(),
            match first {
                Some(node) => {
                    &&& is_least(old(self)@, node)
                    &&& node == least(old(self)@)
                    &&& final(self)@ == old(self)@.remove(node)
                },
                None => old(self)@.len() == 0 && final(self)@ == old(self)@,
            },
    {
        proof {
            broadcast use vstd::seq_lib::group_to_multiset_ensures;

        }
        let ghost s = self.nodes@;
        if self.nodes.len() == 0 {
            return None;
        }
        let first = self.nodes[0];
        proof {
            assert forall|other: Node| #[trigger] s.to_multiset().contains(other) implies first.goes_before(
                other,
            ) by {
                assert(s.contains(other));
                let k = choose|k: int| 0 <= k < s.len() && s[k] == other;
                lemma_first_goes_before(s, k);
            }
            assert(s.contains(first));
            lemma_least_unique(s.to_multiset(), first);
        }
        let last = self.nodes.pop().unwrap();
        if self.nodes.len() == 0 {
            proof {
                assert(self.nodes@ =~= s.remove(0));
            }
            return Some(first);
        }
        self.nodes[0] = last;
        proof {
            broadcast use vstd::seq_lib::to_multiset_update;

            let dropped = s.drop_last();
            assert(s == dropped.push(last));
            assert(self.nodes@ == dropped.update(0, last));
            assert(self.nodes@.to_multiset() =~= s.to_multiset().remove(first));
            assert(ordered_below(self.nodes@, 0)) by {
                assert forall|k: int|
                    0 < k < self.nodes@.len() && (k - 1) / 2 != 0 implies (#[trigger] self.nodes@[(
                k - 1) / 2]).goes_before(self.nodes@[k]) by {
                    assert(s[(k - 1) / 2].goes_before(s[k]));
                }
            }
        }
        let len = self.nodes.len();
        let mut i: usize = 0;
        while i < len / 2
            invariant
                len == self.nodes@.len(),
                ordered_below(self.nodes@, i as int),
                self.nodes@.to_multiset() == s.to_multiset().remove(first),
            ensures
                heap_ordered(self.nodes@),
                self.nodes@.to_multiset() == s.to_multiset().remove(first),
            decreases len - i,
        {
            let left: usize = 2 * i + 1;
            let ghost t = self.nodes@;
            let child: usize = if left + 1 < len && !self.nodes[left].comes_before(
                &self.nodes[left + 1],
            ) {
                left + 1
            } else {
                left
            };
            proof {
                if left + 1 < len {
                    Node::lemma_goes_before_total(t[left as int], t[left + 1]);
                }
            }
            if self.nodes[i].comes_before(&self.nodes[child]) {
                proof {
                    assert forall|k: int| 0 < k < t.len() implies (#[trigger] t[(k - 1)
                        / 2]).goes_before(t[k]) by {
                        if (k - 1) / 2 == i as int {
                            if k != child {
                                Node::lemma_goes_before_transitive(
                                    t[i as int],
                                    t[child as int],
                                    t[k],
                                );
                            }
                        }
                    }
                }
                break ;
            }
            proof {
                Node::lemma_goes_before_total(t[i as int], t[child as int]);
            }
            swap_nodes(&mut self.nodes, i, child);
            proof {
                let u = self.nodes@;
                assert forall|k: int|
                    0 < k < u.len() && (k - 1) / 2 != child implies (#[trigger] u[(k - 1)
                    / 2]).goes_before(u[k]) by {
                    if k == child as int {
                    } else if (k - 1) / 2 == i as int {
                    } else if k == i as int {
                        assert(t[(i - 1) / 2].goes_before(t[child as int]));
                    } else {
                        assert(t[(k - 1) / 2].goes_before(t[k]));
                    }
                }
                assert forall|k: int|
                    0 < k < u.len() && (k - 1) / 2 == child && child > 0 implies u[(child - 1)
                    / 2].goes_before(#[trigger] u[k]) by {
                    assert(t[(k - 1) / 2].goes_before(t[k]));
                }
            }
            i = child;
        }
        proof {
            if i >= len / 2 {
                assert forall|k: int| 0 < k < self.nodes@.len() implies (#[trigger] self.nodes@[(k
                    - 1) / 2]).goes_before(self.nodes@[k]) by {
                    assert((k - 1) / 2 != i as int);
                }
            }
        }
        Some(first)
    }
}

/// A path, listed from its last point back to its first step.
pub type Path = Vec<Point>;

/// What a search found: the path, and how many nodes it took from the open
/// list on the way.
pub struct Data {
    pub path: Path,
    pub expansions: usize,
}

/// Whether `passable` lets a path go over `tile`.
pub open spec fn admits<P: Fn(&Tile) -> bool>(passable: P, tile: Tile) -> bool {
    call_ensures(passable, (&tile,), true)
}

/// Whether `passable` answers for every tile, and always the same.
pub open spec fn decides<P: Fn(&Tile) -> bool>(passable: P) -> bool {
    &&& forall|tile: Tile| #[trigger] call_requires(passable, (&tile,))
    &&& forall|tile: Tile|
        !(call_ensures(passable, (&tile,), true) && #[trigger] call_ensures(
            passable,
            (&tile,),
            false,
        ))
}

/// The tiles that `passable` lets a path go over.
pub open spec fn admitting<P: Fn(&Tile) -> bool>(passable: P) -> spec_fn(Tile) -> bool {
    |tile: Tile| admits(passable, tile)
}

/// Whether `passable` answers for every tile, and with what `ok` says.
pub open spec fn answers<P: Fn(&Tile) -> bool>(passable: P, ok: spec_fn(Tile) -> bool) -> bool {
    &&& forall|tile: Tile| #[trigger] call_requires(passable, (&tile,))
    &&& forall|tile: Tile, answer: bool| #[trigger]
        call_ensures(passable, (&tile,), answer) ==> answer == ok(tile)
}

/// Whether `heuristic` gives, for every tile of `grid`, an estimate of the way
/// to `target` that is at most half of what a length can hold.
pub open spec fn estimates<H: Fn(&Point, &Point) -> Distance>(
    heuristic: H,
    grid: &Grid,
    target: Point,
) -> bool {
    &&& forall|p: Point| #[trigger] grid.contains(p) ==> call_requires(heuristic, (&p, &target))
    &&& forall|p: Point, d: Distance|
        grid.contains(p) && #[trigger] call_ensures(heuristic, (&p, &target), d) ==> d.straight
            <= u64::MAX / 2 && d.diagonal <= u64::MAX / 2 && d == estimate_of(heuristic, target)(p)
}

/// The estimates that `heuristic` gives of the way to `target`.
pub open spec fn estimate_of<H: Fn(&Point, &Point) -> Distance>(
    heuristic: H,
    target: Point,
) -> spec_fn(Point) -> Distance {
    |p: Point| choose|d: Distance| call_ensures(heuristic, (&p, &target), d)
}

/// The points that a path may go over: the tiles of `grid` that `ok` admits.
pub open spec fn free_of(grid: &Grid, ok: spec_fn(Tile) -> bool) -> spec_fn(Point) -> bool {
    |p: Point| grid.contains(p) && ok(grid.at(p))
}

/// What a search leaves on a tile that it reaches: the tile it came from,
/// the cost `g` of the way there, and the estimate `h` of the way left.
pub struct Mark {
    pub parent: Option<Point>,
    pub g: Distance,
    pub h: Distance,
}

/// How far a search has come: the marks left, the nodes waiting in the open
/// list, and the number of nodes taken from it.
pub struct Progress {
    pub marks: Map<Point, Mark>,
    pub open: Multiset<Node>,
    pub expansions: nat,
}

/// A search at its start: the source is marked and waits alone.
pub open spec fn begun(source: Point, target: Point) -> Progress {
    let h = octile(source, target);
    let g = Distance { straight: 0, diagonal: 0 };
    Progress {
        marks: Map::empty().insert(source, Mark { parent: None, g, h }),
        open: Multiset::empty().insert(Node { point: source, f: h.spec_plus(&g), g }),
        expansions: 0,
    }
}

/// The search once it has tried the neighbour of `from` in `slot`: where that
/// is a free point without a mark, it is marked as reached from `from` and
/// waits.
pub open spec fn relaxed(
    free: spec_fn(Point) -> bool,
    estimate: spec_fn(Point) -> Distance,
    progress: Progress,
    from: Point,
    slot: int,
) -> Progress {
    match from.neighbor(slot) {
        Some(to) => if free(to) && !progress.marks.dom().contains(to) {
            let g = progress.marks[from].g.spec_plus(&slot_cost(slot));
            let h = estimate(to);
            Progress {
                marks: progress.marks.insert(to, Mark { parent: Some(from), g, h }),
                open: progress.open.insert(Node { point: to, f: h.spec_plus(&g), g }),
                expansions: progress.expansions,
            }
        } else {
            progress
        },
        None => progress,
    }
}

/// The search once it has tried the neighbours of `from` in the slots below
/// `slots`, in their order.
pub open spec fn expanded(
    free: spec_fn(Point) -> bool,
    estimate: spec_fn(Point) -> Distance,
    progress: Progress,
    from: Point,
    slots: int,
) -> Progress
    decreases slots,
{
    if slots <= 0 {
        progress
    } else {
        relaxed(free, estimate, expanded(free, estimate, progress, from, slots - 1), from, slots - 1)
    }
}

/// The search run to its end, in at most `rounds` rounds, and whether it
/// found the target. A round takes the least node from the open list; the
/// target ends the search, any other node is expanded.
pub open spec fn finished(
    free: spec_fn(Point) -> bool,
    estimate: spec_fn(Point) -> Distance,
    target: Point,
    progress: Progress,
    rounds: nat,
) -> (Progress, bool)
    decreases rounds,
{
    if progress.open.len() == 0 || rounds == 0 {
        (progress, false)
    } else {
        let node = least(progress.open);
        let taken = Progress {
            open: progress.open.remove(node),
            expansions: progress.expansions + 1,
            ..progress
        };
        if node.point == target {
            (taken, true)
        } else {
            finished(
                free,
                estimate,
                target,
                expanded(free, estimate, taken, node.point, 8),
                (rounds - 1) as nat,
            )
        }
    }
}

/// The marks that the last search left on `grid`.
pub open spec fn marks_of(grid: &Grid) -> Map<Point, Mark> {
    Map::new(
        |p: Point| grid.contains(p) && grid.marked(p),
        |p: Point| Mark { parent: grid.at(p)@.parent, g: grid.at(p)@.g, h: grid.at(p)@.h },
    )
}

/// The way from the point without a parent to `end` that the marks describe,
/// listed from `end` back.
pub open spec fn route_from(marks: Map<Point, Mark>, end: Point) -> Seq<Point>
    decreases
        if marks.dom().contains(end) {
            marks[end].g.steps()
        } else {
            0
        },
{
    if marks.dom().contains(end) {
        match marks[end].parent {
            Some(before) => if marks.dom().contains(before) && marks[before].g.steps()
                < marks[end].g.steps() {
                seq![end] + route_from(marks, before)
            } else {
                Seq::empty()
            },
            None => Seq::empty(),
        }
    } else {
        Seq::empty()
    }
}

/// What a search from `source` for `target` finds in at most `rounds`
/// rounds: the way, listed from `target` back, and the number of nodes taken
/// from the open list; `None` where the open list runs out first.
pub open spec fn planned(
    free: spec_fn(Point) -> bool,
    estimate: spec_fn(Point) -> Distance,
    source: Point,
    target: Point,
    rounds: nat,
) -> Option<(Seq<Point>, nat)> {
    let end = finished(free, estimate, target, begun(source, target), rounds);
    if end.1 {
        Some((route_from(end.0.marks, target), end.0.expansions))
    } else {
        None
    }
}

/// Trying neighbours takes no node from the open list.
proof fn lemma_expanded_count(
    free: spec_fn(Point) -> bool,
    estimate: spec_fn(Point) -> Distance,
    progress: Progress,
    from: Point,
    slots: int,
)
    ensures
        expanded(free, estimate, progress, from, slots).expansions == progress.expansions,
    decreases slots,
{
    if slots > 0 {
        lemma_expanded_count(free, estimate, progress, from, slots - 1);
    }
}

/// A search takes a node from the open list in every round, and one at least
/// where it finds the target.
proof fn lemma_finished_count(
    free: spec_fn(Point) -> bool,
    estimate: spec_fn(Point) -> Distance,
    target: Point,
    progress: Progress,
    rounds: nat,
)
    ensures
        finished(free, estimate, target, progress, rounds).0.expansions <= progress.expansions
            + rounds,
        finished(free, estimate, target, progress, rounds).1 ==> finished(
            free,
            estimate,
            target,
            progress,
            rounds,
        ).0.expansions >= progress.expansions + 1,
    decreases rounds,
{
    if progress.open.len() != 0 && rounds != 0 {
        let node = least(progress.open);
        let taken = Progress {
            open: progress.open.remove(node),
            expansions: progress.expansions + 1,
            ..progress
        };
        if node.point != target {
            let next = expanded(free, estimate, taken, node.point, 8);
            lemma_expanded_count(free, estimate, taken, node.point, 8);
            lemma_finished_count(free, estimate, target, next, (rounds - 1) as nat);
        }
    }
}

/// A plan counts a node at least and no more nodes than there were rounds;
/// and a plan with a step starts away from the target and counts two nodes
/// at least, the source and the target.
pub proof fn lemma_planned_count(
    free: spec_fn(Point) -> bool,
    estimate: spec_fn(Point) -> Distance,
    source: Point,
    target: Point,
    rounds: nat,
)
    ensures
        planned(free, estimate, source, target, rounds) matches Some(plan) ==> {
            &&& 1 <= plan.1 <= rounds
            &&& plan.0.len() > 0 ==> source != target && plan.1 >= 2
        },
{
    let start = begun(source, target);
    lemma_finished_count(free, estimate, target, start, rounds);
    if rounds != 0 {
        let h = octile(source, target);
        let g = Distance { straight: 0, diagonal: 0 };
        let first = Node { point: source, f: h.spec_plus(&g), g };
        assert(is_least(start.open, first)) by {
            assert forall|other: Node| #[trigger] start.open.contains(other) implies first.goes_before(
                other,
            ) by {
                lemma_put_in(Multiset::empty(), first, other);
                Node::lemma_goes_before_total(first, first);
            }
            lemma_put_in(Multiset::empty(), first, first);
        }
        lemma_least_unique(start.open, first);
        lemma_put_in(Multiset::empty(), first, first);
        let taken = Progress {
            open: start.open.remove(first),
            expansions: start.expansions + 1,
            ..start
        };
        if source == target {
            assert(route_from(start.marks, target) =~= Seq::<Point>::empty());
        } else {
            let next = expanded(free, estimate, taken, source, 8);
            lemma_expanded_count(free, estimate, taken, source, 8);
            lemma_finished_count(free, estimate, target, next, (rounds - 1) as nat);
        }
    }
}

/// What following the parents gives is the way that the marks describe.
pub proof fn lemma_route_from_marks(grid: &Grid, source: Point, target: Point, route: Seq<Point>)
    requires
        search_tree(grid, source),
        follows_parents(grid, source, target, route),
        grid.contains(target),
        grid.marked(target),
    ensures
        route == route_from(marks_of(grid), target),
    decreases route.len(),
{
    let marks = marks_of(grid);
    assert(hangs(grid, source, target));
    if route.len() == 0 {
        assert(route =~= Seq::<Point>::empty());
    } else {
        assert(grid.contains(route[0]));
        let rest = route.subrange(1, route.len() as int);
        let next = if route.len() > 1 {
            route[1]
        } else {
            source
        };
        assert(grid.at(target)@.parent == Some(next)) by {
            if route.len() > 1 {
                assert(grid.at(route[0])@.parent == Some(route[1]));
            }
        }
        assert(hangs(grid, source, next)) by {
            assert(grid.contains(next) && grid.marked(next));
        }
        assert(follows_parents(grid, source, next, rest)) by {
            if rest.len() > 0 {
                assert(rest[0] == route[1]);
                assert(rest.last() == route.last());
            } else {
                assert(next == source);
            }
            assert forall|i: int| 0 <= i < rest.len() implies {
                &&& grid.contains(#[trigger] rest[i])
                &&& grid.marked(rest[i])
                &&& rest[i] != source
            } by {
                assert(rest[i] == route[i + 1]);
                assert(grid.contains(route[i + 1]));
            }
            assert forall|i: int, j: int| 0 <= i && j == i + 1 && j < rest.len() implies grid.at(
                #[trigger] rest[i],
            )@.parent == Some(#[trigger] rest[j]) by {
                assert(rest[i] == route[i + 1]);
                assert(rest[j] == route[j + 1]);
                assert(grid.at(route[i + 1])@.parent == Some(route[j + 1]));
            }
            if rest.len() == 0 {
                assert(route.len() == 1);
            }
        }
        lemma_route_from_marks(grid, source, next, rest);
        assert(route =~= seq![target] + rest);
        assert(octile(next, target).steps() == 1);
    }
}

/// Whether `route` leads from `source` to `target` one step at a time, over
/// tiles of `grid` that `ok` admits. The route is listed backwards: it
/// begins with `target` and ends with the first step after `source`, and is
/// empty where the two are one point.
pub open spec fn is_route(
    grid: &Grid,
    ok: spec_fn(Tile) -> bool,
    source: Point,
    target: Point,
    route: Seq<Point>,
) -> bool {
    &&& (route.len() == 0 <==> source == target)
    &&& route.len() > 0 ==> route[0] == target && source.adjacent(route.last())
    &&& forall|i: int|
        0 <= i < route.len() ==> grid.contains(#[trigger] route[i]) && ok(grid.at(route[i]))
    &&& forall|i: int, j: int|
        0 <= i && j == i + 1 && j < route.len() ==> (#[trigger] route[j]).adjacent(
            #[trigger] route[i],
        )
}

/// Whether some route leads from `source` to `target`.
pub open spec fn reachable(
    grid: &Grid,
    ok: spec_fn(Tile) -> bool,
    source: Point,
    target: Point,
) -> bool {
    exists|route: Seq<Point>| is_route(grid, ok, source, target, route)
}

/// Whether the marks of the last search form a tree rooted in `source`: the
/// one marked tile without a parent is `source`, and every other marked tile
/// has a marked parent one step away, whose `g` it exceeds by that step.
pub open spec fn search_tree(grid: &Grid, source: Point) -> bool {
    forall|p: Point| grid.contains(p) && grid.marked(p) ==> #[trigger] hangs(grid, source, p)
}

/// Whether the tile at `p` is the root `source`, without a parent and with a
/// `g` of zero, or has a marked parent one step away, whose `g` it exceeds by
/// that step.
pub open spec fn hangs(grid: &Grid, source: Point, p: Point) -> bool {
    match grid.at(p)@.parent {
        None => p == source && grid.at(p)@.g == (Distance { straight: 0, diagonal: 0 }),
        Some(q) => {
            &&& p != source
            &&& grid.contains(q)
            &&& grid.marked(q)
            &&& q.adjacent(p)
            &&& grid.at(q)@.g.fits_with(&octile(q, p))
            &&& grid.at(p)@.g == grid.at(q)@.g.spec_plus(&octile(q, p))
        },
    }
}

/// Whether `route` is what following the parents from `target` gives: each
/// point's parent is the next one, and the last point's parent is `source`.
pub open spec fn follows_parents(
    grid: &Grid,
    source: Point,
    target: Point,
    route: Seq<Point>,
) -> bool {
    &&& (route.len() == 0 <==> source == target)
    &&& route.len() > 0 ==> route[0] == target && grid.at(route.last())@.parent == Some(source)
    &&& forall|i: int|
        0 <= i < route.len() ==> {
            &&& grid.contains(#[trigger] route[i])
            &&& grid.marked(route[i])
            &&& route[i] != source
        }
    &&& forall|i: int, j: int|
        0 <= i && j == i + 1 && j < route.len() ==> grid.at(#[trigger] route[i])@.parent == Some(
            #[trigger] route[j],
        )
}

/// The node that stands in the open list for the marked tile at `p`.
pub open spec fn node_of(tile: Tile, p: Point) -> Node {
    Node { point: p, f: tile@.h.spec_plus(&tile@.g), g: tile@.g }
}

/// What holds of the grid throughout a search that began on `before`.
spec fn searching(
    before: &Grid,
    now: &Grid,
    ok: spec_fn(Tile) -> bool,
    source: Point,
) -> bool {
    &&& now.same_shape(before)
    &&& now.episode() == before.episode() + 1
    &&& now.area() == before.area()
    &&& now.contains(source)
    &&& now.marked(source)
    &&& search_tree(now, source)
    &&& forall|p: Point| #[trigger]
        now.contains(p) ==> if now.marked(p) {
            &&& now.at(p)@.terrain == before.at(p)@.terrain
            &&& now.at(p)@.belief == before.at(p)@.belief
            &&& p != source ==> ok(before.at(p))
            &&& now.at(p)@.g.steps() + now.unmarked() + 1 <= now.area()
        } else {
            now.at(p) == before.at(p)
        }
}

/// What holds of the open list throughout a search: it holds marked tiles
/// only, and every marked tile that has not been expanded, but for the one
/// being expanded.
spec fn frontier(now: &Grid, open: Multiset<Node>, expanded: Set<Point>, current: Option<Point>) -> bool {
    &&& forall|n: Node| #[trigger] open.contains(n) ==> now.contains(n.point) && now.marked(n.point)
    &&& forall|p: Point|
        now.contains(p) && #[trigger] now.marked(p) && !expanded.contains(p) && Some(p)
            != current ==> open.contains(node_of(now.at(p), p))
}

/// What holds of the expanded tiles: none is the target, and every admitted
/// tile one step from one of them is marked.
spec fn closed(
    before: &Grid,
    now: &Grid,
    ok: spec_fn(Tile) -> bool,
    expanded: Set<Point>,
    target: Point,
) -> bool {
    &&& forall|p: Point| #[trigger]
        expanded.contains(p) ==> now.contains(p) && now.marked(p) && p != target
    &&& forall|p: Point, q: Point|
        expanded.contains(p) && #[trigger] p.adjacent(q) && now.contains(q) && ok(before.at(q)) ==> now.marked(q)
}

/// Follows the parents from `end` back to the tile that has none.
fn extract_path(grid: &Grid, end: Point, Ghost(source): Ghost<Point>) -> (path: Path)
    requires
        search_tree(grid, source),
        grid.contains(end),
        grid.marked(end),
    ensures
        follows_parents(grid, source, end, path@),
{
    let mut path = Path::new();
    let mut point = end;
    loop
        invariant
            search_tree(grid, source),
            grid.contains(point),
            grid.marked(point),
            path@.len() == 0 ==> point == end,
            path@.len() > 0 ==> path@[0] == end && grid.at(path@.last())@.parent == Some(point),
            forall|i: int|
                0 <= i < path@.len() ==> {
                    &&& grid.contains(#[trigger] path@[i])
                    &&& grid.marked(path@[i])
                    &&& path@[i] != source
                },
            forall|i: int, j: int|
                0 <= i && j == i + 1 && j < path@.len() ==> grid.at(#[trigger] path@[i])@.parent
                    == Some(#[trigger] path@[j]),
        ensures
            follows_parents(grid, source, end, path@),
        decreases grid.at(point)@.g.steps(),
    {
        let tile = grid.index(&point);
        assert(hangs(grid, source, point));
        if let Some(previous) = tile.parent() {
            path.push(point);
            point = previous;
        } else {
            break ;
        }
    }
    path
}

/// What taking one node out of the open list does to the others: nothing.
proof fn lemma_taken_out(held: Multiset<Node>, taken: Node, other: Node)
    requires
        held.contains(taken),
    ensures
        held.remove(taken).contains(other) ==> held.contains(other),
        other != taken && held.contains(other) ==> held.remove(taken).contains(other),
        held.remove(taken).len() + 1 == held.len(),
{
    broadcast use vstd::multiset::group_multiset_properties;

}

/// What putting one node into the open list does to the others: nothing.
proof fn lemma_put_in(held: Multiset<Node>, put: Node, other: Node)
    ensures
        held.insert(put).contains(other) <==> other == put || held.contains(other),
        held.insert(put).len() == held.len() + 1,
{
    broadcast use vstd::multiset::group_multiset_properties;

}

/// The search still holds of the grid once it marks the neighbour of a marked
/// tile that it had not marked yet.
proof fn lemma_visit(
    before: &Grid,
    prev: &Grid,
    now: &Grid,
    ok: spec_fn(Tile) -> bool,
    source: Point,
    point: Point,
    slot: int,
    neighbor: Point,
)
    requires
        searching(before, prev, ok, source),
        prev.contains(point),
        prev.marked(point),
        point.neighbor(slot) == Some(neighbor),
        prev.contains(neighbor),
        !prev.marked(neighbor),
        ok(before.at(neighbor)),
        now.episode() == prev.episode(),
        now.rows() == with_tile(prev.rows(), neighbor, now.at(neighbor)),
        prev.at(point)@.g.fits_with(&slot_cost(slot)),
        now.at(neighbor)@.parent == Some(point),
        now.at(neighbor)@.g == prev.at(point)@.g.spec_plus(&slot_cost(slot)),
        now.at(neighbor)@.visited == now.episode(),
        now.at(neighbor)@.terrain == prev.at(neighbor)@.terrain,
        now.at(neighbor)@.belief == prev.at(neighbor)@.belief,
    ensures
        searching(before, now, ok, source),
        now.unmarked() + 1 == prev.unmarked(),
        forall|p: Point| #[trigger] prev.contains(p) && p != neighbor ==> now.at(p) == prev.at(p),
{
    Grid::lemma_marking(prev, now, neighbor);
    prev.lemma_contains_bounds(point);
    lemma_step_is_octile(point, slot);
    point.lemma_neighbor_adjacent(slot);
    assert forall|p: Point| #[trigger] prev.contains(p) && p != neighbor implies now.at(p)
        == prev.at(p) by {}
    assert forall|p: Point| now.contains(p) && now.marked(p) implies #[trigger] hangs(
        now,
        source,
        p,
    ) by {
        if p == neighbor {
            assert(prev.contains(point));
        } else {
            assert(prev.contains(p));
            assert(hangs(prev, source, p));
            if let Some(q) = prev.at(p)@.parent {
                assert(prev.contains(q));
            }
        }
    }
    assert forall|p: Point| #[trigger] now.contains(p) implies if now.marked(p) {
        &&& now.at(p)@.terrain == before.at(p)@.terrain
        &&& now.at(p)@.belief == before.at(p)@.belief
        &&& p != source ==> ok(before.at(p))
        &&& now.at(p)@.g.steps() + now.unmarked() + 1 <= now.area()
    } else {
        now.at(p) == before.at(p)
    } by {
        assert(prev.contains(p));
        assert(prev.contains(point));
    }
}

/// A route's points are all marked once the marked tiles are closed under
/// steps over admitted tiles.
proof fn lemma_route_marked(
    before: &Grid,
    now: &Grid,
    ok: spec_fn(Tile) -> bool,
    source: Point,
    target: Point,
    route: Seq<Point>,
    i: int,
)
    requires
        now.same_shape(before),
        now.contains(source),
        now.marked(source),
        is_route(before, ok, source, target, route),
        forall|p: Point, q: Point|
            now.contains(p) && now.marked(p) && #[trigger] p.adjacent(q) && now.contains(q)
                && ok(before.at(q)) ==> now.marked(q),
        0 <= i < route.len(),
    ensures
        now.marked(route[i]),
    decreases route.len() - i,
{
    if i == route.len() - 1 {
        assert(source.adjacent(route[i]));
    } else {
        lemma_route_marked(before, now, ok, source, target, route, i + 1);
        assert(route[i + 1].adjacent(route[i]));
    }
}

/// What following the parents gives is a route.
proof fn lemma_parents_route(
    before: &Grid,
    now: &Grid,
    ok: spec_fn(Tile) -> bool,
    source: Point,
    target: Point,
    route: Seq<Point>,
)
    requires
        searching(before, now, ok, source),
        follows_parents(now, source, target, route),
    ensures
        is_route(before, ok, source, target, route),
{
    assert forall|i: int| 0 <= i < route.len() implies before.contains(#[trigger] route[i])
        && ok(before.at(route[i])) by {
        assert(now.contains(route[i]));
    }
    assert forall|i: int, j: int| 0 <= i && j == i + 1 && j < route.len() implies (
    #[trigger] route[j]).adjacent(#[trigger] route[i]) by {
        assert(hangs(now, source, route[i]));
    }
    if route.len() > 0 {
        assert(hangs(now, source, route.last()));
    }
}

/// The search behind `astar`, stated over the predicate `ok` that `passable`
/// computes.
#[verifier::rlimit(60)]
pub(crate) fn search<H, P>(
    grid: &mut Grid,
    source: &Point,
    target: &Point,
    heuristic: H,
    passable: P,
    Ghost(ok): Ghost<spec_fn(Tile) -> bool>,
) -> (found: Option<Data>) where H: Fn(&Point, &Point) -> Distance, P: Fn(&Tile) -> bool
    requires
        old(grid).wf(),
        old(grid).episode() < usize::MAX,
        old(grid).area() <= usize::MAX / 2,
        old(grid).contains(*source),
        estimates(heuristic, old(grid), *target),
        answers(passable, ok),
    ensures
        final(grid).wf(),
        final(grid).episode() == old(grid).episode() + 1,
        final(grid).same_knowledge(old(grid)),
        search_tree(final(grid), *source),
        found.is_some() == reachable(old(grid), ok, *source, *target),
        found matches Some(data) ==> {
            &&& is_route(old(grid), ok, *source, *target, data.path@)
            &&& follows_parents(final(grid), *source, *target, data.path@)
            &&& 1 <= data.expansions <= old(grid).area()
        },
        ({
            let end = finished(
                free_of(old(grid), ok),
                estimate_of(heuristic, *target),
                *target,
                begun(*source, *target),
                old(grid).area(),
            );
            &&& found.is_some() == end.1
            &&& marks_of(final(grid)) == end.0.marks
            &&& found matches Some(data) ==> data.expansions == end.0.expansions && data.path@
                == route_from(end.0.marks, *target)
        }),
        match planned(
            free_of(old(grid), ok),
            estimate_of(heuristic, *target),
            *source,
            *target,
            old(grid).area(),
        ) {
            Some(plan) => found matches Some(data) && data.path@ == plan.0 && data.expansions
                == plan.1,
            None => found is None,
        },
{
    let ghost before = *grid;
    let episode = grid.next_episode();
    let mut open = OpenList::new();
    let mut expansions: usize = 0;

    let h0 = Distance::octile_heuristic(source, target);
    let ghost started = *grid;
    {
        let tile = grid.index_mut(source);
        tile.visit_initial(h0, episode);
    }
    let first = grid.index(source);
    let node = Node { point: *source, f: first.f(), g: first.g() };
    open.push(node);
    let ghost mut explored: Set<Point> = Set::empty();
    proof {
        assert forall|p: Point| #[trigger] started.contains(p) implies !started.marked(p) by {
            assert(before.contains(p));
        }
        started.lemma_fresh();
        Grid::lemma_marking(&started, grid, *source);
        started.lemma_same_area(&before);
        assert forall|p: Point| grid.contains(p) && grid.marked(p) implies #[trigger] hangs(
            grid,
            *source,
            p,
        ) by {
            assert(started.contains(p));
        }
        assert forall|p: Point| #[trigger] grid.contains(p) implies if grid.marked(p) {
            &&& grid.at(p)@.terrain == before.at(p)@.terrain
            &&& grid.at(p)@.belief == before.at(p)@.belief
            &&& p != *source ==> ok(before.at(p))
            &&& grid.at(p)@.g.steps() + grid.unmarked() + 1 <= grid.area()
        } else {
            grid.at(p) == before.at(p)
        } by {
            assert(started.contains(p));
            assert(before.contains(p));
        }
        assert(frontier(grid, open@, explored, None)) by {
            assert forall|p: Point|
                grid.contains(p) && #[trigger] grid.marked(p) && !explored.contains(p) implies open@.contains(
                node_of(grid.at(p), p),
            ) by {
                assert(started.contains(p));
            }
        }
    }
    let ghost free = free_of(&before, ok);
    let ghost estimate = estimate_of(heuristic, *target);
    let ghost answer = finished(free, estimate, *target, begun(*source, *target), before.area());
    let ghost mut progress = begun(*source, *target);
    proof {
        assert(marks_of(grid) =~= progress.marks) by {
            assert forall|p: Point| marks_of(grid).dom().contains(p) implies p == *source by {
                assert(started.contains(p));
            }
        }
    }
    loop
        invariant
            free == free_of(&before, ok),
            estimate == estimate_of(heuristic, *target),
            progress.open == open@,
            progress.expansions == expansions,
            progress.marks == marks_of(grid),
            finished(free, estimate, *target, progress, (grid.unmarked() + open@.len()) as nat)
                == answer,
            answer == finished(
                free_of(old(grid), ok),
                estimate_of(heuristic, *target),
                *target,
                begun(*source, *target),
                old(grid).area(),
            ),
            before.wf(),
            before.area() <= usize::MAX / 2,
            before.contains(*source),
            estimates(heuristic, &before, *target),
            answers(passable, ok),
            before == *old(grid),
            episode == grid.episode(),
            open.wf(),
            searching(&before, grid, ok, *source),
            frontier(grid, open@, explored, None),
            closed(&before, grid, ok, explored, *target),
            expansions + open@.len() + grid.unmarked() == grid.area(),
        decreases grid.unmarked() + open@.len(),
    {
        let ghost held = open@;
        let popped = open.pop();
        if popped.is_none() {
            proof {
                assert forall|p: Point, q: Point|
                    grid.contains(p) && grid.marked(p) && #[trigger] p.adjacent(q)
                        && grid.contains(q) && ok(before.at(q)) implies grid.marked(
                    q,
                ) by {
                    assert(explored.contains(p));
                }
                if reachable(&before, ok, *source, *target) {
                    let route = choose|route: Seq<Point>|
                        is_route(&before, ok, *source, *target, route);
                    if route.len() > 0 {
                        lemma_route_marked(&before, grid, ok, *source, *target, route, 0);
                        assert(before.contains(route[0]));
                    }
                    assert(grid.contains(*target));
                    assert(grid.marked(*target));
                    assert(explored.contains(*target));
                }
                assert forall|p: Point| #[trigger] grid.contains(p) implies grid.at(p)@.visited
                    <= grid.episode() && grid.at(p)@.terrain == before.at(p)@.terrain && grid.at(
                    p,
                )@.belief == before.at(p)@.belief by {
                    assert(before.contains(p));
                }
            }
            return None;
        }
        let expand = popped.unwrap();
        let ghost waiting = open@;
        expansions += 1;
        let point = *expand.point();
        if point == *target {
            let path = extract_path(grid, point, Ghost(*source));
            proof {
                lemma_route_from_marks(grid, *source, *target, path@);
                lemma_parents_route(&before, grid, ok, *source, *target, path@);
                assert forall|p: Point| #[trigger] grid.contains(p) implies grid.at(p)@.visited
                    <= grid.episode() && grid.at(p)@.terrain == before.at(p)@.terrain && grid.at(
                    p,
                )@.belief == before.at(p)@.belief by {
                    assert(before.contains(p));
                }
            }
            return Some(Data { path: path, expansions: expansions });
        }
        let g = grid.index(&point).g();
        let ghost taken = Progress {
            open: held.remove(expand),
            expansions: progress.expansions + 1,
            ..progress
        };
        let ghost rounds = (grid.unmarked() + open@.len()) as nat;
        proof {
            lemma_taken_out(held, expand, expand);
            assert(answer == finished(
                free,
                estimate,
                *target,
                expanded(free, estimate, taken, point, 8),
                rounds,
            ));
            progress = taken;
        }
        proof {
            grid.lemma_contains_bounds(point);
            assert forall|n: Node| #[trigger] waiting.contains(n) implies grid.contains(n.point)
                && grid.marked(n.point) by {
                lemma_taken_out(held, expand, n);
            }
            assert forall|p: Point|
                grid.contains(p) && #[trigger] grid.marked(p) && !explored.contains(p) && Some(p)
                    != Some(point) implies waiting.contains(node_of(grid.at(p), p)) by {
                lemma_taken_out(held, expand, node_of(grid.at(p), p));
            }
            lemma_taken_out(held, expand, expand);
        }
        let ns = point.neighbors();
        let mut i: usize = 0;
        while i < 8
            invariant
                i <= 8,
                free == free_of(&before, ok),
                estimate == estimate_of(heuristic, *target),
                progress.open == open@,
                progress.expansions == expansions,
                progress.marks == marks_of(grid),
                progress == expanded(free, estimate, taken, point, i as int),
                rounds == grid.unmarked() + open@.len(),
                answer == finished(
                    free,
                    estimate,
                    *target,
                    expanded(free, estimate, taken, point, 8),
                    rounds,
                ),
                answer == finished(
                    free_of(old(grid), ok),
                    estimate_of(heuristic, *target),
                    *target,
                    begun(*source, *target),
                    old(grid).area(),
                ),
                before == *old(grid),
                before.wf(),
                before.area() <= usize::MAX / 2,
                before.contains(*source),
                estimates(heuristic, &before, *target),
                answers(passable, ok),
                episode == grid.episode(),
                open.wf(),
                searching(&before, grid, ok, *source),
                frontier(grid, open@, explored, Some(point)),
                closed(&before, grid, ok, explored, *target),
                expansions + open@.len() + grid.unmarked() == grid.area(),
                grid.contains(point),
                grid.marked(point),
                point != *target,
                g == grid.at(point)@.g,
                forall|slot: int| 0 <= slot < 8 ==> ns[slot] == point.neighbor(slot),
                forall|slot: int|
                    0 <= slot < i ==> (#[trigger] point.neighbor(slot) matches Some(q)
                        ==> grid.contains(q) && ok(before.at(q)) ==> grid.marked(q)),
            decreases 8 - i,
        {
            let ghost tried = relaxed(free, estimate, progress, point, i as int);
            if let Some(neighbor) = ns[i] {
                let ghost prev = *grid;
                let fresh = match grid.get(&neighbor) {
                    Some(tile) => !tile.visited(episode) && passable(tile),
                    None => false,
                };
                proof {
                    if prev.contains(neighbor) {
                        assert(before.contains(neighbor));
                        if !prev.marked(neighbor) {
                            assert(prev.at(neighbor) == before.at(neighbor));
                        }
                    }
                    assert(fresh == (free(neighbor) && !progress.marks.dom().contains(neighbor)));
                }
                if fresh {
                    proof {
                        assert(prev.contains(neighbor));
                        assert(prev.at(neighbor) == before.at(neighbor));
                        prev.lemma_unmarked_positive(neighbor);
                    }
                    proof {
                        assert(before.contains(neighbor));
                    }
                    let h = heuristic(&neighbor, target);
                    let reached = g.plus(&step_cost(i));
                    let tile = grid.index_mut(&neighbor);
                    tile.visit(point, reached, h, episode);
                    let node = Node { point: neighbor, f: tile.f(), g: tile.g() };
                    let ghost queued = open@;
                    open.push(node);
                    proof {
                        let mark = Mark { parent: Some(point), g: reached, h: h };
                        assert(marks_of(grid) =~= progress.marks.insert(neighbor, mark)) by {
                            assert forall|p: Point| #[trigger]
                                marks_of(grid).dom().contains(p)
                                    <==> progress.marks.insert(neighbor, mark).dom().contains(
                                    p,
                                ) by {
                                if p != neighbor {
                                    assert(prev.contains(p) == grid.contains(p));
                                }
                            }
                            assert forall|p: Point| #[trigger]
                                marks_of(grid).dom().contains(p) implies marks_of(grid)[p]
                                == progress.marks.insert(neighbor, mark)[p] by {
                                if p != neighbor {
                                    assert(prev.contains(p));
                                }
                            }
                        }
                        assert(prev.contains(point));
                        assert(progress.marks[point].g == g);
                        assert(h == estimate(neighbor));
                        progress = Progress {
                            marks: progress.marks.insert(neighbor, mark),
                            open: queued.insert(node),
                            expansions: progress.expansions,
                        };
                        assert(progress == tried);
                        lemma_visit(
                            &before,
                            &prev,
                            grid,
                            ok,
                            *source,
                            point,
                            i as int,
                            neighbor,
                        );
                        assert forall|n: Node| #[trigger] open@.contains(n) implies grid.contains(
                            n.point,
                        ) && grid.marked(n.point) by {
                            lemma_put_in(queued, node, n);
                            if n != node {
                                assert(prev.contains(n.point));
                            }
                        }
                        assert forall|p: Point|
                            grid.contains(p) && #[trigger] grid.marked(p) && !explored.contains(p)
                                && Some(p) != Some(point) implies open@.contains(
                            node_of(grid.at(p), p),
                        ) by {
                            lemma_put_in(queued, node, node_of(grid.at(p), p));
                            if p != neighbor {
                                assert(prev.contains(p));
                                assert(prev.marked(p));
                            }
                        }
                        lemma_put_in(queued, node, node);
                        assert forall|p: Point| #[trigger] explored.contains(p) implies grid.contains(
                            p,
                        ) && grid.marked(p) && p != *target by {
                            assert(prev.contains(p));
                        }
                        assert forall|p: Point, q: Point|
                            explored.contains(p) && #[trigger] p.adjacent(q) && grid.contains(q)
                                && ok(before.at(q)) implies grid.marked(q) by {
                            assert(prev.contains(q));
                        }
                        assert forall|slot: int| 0 <= slot < i + 1 implies (
                        #[trigger] point.neighbor(slot) matches Some(q) ==> grid.contains(q)
                            && ok(before.at(q)) ==> grid.marked(q)) by {
                            if let Some(q) = point.neighbor(slot) {
                                if grid.contains(q) {
                                    assert(prev.contains(q));
                                }
                            }
                        }
                    }
                }
            }
            proof {
                assert(progress == tried);
            }
            i += 1;
        }
        proof {
            let ghost grown = explored.insert(point);
            assert forall|p: Point, q: Point|
                grown.contains(p) && #[trigger] p.adjacent(q) && grid.contains(q) && ok(before.at(q)) implies grid.marked(q) by {
                if p == point {
                    point.lemma_adjacent_neighbor(q);
                    assert(point.neighbor(point.slot_of(q)) == Some(q));
                }
            }
            assert forall|p: Point|
                grid.contains(p) && #[trigger] grid.marked(p) && !grown.contains(p) implies open@.contains(
                node_of(grid.at(p), p),
            ) by {
                assert(Some(p) != Some(point));
            }
            explored = grown;
        }
    }
}

/// Searches for a way from `source` to `target` over the tiles that
/// `passable` admits, expanding first the tile with the least `f`, and of
/// those the one with the least `g`. A tile is settled when it is first
/// reached; each step costs 1 straight and √2 diagonally.
///
/// What is found, and the marks left on the tiles, are those of `finished`,
/// which runs the search round by round. The search finds a route exactly
/// where one exists. The route is what the parents left on the tiles give,
/// from `target` back; the marks form a tree rooted in `source`; what is
/// known of the terrain is untouched.
pub fn astar<H, P>(
    grid: &mut Grid,
    source: &Point,
    target: &Point,
    heuristic: H,
    passable: P,
) -> (found: Option<Data>) where H: Fn(&Point, &Point) -> Distance, P: Fn(&Tile) -> bool
    requires
        old(grid).wf(),
        old(grid).episode() < usize::MAX,
        old(grid).area() <= usize::MAX / 2,
        old(grid).contains(*source),
        estimates(heuristic, old(grid), *target),
        decides(passable),
    ensures
        final(grid).wf(),
        final(grid).episode() == old(grid).episode() + 1,
        final(grid).same_knowledge(old(grid)),
        search_tree(final(grid), *source),
        found.is_some() == reachable(old(grid), admitting(passable), *source, *target),
        found matches Some(data) ==> {
            &&& is_route(old(grid), admitting(passable), *source, *target, data.path@)
            &&& follows_parents(final(grid), *source, *target, data.path@)
            &&& 1 <= data.expansions <= old(grid).area()
        },
        match planned(
            free_of(old(grid), admitting(passable)),
            estimate_of(heuristic, *target),
            *source,
            *target,
            old(grid).area(),
        ) {
            Some(plan) => found matches Some(data) && data.path@ == plan.0 && data.expansions
                == plan.1,
            None => found is None,
        },
        marks_of(final(grid)) == finished(
            free_of(old(grid), admitting(passable)),
            estimate_of(heuristic, *target),
            *target,
            begun(*source, *target),
            old(grid).area(),
        ).0.marks,
{
    search(grid, source, target, heuristic, passable, Ghost(admitting(passable)))
}

} // verus!
