//! The grid world: points, terrain, what the agent believes of it, and the
//! scratch marks that a search leaves on the tiles.

use crate::distance::{floor_root, lemma_root_two_irrational, lemma_square_le, Distance};
use crate::agent::{charges, quotes};
use crate::search::{estimate_of, estimates, free_of, is_route, reachable, search};
use vstd::prelude::*;

verus! {

/// A place on the grid, by row and column.
#[derive(Clone, Copy, Debug, PartialEq, Eq, Structural)]
pub struct Point {
    pub y: usize,
    pub x: usize,
}

/// The row offset of the neighbour in `slot`: the slots run row by row, from
/// the upper left neighbour (0) to the lower right one (7).
pub open spec fn slot_dy(slot: int) -> int {
    if slot <= 2 {
        -1
    } else if slot <= 4 {
        0
    } else {
        1
    }
}

/// The column offset of the neighbour in `slot`.
pub open spec fn slot_dx(slot: int) -> int {
    if slot == 0 || slot == 3 || slot == 5 {
        -1
    } else if slot == 1 || slot == 6 {
        0
    } else {
        1
    }
}

impl Point {
    /// The neighbour in `slot`, unless it would lie above row 0 or left of
    /// column 0.
    pub open spec fn neighbor(self, slot: int) -> Option<Point> {
        if 0 <= slot < 8 && self.y + slot_dy(slot) >= 0 && self.x + slot_dx(slot) >= 0 {
            Some(
                Point {
                    y: (self.y + slot_dy(slot)) as usize,
                    x: (self.x + slot_dx(slot)) as usize,
                },
            )
        } else {
            None
        }
    }

    /// Whether `other` is within one step of `self`, `self` included.
    pub open spec fn near(self, other: Point) -> bool {
        &&& -1 <= other.y - self.y <= 1
        &&& -1 <= other.x - self.x <= 1
    }

    /// Whether `other` is one step away from `self`, straight or diagonal.
    pub open spec fn adjacent(self, other: Point) -> bool {
        self.near(other) && self != other
    }

    pub fn new(y: usize, x: usize) -> (p: Point)
        ensures
            p == (Point { y, x }),
    {
        Point { y: y, x: x }
    }

    pub fn x(&self) -> (x: usize)
        ensures
            x == self.x,
    {
        self.x
    }

    pub fn y(&self) -> (y: usize)
        ensures
            y == self.y,
    {
        self.y
    }

    /// The eight neighbours by slot, `None` where the grid's upper or left
    /// edge cuts one off.
    pub fn neighbors(&self) -> (ns: [Option<Point>; 8])
        requires
            self.y < usize::MAX,
            self.x < usize::MAX,
        ensures
            forall|slot: int| 0 <= slot < 8 ==> #[trigger] ns[slot] == self.neighbor(slot),
    {
        let (n0, n1, n2) = if self.y > 0 {
            (
                if self.x > 0 {
                    Some(Point::new(self.y - 1, self.x - 1))
                } else {
                    None
                },
                Some(Point::new(self.y - 1, self.x)),
                Some(Point::new(self.y - 1, self.x + 1)),
            )
        } else {
            (None, None, None)
        };
        let (n3, n5) = if self.x > 0 {
            (Some(Point::new(self.y, self.x - 1)), Some(Point::new(self.y + 1, self.x - 1)))
        } else {
            (None, None)
        };
        let n4 = Some(Point::new(self.y, self.x + 1));
        let n6 = Some(Point::new(self.y + 1, self.x));
        let n7 = Some(Point::new(self.y + 1, self.x + 1));
        [n0, n1, n2, n3, n4, n5, n6, n7]
    }

    /// A neighbour in a slot is one step away.
    pub proof fn lemma_neighbor_adjacent(self, slot: int)
        requires
            self.y < usize::MAX,
            self.x < usize::MAX,
            self.neighbor(slot) is Some,
        ensures
            self.adjacent(self.neighbor(slot).unwrap()),
    {
    }

    /// The slot in which `other` is a neighbour of `self`.
    pub open spec fn slot_of(self, other: Point) -> int {
        3 * (other.y - self.y + 1) + (other.x - self.x + 1) - if other.y > self.y || (other.y
            == self.y && other.x > self.x) {
            1int
        } else {
            0int
        }
    }

    /// A point one step away is the neighbour in some slot.
    pub proof fn lemma_adjacent_neighbor(self, other: Point)
        requires
            self.adjacent(other),
        ensures
            0 <= self.slot_of(other) < 8,
            self.neighbor(self.slot_of(other)) == Some(other),
    {
    }
}

/// The offset between two coordinates.
pub open spec fn offset(a: usize, b: usize) -> int {
    if a > b {
        a - b
    } else {
        b - a
    }
}

/// Ways of measuring how far apart two points are.
pub trait Measure: Sized {
    /// The distance as the crow flies, as far as `Self` can hold it. A
    /// `Distance` holds it along a row, a column or a diagonal; elsewhere it
    /// holds the greatest length of steps of one kind, `k` or `k·√2`, that is
    /// not above it: from (0, 0) to (1, 2) that is 2, not √5. The two offsets
    /// must be at most half of `u64::MAX`, to leave room for their squares.
    fn euclidean_heuristic(from: &Point, to: &Point) -> Self
        requires
            offset(to.y, from.y) <= u64::MAX / 2,
            offset(to.x, from.x) <= u64::MAX / 2,
    ;

    /// The distance when every step goes straight or diagonally.
    fn octile_heuristic(from: &Point, to: &Point) -> Self;
}

/// The square of the distance between two points as the crow flies.
pub open spec fn squared_offset(from: Point, to: Point) -> int {
    (to.y - from.y) * (to.y - from.y) + (to.x - from.x) * (to.x - from.x)
}

/// Whether `d` is the Euclidean distance between the points as a length can
/// hold it. A length is made of straight and diagonal steps, and the distance
/// as the crow flies is in general no such number. `d` is the greatest length
/// made of steps of one kind, `k` or `k·√2`, that does not exceed it: the
/// distance itself along a row, a column or a diagonal.
pub open spec fn is_euclidean(d: Distance, from: Point, to: Point) -> bool {
    &&& d.straight == 0 || d.diagonal == 0
    &&& d.squared() <= squared_offset(from, to)
    &&& forall|k: int|
        0 <= k && #[trigger] (k * k) <= squared_offset(from, to) ==> k * k <= d.squared()
    &&& forall|k: int|
        0 <= k && 2 * #[trigger] (k * k) <= squared_offset(from, to) ==> 2 * (k * k)
            <= d.squared()
}

/// The distance between two points when steps go straight or diagonally:
/// as many diagonal steps as the smaller offset, the rest straight.
pub open spec fn octile(from: Point, to: Point) -> Distance {
    let dy = if to.y > from.y {
        to.y - from.y
    } else {
        from.y - to.y
    };
    let dx = if to.x > from.x {
        to.x - from.x
    } else {
        from.x - to.x
    };
    if dy >= dx {
        Distance { straight: (dy - dx) as u64, diagonal: dx as u64 }
    } else {
        Distance { straight: (dx - dy) as u64, diagonal: dy as u64 }
    }
}

impl Measure for Distance {
    fn euclidean_heuristic(from: &Point, to: &Point) -> (d: Distance)
        ensures
            is_euclidean(d, *from, *to),
    {
        let dy: u128 = if to.y > from.y {
            (to.y - from.y) as u128
        } else {
            (from.y - to.y) as u128
        };
        let dx: u128 = if to.x > from.x {
            (to.x - from.x) as u128
        } else {
            (from.x - to.x) as u128
        };
        assert(dy * dy <= 0x7fff_ffff_ffff_ffff * 0x7fff_ffff_ffff_ffff) by (nonlinear_arith)
            requires
                0 <= dy <= 0x7fff_ffff_ffff_ffff,
        ;
        assert(dx * dx <= 0x7fff_ffff_ffff_ffff * 0x7fff_ffff_ffff_ffff) by (nonlinear_arith)
            requires
                0 <= dx <= 0x7fff_ffff_ffff_ffff,
        ;
        let n: u128 = dy * dy + dx * dx;
        proof {
            let y = to.y - from.y;
            let x = to.x - from.x;
            assert(y * y == dy * dy) by (nonlinear_arith)
                requires
                    y == dy || y == -dy,
            ;
            assert(x * x == dx * dx) by (nonlinear_arith)
                requires
                    x == dx || x == -dx,
            ;
            assert(n == squared_offset(*from, *to));
        }
        let whole = floor_root(n);
        let half = floor_root(n / 2);
        let w: u128 = whole as u128;
        let h: u128 = half as u128;
        assert(h * h <= n / 2);
        let straight = w * w >= 2 * (h * h);
        let d = if straight {
            Distance::new(whole, 0)
        } else {
            Distance::new(0, half)
        };
        proof {
            let wi = whole as int;
            let hi = half as int;
            assert forall|k: int| 0 <= k && #[trigger] (k * k) <= n implies k * k <= wi * wi by {
                if k > wi {
                    lemma_square_le(wi + 1, k);
                } else {
                    lemma_square_le(k, wi);
                }
            }
            assert forall|k: int| 0 <= k && 2 * #[trigger] (k * k) <= n implies k * k <= hi * hi by {
                if k > hi {
                    lemma_square_le(hi + 1, k);
                } else {
                    lemma_square_le(k, hi);
                }
            }
        }
        d
    }

    fn octile_heuristic(from: &Point, to: &Point) -> (d: Distance)
        ensures
            d == octile(*from, *to),
    {
        let dy = if to.y > from.y {
            to.y - from.y
        } else {
            from.y - to.y
        };
        let dx = if to.x > from.x {
            to.x - from.x
        } else {
            from.x - to.x
        };
        if dy >= dx {
            Distance::new((dy - dx) as u64, dx as u64)
        } else {
            Distance::new((dx - dy) as u64, dy as u64)
        }
    }
}

/// One step apart the octile and the Euclidean distance are the same: 1
/// along a row or a column, √2 along a diagonal.
pub proof fn law_single_step_distances(from: Point, to: Point, euclidean: Distance)
    requires
        from.adjacent(to),
        is_euclidean(euclidean, from, to),
    ensures
        euclidean == octile(from, to),
        octile(from, to) == if from.y == to.y || from.x == to.x {
            Distance { straight: 1, diagonal: 0 }
        } else {
            Distance { straight: 0, diagonal: 1 }
        },
{
    let n = squared_offset(from, to);
    let dy = to.y - from.y;
    let dx = to.x - from.x;
    assert(dy * dy == if dy == 0 {
        0int
    } else {
        1int
    }) by (nonlinear_arith)
        requires
            -1 <= dy <= 1,
    ;
    assert(dx * dx == if dx == 0 {
        0int
    } else {
        1int
    }) by (nonlinear_arith)
        requires
            -1 <= dx <= 1,
    ;
    let one = 1int;
    assert(one * one == 1);
    let a = euclidean.straight as int;
    let b = euclidean.diagonal as int;
    assert(a * a >= a) by (nonlinear_arith)
        requires
            a >= 0,
    ;
    assert(b * b >= b) by (nonlinear_arith)
        requires
            b >= 0,
    ;
    assert(a >= 2 ==> a * a >= 4) by (nonlinear_arith);
    assert(b >= 2 ==> b * b >= 4) by (nonlinear_arith);
    if n == 1 {
        assert(one * one <= n);
    } else {
        assert(2 * (one * one) <= n);
    }
}

/// The straight and the diagonal part of the octile distance for the
/// offsets `y` and `x`.
pub open spec fn octile_parts(y: int, x: int) -> (int, int) {
    if y >= x {
        (y - x, x)
    } else {
        (x - y, y)
    }
}

/// One step changes the octile distance by no more than its own length.
proof fn lemma_octile_step(y: int, x: int, up: int, right: int)
    requires
        0 <= y,
        0 <= x,
        -1 <= up <= 1,
        -1 <= right <= 1,
        up != 0 || right != 0,
        0 <= y + up,
        0 <= x + right,
    ensures
        ({
            let here = octile_parts(y + up, x + right);
            let there = octile_parts(y, x);
            let step = if up != 0 && right != 0 {
                (0int, 1int)
            } else {
                (1int, 0int)
            };
            crate::distance::surd_nonneg(
                there.0 + step.0 - here.0,
                there.1 + step.1 - here.1,
            )
        }),
{
    let here = octile_parts(y + up, x + right);
    let there = octile_parts(y, x);
    let step = if up != 0 && right != 0 {
        (0int, 1int)
    } else {
        (1int, 0int)
    };
    let a = there.0 + step.0 - here.0;
    let b = there.1 + step.1 - here.1;
    assert(-3 <= a <= 3 && -3 <= b <= 3);
    assert(a * a == if a == 0 {
        0int
    } else if a == 1 || a == -1 {
        1int
    } else if a == 2 || a == -2 {
        4int
    } else {
        9int
    }) by (nonlinear_arith)
        requires
            -3 <= a <= 3,
    ;
    assert(b * b == if b == 0 {
        0int
    } else if b == 1 || b == -1 {
        1int
    } else if b == 2 || b == -2 {
        4int
    } else {
        9int
    }) by (nonlinear_arith)
        requires
            -3 <= b <= 3,
    ;
}

/// The octile distance has the parts that its offsets give.
proof fn lemma_octile_by_parts(from: Point, to: Point)
    ensures
        octile(from, to).straight == octile_parts(offset(to.y, from.y), offset(to.x, from.x)).0,
        octile(from, to).diagonal == octile_parts(offset(to.y, from.y), offset(to.x, from.x)).1,
{
}

/// A step changes each offset to a third point by as much as it moves.
proof fn lemma_offset_step(a: usize, b: usize, t: usize)
    requires
        -1 <= a - b <= 1,
    ensures
        -1 <= offset(t, a) - offset(t, b) <= 1,
        (offset(t, a) != offset(t, b)) == (a != b),
{
}

/// The octile distance never overrates the way: from a point it is no more
/// than one step and the octile distance from where the step leads.
pub proof fn law_octile_consistent(from: Point, next: Point, target: Point)
    requires
        from.adjacent(next),
        octile(next, target).fits_with(&octile(from, next)),
    ensures
        octile(from, target).spec_le(&octile(next, target).spec_plus(&octile(from, next))),
{
    let y = offset(target.y, next.y);
    let x = offset(target.x, next.x);
    let up = offset(target.y, from.y) - y;
    let right = offset(target.x, from.x) - x;
    lemma_offset_step(from.y, next.y, target.y);
    lemma_offset_step(from.x, next.x, target.x);
    lemma_octile_step(y, x, up, right);
    lemma_octile_by_parts(from, target);
    lemma_octile_by_parts(next, target);
    lemma_octile_by_parts(from, next);
}

/// There is one Euclidean distance between two points at most.
pub proof fn law_euclidean_unique(from: Point, to: Point, one: Distance, other: Distance)
    requires
        is_euclidean(one, from, to),
        is_euclidean(other, from, to),
    ensures
        one == other,
{
    let a = one.straight as int;
    let b = one.diagonal as int;
    let c = other.straight as int;
    let d = other.diagonal as int;
    // Each is a candidate that the other must not fall short of.
    assert(a * a <= other.squared()) by {
        assert(0 * 0 == 0) by (nonlinear_arith);
        assert(b * b >= 0) by (nonlinear_arith);
        assert(a * a <= squared_offset(from, to));
    }
    assert(2 * (b * b) <= other.squared()) by {
        assert(a * a >= 0) by (nonlinear_arith);
        assert(2 * (b * b) <= squared_offset(from, to));
    }
    assert(c * c <= one.squared()) by {
        assert(d * d >= 0) by (nonlinear_arith);
        assert(c * c <= squared_offset(from, to));
    }
    assert(2 * (d * d) <= one.squared()) by {
        assert(c * c >= 0) by (nonlinear_arith);
        assert(2 * (d * d) <= squared_offset(from, to));
    }
    assert(a == 0 ==> a * a == 0) by (nonlinear_arith);
    assert(b == 0 ==> b * b == 0) by (nonlinear_arith);
    assert(c == 0 ==> c * c == 0) by (nonlinear_arith);
    assert(d == 0 ==> d * d == 0) by (nonlinear_arith);
    if a != c {
        if a < c {
            crate::distance::lemma_square_lt(a, c);
        } else {
            crate::distance::lemma_square_lt(c, a);
        }
    }
    if b != d {
        if b < d {
            crate::distance::lemma_square_lt(b, d);
        } else {
            crate::distance::lemma_square_lt(d, b);
        }
    }
    if a * a == 2 * (d * d) {
        lemma_root_two_irrational(a as nat, d as nat);
    }
    if c * c == 2 * (b * b) {
        lemma_root_two_irrational(c as nat, b as nat);
    }
}

/// The length of the step to the neighbour in `slot`: √2 for the four
/// diagonal slots, 1 for the others.
pub open spec fn slot_cost(slot: int) -> Distance {
    if slot == 0 || slot == 2 || slot == 5 || slot == 7 {
        Distance { straight: 0, diagonal: 1 }
    } else {
        Distance { straight: 1, diagonal: 0 }
    }
}

/// The length of the step to the neighbour in `slot`.
pub fn step_cost(slot: usize) -> (cost: Distance)
    ensures
        cost == slot_cost(slot as int),
{
    if slot == 0 || slot == 2 || slot == 5 || slot == 7 {
        Distance::new(0, 1)
    } else {
        Distance::new(1, 0)
    }
}

/// A step costs what the octile distance between its ends says.
pub proof fn lemma_step_is_octile(from: Point, slot: int)
    requires
        from.y < usize::MAX,
        from.x < usize::MAX,
        from.neighbor(slot) is Some,
    ensures
        octile(from, from.neighbor(slot).unwrap()) == slot_cost(slot),
{
}

/// What a tile really is. Only `Ground` can be walked on.
#[derive(Clone, Copy, Debug, PartialEq, Eq, Structural)]
pub enum Terrain {
    Ground,
    OutOfBounds,
    Trees,
    Swamp,
    Water,
}

impl Terrain {
    pub open spec fn spec_passable(&self) -> bool {
        *self == Terrain::Ground
    }

    #[verifier::when_used_as_spec(spec_passable)]
    pub fn passable(&self) -> (r: bool)
        ensures
            r == self.spec_passable(),
    {
        *self == Terrain::Ground
    }

    /// The character that stands for the terrain on a map.
    pub fn symbol(&self) -> (c: char)
        ensures
            c == match *self {
                Terrain::Ground => '.',
                Terrain::OutOfBounds => '@',
                Terrain::Trees => 'T',
                Terrain::Swamp => 'S',
                Terrain::Water => 'W',
            },
    {
        match *self {
            Terrain::Ground => '.',
            Terrain::OutOfBounds => '@',
            Terrain::Trees => 'T',
            Terrain::Swamp => 'S',
            Terrain::Water => 'W',
        }
    }
}

/// What the agent knows of a tile.
#[derive(Clone, Copy, Debug, PartialEq, Eq, Structural)]
pub enum Belief {
    Unknown,
    Passable,
    Impassable,
}

impl Belief {
    /// What a look at `terrain` teaches.
    pub open spec fn of(terrain: Terrain) -> Belief {
        if terrain.spec_passable() {
            Belief::Passable
        } else {
            Belief::Impassable
        }
    }

    /// The character that stands for the belief on a map.
    pub fn symbol(&self) -> (c: char)
        ensures
            c == match *self {
                Belief::Unknown => '?',
                Belief::Passable => '.',
                Belief::Impassable => 'X',
            },
    {
        match *self {
            Belief::Unknown => '?',
            Belief::Passable => '.',
            Belief::Impassable => 'X',
        }
    }
}

/// One cell of the grid: its terrain, the belief about it, and the marks of
/// the last search that reached it.
#[derive(Debug)]
pub struct Tile {
    terrain: Terrain,
    belief: Belief,
    parent: Option<Point>,
    g: Distance,
    h: Distance,
    visited: usize,
}

/// A tile as contracts see it.
pub struct TileView {
    pub terrain: Terrain,
    pub belief: Belief,
    pub parent: Option<Point>,
    pub g: Distance,
    pub h: Distance,
    pub visited: usize,
}

impl TileView {
    /// The tile that is made of `terrain`: nothing is believed of it and no
    /// search has marked it.
    pub open spec fn fresh(terrain: Terrain) -> TileView {
        TileView {
            terrain,
            belief: Belief::Unknown,
            parent: None,
            g: Distance { straight: 0, diagonal: 0 },
            h: Distance { straight: 0, diagonal: 0 },
            visited: 0,
        }
    }

    /// The tile once it has been looked at: an unknown belief is set from
    /// the terrain, a known one stays.
    pub open spec fn observed(self) -> TileView {
        if self.belief == Belief::Unknown {
            TileView { belief: Belief::of(self.terrain), ..self }
        } else {
            self
        }
    }

    /// The tile with its belief forgotten.
    pub open spec fn forgotten(self) -> TileView {
        TileView { belief: Belief::Unknown, ..self }
    }

    /// Whether what is believed of the tile, if anything, is true.
    pub open spec fn truthful(self) -> bool {
        self.belief == Belief::Unknown || self.belief == Belief::of(self.terrain)
    }
}

impl View for Tile {
    type V = TileView;

    closed spec fn view(&self) -> TileView {
        TileView {
            terrain: self.terrain,
            belief: self.belief,
            parent: self.parent,
            g: self.g,
            h: self.h,
            visited: self.visited,
        }
    }
}

impl Tile {
    /// What is believed of a tile, if anything, is true: a belief comes from
    /// a look at the terrain and from nowhere else.
    #[verifier::type_invariant]
    spec fn believes_the_truth(self) -> bool {
        self.belief == Belief::Unknown || self.belief == Belief::of(self.terrain)
    }

    /// Two tiles that look alike are the same tile.
    pub proof fn lemma_view_determines(a: Tile, b: Tile)
        requires
            a@ == b@,
        ensures
            a == b,
    {
    }

    pub fn new(terrain: Terrain) -> (tile: Tile)
        ensures
            tile@ == TileView::fresh(terrain),
    {
        Tile {
            terrain: terrain,
            belief: Belief::Unknown,
            parent: None,
            g: Distance::zero(),
            h: Distance::zero(),
            visited: 0,
        }
    }

    /// Learns the tile's terrain, if it was unknown.
    pub fn look(&mut self)
        ensures
            final(self)@ == old(self)@.observed(),
    {
        if self.belief == Belief::Unknown {
            if self.terrain.passable() {
                self.belief = Belief::Passable;
            } else {
                self.belief = Belief::Impassable;
            }
        }
    }

    /// Whether the tile can really be walked on.
    pub fn passable(&self) -> (r: bool)
        ensures
            r == self@.terrain.spec_passable(),
    {
        self.terrain.passable()
    }

    pub fn belief(&self) -> (b: &Belief)
        ensures
            *b == self@.belief,
    {
        &self.belief
    }

    /// Whether nothing is known against walking on the tile.
    pub fn freespace(&self) -> (r: bool)
        ensures
            r == (self@.belief != Belief::Impassable),
    {
        self.belief != Belief::Impassable
    }

    pub fn parent(&self) -> (p: Option<Point>)
        ensures
            p == self@.parent,
    {
        self.parent
    }

    /// The estimated length of a path through the tile: `g + h`.
    pub fn f(&self) -> (f: Distance)
        requires
            self@.h.fits_with(&self@.g),
        ensures
            f == self@.h.spec_plus(&self@.g),
    {
        self.h.plus(&self.g)
    }

    pub fn g(&self) -> (g: Distance)
        ensures
            g == self@.g,
    {
        self.g
    }

    /// Whether the search numbered `episode` has reached the tile.
    pub fn visited(&self, episode: usize) -> (r: bool)
        ensures
            r == (self@.visited == episode),
    {
        self.visited == episode
    }

    /// Marks the tile as reached from `parent` by the search `episode`.
    pub fn visit(&mut self, parent: Point, g: Distance, h: Distance, episode: usize)
        ensures
            final(self)@ == (TileView {
                parent: Some(parent),
                g,
                h,
                visited: episode,
                ..old(self)@
            }),
    {
        proof {
            use_type_invariant(&*self);
        }
        self.parent = Some(parent);
        self.visited = episode;
        self.g = g;
        self.h = h;
    }

    /// Marks the tile as the one that the search `episode` starts from.
    pub fn visit_initial(&mut self, h: Distance, episode: usize)
        ensures
            final(self)@ == (TileView {
                parent: None,
                g: Distance { straight: 0, diagonal: 0 },
                h,
                visited: episode,
                ..old(self)@
            }),
    {
        proof {
            use_type_invariant(&*self);
        }
        self.parent = None;
        self.visited = episode;
        self.g = Distance::zero();
        self.h = h;
    }

    /// Drops what was learnt of the tile.
    pub fn forget(&mut self)
        ensures
            final(self)@ == old(self)@.forgotten(),
    {
        self.belief = Belief::Unknown;
    }

    /// The character that stands for the tile on a map: that of its terrain.
    pub fn symbol(&self) -> (c: char)
        ensures
            c == match self@.terrain {
                Terrain::Ground => '.',
                Terrain::OutOfBounds => '@',
                Terrain::Trees => 'T',
                Terrain::Swamp => 'S',
                Terrain::Water => 'W',
            },
    {
        self.terrain.symbol()
    }
}

/// The tiles that can really be walked on.
pub open spec fn walkable() -> spec_fn(Tile) -> bool {
    |tile: Tile| tile@.terrain.spec_passable()
}

/// The tiles of which nothing is known against walking on them.
pub open spec fn believed_free() -> spec_fn(Tile) -> bool {
    |tile: Tile| tile@.belief != Belief::Impassable
}

/// What is known of a tile: its terrain, and what is believed of it.
pub struct Known {
    pub terrain: Terrain,
    pub belief: Belief,
}

impl Known {
    /// What is known once the tile has been looked at.
    pub open spec fn observed(self) -> Known {
        if self.belief == Belief::Unknown {
            Known { belief: Belief::of(self.terrain), ..self }
        } else {
            self
        }
    }
}

/// Whether `p` names a tile of the rows.
pub open spec fn knows(known: Seq<Seq<Known>>, p: Point) -> bool {
    p.y < known.len() && p.x < known[p.y as int].len()
}

/// The number of tiles in the rows.
pub open spec fn known_area(known: Seq<Seq<Known>>) -> nat
    decreases known.len(),
{
    if known.len() == 0 {
        0
    } else {
        known_area(known.drop_last()) + known.last().len()
    }
}

/// What is known once `point` and what lies within one step of it have been
/// looked at.
pub open spec fn look_known(known: Seq<Seq<Known>>, point: Point) -> Seq<Seq<Known>> {
    Seq::new(
        known.len(),
        |y: int|
            Seq::new(
                known[y].len(),
                |x: int|
                    if -1 <= y - point.y <= 1 && -1 <= x - point.x <= 1 {
                        known[y][x].observed()
                    } else {
                        known[y][x]
                    },
            ),
    )
}

/// What is known once every belief has been forgotten.
pub open spec fn forget_known(known: Seq<Seq<Known>>) -> Seq<Seq<Known>> {
    Seq::new(
        known.len(),
        |y: int|
            Seq::new(
                known[y].len(),
                |x: int| Known { terrain: known[y][x].terrain, belief: Belief::Unknown },
            ),
    )
}

/// Rows of the same lengths hold as many tiles.
proof fn lemma_known_area_by_shape(known: Seq<Seq<Known>>, other: Seq<Seq<Known>>)
    requires
        known.len() == other.len(),
        forall|y: int| 0 <= y < known.len() ==> (#[trigger] known[y]).len() == other[y].len(),
    ensures
        known_area(known) == known_area(other),
    decreases known.len(),
{
    if known.len() > 0 {
        lemma_known_area_by_shape(known.drop_last(), other.drop_last());
    }
}

/// Looking leaves the tiles as many as they were.
pub proof fn lemma_area_after_look(known: Seq<Seq<Known>>, point: Point)
    ensures
        known_area(look_known(known, point)) == known_area(known),
{
    lemma_known_area_by_shape(look_known(known, point), known);
}

/// Looking leaves no trace once all is forgotten.
pub proof fn lemma_forget_after_look(known: Seq<Seq<Known>>, point: Point)
    ensures
        forget_known(look_known(known, point)) == forget_known(known),
{
    assert forall|y: int| 0 <= y < known.len() implies (#[trigger] forget_known(
        look_known(known, point),
    )[y]) == forget_known(known)[y] by {
        assert(forget_known(look_known(known, point))[y] =~= forget_known(known)[y]);
    }
    assert(forget_known(look_known(known, point)) =~= forget_known(known));
}

/// Forgetting again changes nothing.
pub proof fn lemma_forget_twice(known: Seq<Seq<Known>>)
    ensures
        forget_known(forget_known(known)) == forget_known(known),
{
    assert forall|y: int| 0 <= y < known.len() implies (#[trigger] forget_known(
        forget_known(known),
    )[y]) == forget_known(known)[y] by {
        assert(forget_known(forget_known(known))[y] =~= forget_known(known)[y]);
    }
    assert(forget_known(forget_known(known)) =~= forget_known(known));
}

/// The points that a path may go over by what is known: the tiles of which
/// nothing is known against walking on them.
pub open spec fn free_known(known: Seq<Seq<Known>>) -> spec_fn(Point) -> bool {
    |p: Point| knows(known, p) && known[p.y as int][p.x as int].belief != Belief::Impassable
}

/// The rows of tiles that a vector of rows holds.
pub open spec fn rows_of(tiles: Vec<Vec<Tile>>) -> Seq<Seq<Tile>> {
    Seq::new(tiles@.len(), |y: int| tiles@[y]@)
}

/// The rows with the tile at `p` replaced.
pub open spec fn with_tile(rows: Seq<Seq<Tile>>, p: Point, tile: Tile) -> Seq<Seq<Tile>> {
    rows.update(p.y as int, rows[p.y as int].update(p.x as int, tile))
}

/// The number of tiles in `row` that the search `episode` has not marked.
pub open spec fn row_unmarked(row: Seq<Tile>, episode: usize) -> nat
    decreases row.len(),
{
    if row.len() == 0 {
        0
    } else {
        row_unmarked(row.drop_last(), episode) + if row.last()@.visited == episode {
            0nat
        } else {
            1nat
        }
    }
}

/// The number of tiles in `rows` that the search `episode` has not marked.
pub open spec fn rows_unmarked(rows: Seq<Seq<Tile>>, episode: usize) -> nat
    decreases rows.len(),
{
    if rows.len() == 0 {
        0
    } else {
        rows_unmarked(rows.drop_last(), episode) + row_unmarked(rows.last(), episode)
    }
}

/// The number of tiles in `rows`.
pub open spec fn rows_area(rows: Seq<Seq<Tile>>) -> nat
    decreases rows.len(),
{
    if rows.len() == 0 {
        0
    } else {
        rows_area(rows.drop_last()) + rows.last().len()
    }
}

/// A row without a marked tile has as many unmarked tiles as it has tiles.
proof fn lemma_row_fresh(row: Seq<Tile>, episode: usize)
    requires
        forall|x: int| 0 <= x < row.len() ==> (#[trigger] row[x])@.visited != episode,
    ensures
        row_unmarked(row, episode) == row.len(),
    decreases row.len(),
{
    if row.len() > 0 {
        lemma_row_fresh(row.drop_last(), episode);
    }
}

/// Rows without a marked tile have as many unmarked tiles as they have tiles.
proof fn lemma_rows_fresh(rows: Seq<Seq<Tile>>, episode: usize)
    requires
        forall|y: int, x: int|
            0 <= y < rows.len() && 0 <= x < rows[y].len() ==> (#[trigger] rows[y][x])@.visited
                != episode,
    ensures
        rows_unmarked(rows, episode) == rows_area(rows),
    decreases rows.len(),
{
    if rows.len() > 0 {
        lemma_rows_fresh(rows.drop_last(), episode);
        lemma_row_fresh(rows.last(), episode);
    }
}

/// Marking an unmarked tile of a row leaves one unmarked tile fewer.
proof fn lemma_row_marking(row: Seq<Tile>, x: int, tile: Tile, episode: usize)
    requires
        0 <= x < row.len(),
        row[x]@.visited != episode,
        tile@.visited == episode,
    ensures
        row_unmarked(row.update(x, tile), episode) + 1 == row_unmarked(row, episode),
    decreases row.len(),
{
    let after = row.update(x, tile);
    if x == row.len() - 1 {
        assert(after.drop_last() =~= row.drop_last());
    } else {
        assert(after.drop_last() =~= row.drop_last().update(x, tile));
        lemma_row_marking(row.drop_last(), x, tile, episode);
    }
}

/// Marking an unmarked tile leaves one unmarked tile fewer, and as many tiles.
proof fn lemma_rows_marking(rows: Seq<Seq<Tile>>, p: Point, tile: Tile, episode: usize)
    requires
        p.y < rows.len(),
        p.x < rows[p.y as int].len(),
        rows[p.y as int][p.x as int]@.visited != episode,
        tile@.visited == episode,
    ensures
        rows_unmarked(with_tile(rows, p, tile), episode) + 1 == rows_unmarked(rows, episode),
        rows_area(with_tile(rows, p, tile)) == rows_area(rows),
    decreases rows.len(),
{
    let after = with_tile(rows, p, tile);
    if p.y == rows.len() - 1 {
        assert(after.drop_last() =~= rows.drop_last());
        lemma_row_marking(rows.last(), p.x as int, tile, episode);
    } else {
        assert(after.drop_last() =~= with_tile(rows.drop_last(), p, tile));
        lemma_rows_marking(rows.drop_last(), p, tile, episode);
    }
}

/// A row with an unmarked tile has one unmarked tile at least.
proof fn lemma_row_unmarked_positive(row: Seq<Tile>, x: int, episode: usize)
    requires
        0 <= x < row.len(),
        row[x]@.visited != episode,
    ensures
        row_unmarked(row, episode) >= 1,
    decreases row.len(),
{
    if x < row.len() - 1 {
        lemma_row_unmarked_positive(row.drop_last(), x, episode);
    }
}

/// Rows with an unmarked tile have one unmarked tile at least.
proof fn lemma_rows_unmarked_positive(rows: Seq<Seq<Tile>>, p: Point, episode: usize)
    requires
        p.y < rows.len(),
        p.x < rows[p.y as int].len(),
        rows[p.y as int][p.x as int]@.visited != episode,
    ensures
        rows_unmarked(rows, episode) >= 1,
    decreases rows.len(),
{
    if p.y == rows.len() - 1 {
        lemma_row_unmarked_positive(rows.last(), p.x as int, episode);
    } else {
        lemma_rows_unmarked_positive(rows.drop_last(), p, episode);
    }
}

/// No row has more tiles than all the rows together.
proof fn lemma_row_within_area(rows: Seq<Seq<Tile>>, y: int)
    requires
        0 <= y < rows.len(),
    ensures
        rows[y].len() <= rows_area(rows),
    decreases rows.len(),
{
    if y < rows.len() - 1 {
        lemma_row_within_area(rows.drop_last(), y);
    }
}

/// The tiles of the first rows are no more than all the tiles, and one row
/// more adds its length to them.
proof fn lemma_area_of_prefix(rows: Seq<Seq<Tile>>, upto: int)
    requires
        0 <= upto <= rows.len(),
    ensures
        rows_area(rows.subrange(0, upto)) <= rows_area(rows),
        upto < rows.len() ==> rows_area(rows.subrange(0, upto + 1)) == rows_area(
            rows.subrange(0, upto),
        ) + rows[upto].len(),
    decreases rows.len() - upto,
{
    if upto < rows.len() {
        assert(rows.subrange(0, upto + 1).drop_last() =~= rows.subrange(0, upto));
        lemma_area_of_prefix(rows, upto + 1);
    } else {
        assert(rows.subrange(0, upto) =~= rows);
    }
}

/// Rows of tiles and what is known of them have as many tiles.
proof fn lemma_known_area(rows: Seq<Seq<Tile>>, known: Seq<Seq<Known>>)
    requires
        rows.len() == known.len(),
        forall|y: int| 0 <= y < rows.len() ==> (#[trigger] rows[y]).len() == known[y].len(),
    ensures
        rows_area(rows) == known_area(known),
    decreases rows.len(),
{
    if rows.len() > 0 {
        lemma_known_area(rows.drop_last(), known.drop_last());
    }
}

/// Rows of the same lengths have as many tiles.
proof fn lemma_rows_same_count(a: Seq<Seq<Tile>>, b: Seq<Seq<Tile>>)
    requires
        a.len() == b.len(),
        forall|y: int| 0 <= y < a.len() ==> (#[trigger] a[y]).len() == b[y].len(),
    ensures
        rows_area(a) == rows_area(b),
    decreases a.len(),
{
    if a.len() > 0 {
        lemma_rows_same_count(a.drop_last(), b.drop_last());
    }
}

/// The grid: rows of tiles, and the number of the last search run on them.
#[derive(Debug)]
pub struct Grid {
    tiles: Vec<Vec<Tile>>,
    episode: usize,
}

impl Grid {
    /// The tiles, row by row.
    pub closed spec fn rows(&self) -> Seq<Seq<Tile>> {
        rows_of(self.tiles)
    }

    /// The number of the last search.
    pub closed spec fn episode(&self) -> usize {
        self.episode
    }

    /// Whether `p` names a tile of the grid.
    pub open spec fn contains(&self, p: Point) -> bool {
        p.y < self.rows().len() && p.x < self.rows()[p.y as int].len()
    }

    /// The tile at `p`.
    pub open spec fn at(&self, p: Point) -> Tile {
        self.rows()[p.y as int][p.x as int]
    }

    /// What is known of the tiles, row by row.
    pub open spec fn known(&self) -> Seq<Seq<Known>> {
        Seq::new(
            self.rows().len(),
            |y: int|
                Seq::new(
                    self.rows()[y].len(),
                    |x: int|
                        Known {
                            terrain: self.rows()[y][x]@.terrain,
                            belief: self.rows()[y][x]@.belief,
                        },
                ),
        )
    }

    /// Whether the two grids have tiles at the same places.
    pub open spec fn same_shape(&self, other: &Grid) -> bool {
        &&& self.rows().len() == other.rows().len()
        &&& forall|y: int|
            0 <= y < self.rows().len() ==> (#[trigger] self.rows()[y]).len()
                == other.rows()[y].len()
    }

    /// Whether the two grids have the same shape, terrain and beliefs; the
    /// marks of searches may differ.
    pub open spec fn same_knowledge(&self, other: &Grid) -> bool {
        &&& self.same_shape(other)
        &&& forall|p: Point| #[trigger]
            self.contains(p) ==> self.at(p)@.terrain == other.at(p)@.terrain && self.at(
                p,
            )@.belief == other.at(p)@.belief
    }

    /// Whether the two grids have the same shape and terrain; beliefs and
    /// marks may differ.
    pub open spec fn same_terrain(&self, other: &Grid) -> bool {
        &&& self.same_shape(other)
        &&& forall|p: Point| #[trigger]
            self.contains(p) ==> self.at(p)@.terrain == other.at(p)@.terrain
    }

    /// Whether no tile bears the number of a search that is yet to come, so
    /// that the next number marks no tile.
    pub open spec fn wf(&self) -> bool {
        forall|p: Point| #[trigger] self.contains(p) ==> self.at(p)@.visited <= self.episode()
    }

    /// The number of tiles.
    pub open spec fn area(&self) -> nat {
        rows_area(self.rows())
    }

    /// The number of tiles that the last search has not marked.
    pub open spec fn unmarked(&self) -> nat {
        rows_unmarked(self.rows(), self.episode())
    }

    /// Whether the last search has marked the tile at `p`.
    pub open spec fn marked(&self, p: Point) -> bool {
        self.at(p)@.visited == self.episode()
    }

    /// Whether the grid is small enough for path lengths on it to be
    /// counted: no more than half of `usize::MAX` rows, and tiles in all.
    pub open spec fn searchable(&self) -> bool {
        &&& self.rows().len() <= usize::MAX / 2
        &&& self.area() <= usize::MAX / 2
    }

    /// Whether a route over ground leads from `source` to `target`, whatever
    /// is believed of the tiles.
    pub open spec fn connected(&self, source: Point, target: Point) -> bool {
        reachable(self, walkable(), source, target)
    }

    /// Whether `after` is `before` with `point` and what lies within one step
    /// of it looked at, and nothing else changed.
    pub open spec fn looked(before: &Grid, after: &Grid, point: Point) -> bool {
        &&& after.same_shape(before)
        &&& after.episode() == before.episode()
        &&& forall|p: Point| #[trigger]
            before.contains(p) ==> after.at(p)@ == if point.near(p) {
                before.at(p)@.observed()
            } else {
                before.at(p)@
            }
    }

    /// Whether `after` is `before` with every belief forgotten, and nothing
    /// else changed.
    pub open spec fn forgot(before: &Grid, after: &Grid) -> bool {
        &&& after.same_shape(before)
        &&& after.episode() == before.episode()
        &&& forall|p: Point| #[trigger]
            before.contains(p) ==> after.at(p)@ == before.at(p)@.forgotten()
    }

    /// Whether `after` is `before` with some unknown tiles looked at: the
    /// shape and the terrain are the same, and a belief has changed only from
    /// unknown to what the terrain teaches. The marks of searches may differ.
    pub open spec fn learned(before: &Grid, after: &Grid) -> bool {
        &&& after.same_shape(before)
        &&& forall|p: Point| #[trigger]
            before.contains(p) ==> {
                &&& after.at(p)@.terrain == before.at(p)@.terrain
                &&& after.at(p)@.belief == before.at(p)@.belief || (before.at(p)@.belief
                    == Belief::Unknown && after.at(p)@.belief == Belief::of(
                    before.at(p)@.terrain,
                ))
            }
    }

    /// Learning in two stages is learning.
    pub proof fn lemma_learned_twice(first: &Grid, second: &Grid, third: &Grid)
        requires
            Grid::learned(first, second),
            Grid::learned(second, third),
        ensures
            Grid::learned(first, third),
    {
        assert forall|p: Point| #[trigger] first.contains(p) implies {
            &&& third.at(p)@.terrain == first.at(p)@.terrain
            &&& third.at(p)@.belief == first.at(p)@.belief || (first.at(p)@.belief
                == Belief::Unknown && third.at(p)@.belief == Belief::of(first.at(p)@.terrain))
        } by {
            assert(second.contains(p));
        }
    }

    /// Looking around is learning, and leaves the marks as they were.
    pub proof fn lemma_looked_learned(before: &Grid, after: &Grid, point: Point)
        requires
            Grid::looked(before, after, point),
        ensures
            Grid::learned(before, after),
            before.wf() ==> after.wf(),
    {
        assert forall|p: Point| #[trigger] after.contains(p) implies before.contains(p)
            && after.at(p)@.visited == before.at(p)@.visited by {
            assert(before.contains(p));
        }
    }

    /// A search teaches nothing and so, trivially, is learning.
    pub proof fn lemma_searched_learned(before: &Grid, after: &Grid)
        requires
            after.same_knowledge(before),
        ensures
            Grid::learned(before, after),
    {
        assert forall|p: Point| #[trigger] before.contains(p) implies after.at(p)@.terrain
            == before.at(p)@.terrain && after.at(p)@.belief == before.at(p)@.belief by {
            assert(after.contains(p));
        }
    }

    /// Whether two tiles are connected depends on the shape and the terrain
    /// alone.
    pub proof fn lemma_connected_by_terrain(&self, other: &Grid, source: Point, target: Point)
        requires
            other.same_shape(self),
            forall|p: Point| #[trigger]
                self.contains(p) ==> other.at(p)@.terrain == self.at(p)@.terrain,
        ensures
            other.connected(source, target) == self.connected(source, target),
    {
        if self.connected(source, target) {
            let route = choose|route: Seq<Point>|
                is_route(self, walkable(), source, target, route);
            assert forall|i: int| 0 <= i < route.len() implies other.contains(#[trigger] route[i])
                && walkable()(other.at(route[i])) by {
                assert(self.contains(route[i]));
            }
            assert(is_route(other, walkable(), source, target, route));
        }
        if other.connected(source, target) {
            let route = choose|route: Seq<Point>|
                is_route(other, walkable(), source, target, route);
            assert forall|i: int| 0 <= i < route.len() implies self.contains(#[trigger] route[i])
                && walkable()(self.at(route[i])) by {
                assert(other.contains(route[i]));
                assert(self.contains(route[i]));
            }
            assert(is_route(self, walkable(), source, target, route));
        }
    }

    /// Forgetting leaves the terrain and the marks as they were.
    pub proof fn lemma_forgot_same_terrain(before: &Grid, after: &Grid)
        requires
            Grid::forgot(before, after),
        ensures
            after.same_terrain(before),
            before.wf() ==> after.wf(),
    {
        assert forall|p: Point| #[trigger] after.contains(p) implies before.contains(p)
            && after.at(p)@.visited == before.at(p)@.visited && after.at(p)@.terrain
            == before.at(p)@.terrain by {
            assert(before.contains(p));
        }
    }

    /// Learning leaves the terrain as it was.
    pub proof fn lemma_learned_same_terrain(before: &Grid, after: &Grid)
        requires
            Grid::learned(before, after),
        ensures
            after.same_terrain(before),
    {
        assert forall|p: Point| #[trigger] after.contains(p) implies after.at(p)@.terrain
            == before.at(p)@.terrain by {
            assert(before.contains(p));
        }
    }

    /// Having the same terrain carries over.
    pub proof fn lemma_same_terrain_twice(first: &Grid, second: &Grid, third: &Grid)
        requires
            second.same_terrain(first),
            third.same_terrain(second),
        ensures
            third.same_terrain(first),
    {
        assert forall|p: Point| #[trigger] third.contains(p) implies third.at(p)@.terrain
            == first.at(p)@.terrain by {
            assert(second.contains(p));
        }
    }

    /// Whether every belief held is true of the terrain. A tile learns
    /// nothing else, so this holds of every grid that `Grid::new` builds, and
    /// looking, forgetting and searching keep it.
    pub open spec fn truthful(&self) -> bool {
        forall|p: Point| #[trigger] self.contains(p) ==> self.at(p)@.truthful()
    }

    /// Looking again from the same point changes nothing.
    pub proof fn law_look_twice(first: &Grid, second: &Grid, third: &Grid, point: Point)
        requires
            Grid::looked(first, second, point),
            Grid::looked(second, third, point),
        ensures
            third.rows() == second.rows(),
            third.episode() == second.episode(),
    {
        assert forall|y: int, x: int|
            0 <= y < second.rows().len() && 0 <= x < second.rows()[y].len() implies (
        #[trigger] third.rows()[y][x]) == second.rows()[y][x] by {
            assert(y < second.tiles.len() && x < second.tiles@[y].len());
            let p = Point { y: y as usize, x: x as usize };
            assert(first.contains(p));
            assert(second.contains(p));
            Tile::lemma_view_determines(third.at(p), second.at(p));
        }
        assert forall|y: int| 0 <= y < second.rows().len() implies (#[trigger] third.rows()[y])
            == second.rows()[y] by {
            assert(third.rows()[y] =~= second.rows()[y]);
        }
        assert(third.rows() =~= second.rows());
    }

    /// Forgetting and looking again from a point brings back every belief
    /// that was held of the tiles seen from there, where the beliefs held
    /// were true.
    pub proof fn law_forget_then_look(known: &Grid, blank: &Grid, seen: &Grid, point: Point)
        requires
            known.truthful(),
            Grid::forgot(known, blank),
            Grid::looked(blank, seen, point),
        ensures
            forall|p: Point|
                known.contains(p) && point.near(p) && known.at(p)@.belief != Belief::Unknown
                    ==> (#[trigger] seen.at(p))@.belief == known.at(p)@.belief,
            forall|p: Point|
                known.contains(p) ==> (#[trigger] seen.at(p))@.terrain == known.at(p)@.terrain,
    {
        assert forall|p: Point| known.contains(p) implies (#[trigger] seen.at(p))@.terrain
            == known.at(p)@.terrain && (point.near(p) && known.at(p)@.belief != Belief::Unknown
            ==> seen.at(p)@.belief == known.at(p)@.belief) by {
            assert(blank.contains(p));
        }
    }

    /// Looking from a point, forgetting and looking from there again leaves
    /// every belief as the first look left it, where nothing was believed
    /// before.
    pub proof fn law_look_forget_look(
        unseen: &Grid,
        known: &Grid,
        blank: &Grid,
        seen: &Grid,
        point: Point,
    )
        requires
            forall|p: Point| #[trigger] unseen.contains(p) ==> unseen.at(p)@.belief == Belief::Unknown,
            Grid::looked(unseen, known, point),
            Grid::forgot(known, blank),
            Grid::looked(blank, seen, point),
        ensures
            seen.rows() == known.rows(),
    {
        assert forall|y: int, x: int|
            0 <= y < known.rows().len() && 0 <= x < known.rows()[y].len() implies (
        #[trigger] seen.rows()[y][x]) == known.rows()[y][x] by {
            assert(y < known.tiles.len() && x < known.tiles@[y].len());
            let p = Point { y: y as usize, x: x as usize };
            assert(unseen.contains(p));
            assert(known.contains(p));
            assert(blank.contains(p));
            Tile::lemma_view_determines(seen.at(p), known.at(p));
        }
        assert forall|y: int| 0 <= y < known.rows().len() implies (#[trigger] seen.rows()[y])
            == known.rows()[y] by {
            assert(seen.rows()[y] =~= known.rows()[y]);
        }
        assert(seen.rows() =~= known.rows());
    }

    /// Grids of the same knowledge believe the truth alike.
    pub proof fn lemma_truthful_by_knowledge(&self, other: &Grid)
        requires
            other.same_knowledge(self),
            self.truthful(),
        ensures
            other.truthful(),
    {
        assert forall|p: Point| #[trigger] other.contains(p) implies other.at(p)@.truthful() by {
            assert(self.contains(p));
        }
    }

    /// Looking and forgetting keep beliefs true.
    pub proof fn law_beliefs_stay_true(before: &Grid, after: &Grid, point: Point)
        requires
            before.truthful(),
            Grid::looked(before, after, point) || Grid::forgot(before, after),
        ensures
            after.truthful(),
    {
        assert forall|p: Point| #[trigger] after.contains(p) implies after.at(p)@.truthful() by {
            assert(before.contains(p));
        }
    }

    /// Looking at the grid is looking at what is known.
    pub proof fn lemma_looked_known(before: &Grid, after: &Grid, point: Point)
        requires
            Grid::looked(before, after, point),
        ensures
            after.known() == look_known(before.known(), point),
    {
        assert forall|y: int, x: int|
            0 <= y < after.rows().len() && 0 <= x < after.rows()[y].len() implies (
        #[trigger] after.known()[y][x]) == look_known(before.known(), point)[y][x] by {
            assert(y < after.tiles.len() && x < after.tiles@[y].len());
            let p = Point { y: y as usize, x: x as usize };
            assert(before.contains(p));
        }
        assert forall|y: int| 0 <= y < after.rows().len() implies (#[trigger] after.known()[y])
            == look_known(before.known(), point)[y] by {
            assert(after.known()[y] =~= look_known(before.known(), point)[y]);
        }
        assert(after.known() =~= look_known(before.known(), point));
    }

    /// Forgetting on the grid is forgetting what is known.
    pub proof fn lemma_forgot_known(before: &Grid, after: &Grid)
        requires
            Grid::forgot(before, after),
        ensures
            after.known() == forget_known(before.known()),
    {
        assert forall|y: int, x: int|
            0 <= y < after.rows().len() && 0 <= x < after.rows()[y].len() implies (
        #[trigger] after.known()[y][x]) == forget_known(before.known())[y][x] by {
            assert(y < after.tiles.len() && x < after.tiles@[y].len());
            let p = Point { y: y as usize, x: x as usize };
            assert(before.contains(p));
        }
        assert forall|y: int| 0 <= y < after.rows().len() implies (#[trigger] after.known()[y])
            == forget_known(before.known())[y] by {
            assert(after.known()[y] =~= forget_known(before.known())[y]);
        }
        assert(after.known() =~= forget_known(before.known()));
    }

    /// Grids of the same knowledge are known alike.
    pub proof fn lemma_same_known(&self, other: &Grid)
        requires
            other.same_knowledge(self),
        ensures
            other.known() == self.known(),
    {
        assert forall|y: int, x: int|
            0 <= y < other.rows().len() && 0 <= x < other.rows()[y].len() implies (
        #[trigger] other.known()[y][x]) == self.known()[y][x] by {
            assert(y < other.tiles.len() && x < other.tiles@[y].len());
            let p = Point { y: y as usize, x: x as usize };
            assert(other.contains(p));
        }
        assert forall|y: int| 0 <= y < other.rows().len() implies (#[trigger] other.known()[y])
            == self.known()[y] by {
            assert(other.known()[y] =~= self.known()[y]);
        }
        assert(other.known() =~= self.known());
    }

    /// The free points of the grid by belief are those of what is known, and
    /// the tiles are as many.
    pub proof fn lemma_free_known(&self)
        ensures
            free_of(self, believed_free()) == free_known(self.known()),
            self.area() == known_area(self.known()),
    {
        assert forall|p: Point| #[trigger]
            free_of(self, believed_free())(p) == free_known(self.known())(p) by {}
        assert(free_of(self, believed_free()) =~= free_known(self.known()));
        lemma_known_area(self.rows(), self.known());
    }

    /// Grids of the same terrain are known alike once they forget.
    pub proof fn lemma_same_terrain_forgotten(&self, other: &Grid)
        requires
            other.same_terrain(self),
        ensures
            forget_known(other.known()) == forget_known(self.known()),
    {
        assert forall|y: int, x: int|
            0 <= y < other.rows().len() && 0 <= x < other.rows()[y].len() implies (
        #[trigger] forget_known(other.known())[y][x]) == forget_known(self.known())[y][x] by {
            assert(y < other.tiles.len() && x < other.tiles@[y].len());
            let p = Point { y: y as usize, x: x as usize };
            assert(other.contains(p));
        }
        assert forall|y: int| 0 <= y < other.rows().len() implies (#[trigger] forget_known(
            other.known(),
        )[y]) == forget_known(self.known())[y] by {
            assert(forget_known(other.known())[y] =~= forget_known(self.known())[y]);
        }
        assert(forget_known(other.known()) =~= forget_known(self.known()));
    }

    /// A grid of the shape of a searchable grid is searchable.
    pub proof fn lemma_searchable_by_shape(&self, other: &Grid)
        requires
            self.searchable(),
            other.same_shape(self),
        ensures
            other.searchable(),
    {
        other.lemma_same_area(self);
    }

    /// Builds the grid of the given rows. The searches are numbered from the
    /// largest number that a tile already bears, which is 0 for new tiles.
    pub fn new(tiles: Vec<Vec<Tile>>) -> (grid: Grid)
        ensures
            grid.rows() == rows_of(tiles),
            grid.wf(),
            (forall|p: Point| #[trigger] grid.contains(p) ==> grid.at(p)@.visited == 0)
                ==> grid.episode() == 0,
            grid.episode() == 0 || exists|p: Point|
                grid.contains(p) && #[trigger] grid.at(p)@.visited == grid.episode(),
            grid.truthful(),
    {
        let mut episode: usize = 0;
        let mut y: usize = 0;
        let ghost mut bearer = Point { y: 0, x: 0 };
        while y < tiles.len()
            invariant
                y <= tiles.len(),
                forall|i: int, j: int|
                    0 <= i < y && 0 <= j < tiles@[i]@.len() ==> (#[trigger] tiles@[i]@[j])@.truthful(),
                episode == 0 || (bearer.y < tiles@.len() && bearer.x < tiles@[bearer.y as int]@.len()
                    && tiles@[bearer.y as int]@[bearer.x as int]@.visited == episode),
                forall|i: int, j: int|
                    0 <= i < y && 0 <= j < tiles@[i]@.len() ==> (#[trigger] tiles@[i]@[j])@.visited
                        <= episode,
                (forall|i: int, j: int|
                    0 <= i < y && 0 <= j < tiles@[i]@.len() ==> (#[trigger] tiles@[i]@[j])@.visited
                        == 0) ==> episode == 0,
            decreases tiles.len() - y,
        {
            let row = &tiles[y];
            let mut x: usize = 0;
            while x < row.len()
                invariant
                    y < tiles.len(),
                    row@ == tiles@[y as int]@,
                    x <= row.len(),
                    forall|i: int, j: int|
                        0 <= i < y && 0 <= j < tiles@[i]@.len() ==> (
                        #[trigger] tiles@[i]@[j])@.truthful(),
                    forall|j: int| 0 <= j < x ==> (#[trigger] row@[j])@.truthful(),
                    episode == 0 || (bearer.y < tiles@.len() && bearer.x
                        < tiles@[bearer.y as int]@.len()
                        && tiles@[bearer.y as int]@[bearer.x as int]@.visited == episode),
                    forall|i: int, j: int|
                        0 <= i < y && 0 <= j < tiles@[i]@.len() ==> (
                        #[trigger] tiles@[i]@[j])@.visited <= episode,
                    forall|j: int| 0 <= j < x ==> (#[trigger] row@[j])@.visited <= episode,
                    ((forall|i: int, j: int|
                        0 <= i < y && 0 <= j < tiles@[i]@.len() ==> (
                        #[trigger] tiles@[i]@[j])@.visited == 0) && (forall|j: int|
                        0 <= j < x ==> (#[trigger] row@[j])@.visited == 0)) ==> episode == 0,
                decreases row.len() - x,
            {
                let tile = &row[x];
                proof {
                    use_type_invariant(tile);
                }
                if tile.visited > episode {
                    episode = tile.visited;
                    proof {
                        bearer = Point { y: y, x: x };
                    }
                }
                x += 1;
            }
            y += 1;
        }
        let grid = Grid { tiles: tiles, episode: episode };
        assert(episode != 0 ==> grid.contains(bearer) && grid.at(bearer)@.visited
            == grid.episode());
        assert forall|p: Point| #[trigger] grid.contains(p) implies grid.at(p)@.truthful() by {
            assert(grid.at(p) == tiles@[p.y as int]@[p.x as int]);
        }
        assert forall|p: Point| #[trigger] grid.contains(p) implies grid.at(p)@.visited
            <= grid.episode() by {
            assert(grid.at(p) == tiles@[p.y as int]@[p.x as int]);
        }
        assert((forall|p: Point| #[trigger] grid.contains(p) ==> grid.at(p)@.visited == 0)
            ==> grid.episode() == 0) by {
            if forall|p: Point| #[trigger] grid.contains(p) ==> grid.at(p)@.visited == 0 {
                assert forall|i: int, j: int|
                    0 <= i < tiles@.len() && 0 <= j < tiles@[i]@.len() implies (
                #[trigger] tiles@[i]@[j])@.visited == 0 by {
                    assert(i < tiles.len() && j < tiles@[i].len());
                    let p = Point { y: i as usize, x: j as usize };
                    assert(grid.contains(p));
                    assert(grid.at(p) == tiles@[i]@[j]);
                }
            }
        }
        grid
    }

    /// The tile at `point`, if the grid has one there.
    pub fn get(&self, point: &Point) -> (found: Option<&Tile>)
        ensures
            found.is_some() == self.contains(*point),
            found.is_some() ==> *found.unwrap() == self.at(*point),
    {
        if point.y < self.tiles.len() {
            let row = &self.tiles[point.y];
            if point.x < row.len() {
                return Some(&row[point.x]);
            }
        }
        None
    }

    /// The tile at `point`, which the grid must have.
    pub fn index(&self, point: &Point) -> (tile: &Tile)
        requires
            self.contains(*point),
        ensures
            *tile == self.at(*point),
    {
        &self.tiles[point.y][point.x]
    }

    /// The tile at `point`, which the grid must have, for changing. What is
    /// done to the tile is done to the grid, and to nothing else in it.
    pub fn index_mut(&mut self, point: &Point) -> (tile: &mut Tile)
        requires
            old(self).contains(*point),
        ensures
            *tile == old(self).at(*point),
            final(self).episode() == old(self).episode(),
            final(self).rows() == with_tile(old(self).rows(), *point, *final(tile)),
    {
        let ghost before = self.tiles;
        let tile = &mut self.tiles[point.y][point.x];
        proof {
            assert(rows_of(after_borrow(self.tiles)) =~= with_tile(
                rows_of(before),
                *point,
                *final(tile),
            ));
        }
        tile
    }

    /// The unmarked tiles are one fewer once a search marks another tile,
    /// and the tiles are as many as before.
    pub proof fn lemma_marking(before: &Grid, after: &Grid, p: Point)
        requires
            before.contains(p),
            !before.marked(p),
            after.episode() == before.episode(),
            after.rows() == with_tile(before.rows(), p, after.at(p)),
            after.at(p)@.visited == after.episode(),
        ensures
            after.unmarked() + 1 == before.unmarked(),
            after.area() == before.area(),
    {
        lemma_rows_marking(before.rows(), p, after.at(p), before.episode());
    }

    /// Where a tile is unmarked, the unmarked tiles are one at least.
    pub proof fn lemma_unmarked_positive(&self, p: Point)
        requires
            self.contains(p),
            !self.marked(p),
        ensures
            self.unmarked() >= 1,
    {
        lemma_rows_unmarked_positive(self.rows(), p, self.episode());
    }

    /// The coordinates of a tile leave room for a neighbour on each side.
    pub proof fn lemma_contains_bounds(&self, p: Point)
        requires
            self.contains(p),
        ensures
            p.y < usize::MAX,
            p.x < usize::MAX,
    {
        assert(p.y < self.tiles.len());
        assert(p.x < self.tiles@[p.y as int].len());
    }

    /// The coordinates of a tile of a searchable grid are at most half of
    /// `usize::MAX`.
    pub proof fn lemma_tile_in_reach(&self, p: Point)
        requires
            self.searchable(),
            self.contains(p),
        ensures
            p.y <= usize::MAX / 2,
            p.x <= usize::MAX / 2,
    {
        lemma_row_within_area(self.rows(), p.y as int);
    }

    /// On a searchable grid the octile distance from a tile to a point, be
    /// it a tile or no farther out than half of `usize::MAX`, is at most half
    /// of what a length can hold.
    pub proof fn lemma_octile_bounded(&self, p: Point, q: Point)
        requires
            self.searchable(),
            self.contains(p),
            self.contains(q) || (q.y <= usize::MAX / 2 && q.x <= usize::MAX / 2),
        ensures
            octile(p, q).straight <= u64::MAX / 2,
            octile(p, q).diagonal <= u64::MAX / 2,
    {
        self.lemma_tile_in_reach(p);
        if self.contains(q) {
            self.lemma_tile_in_reach(q);
        }
    }

    /// On a searchable grid the octile distance serves as the estimate of
    /// the way to any of its tiles, and to any point no farther out than
    /// half of `usize::MAX`.
    pub proof fn lemma_octile_estimates(&self, target: Point)
        requires
            self.searchable(),
            self.contains(target) || (target.y <= usize::MAX / 2 && target.x <= usize::MAX / 2),
        ensures
            estimates(Distance::octile_heuristic, self, target),
    {
        assert forall|p: Point, d: Distance|
            self.contains(p) && #[trigger] call_ensures(
                Distance::octile_heuristic,
                (&p, &target),
                d,
            ) implies d.straight <= u64::MAX / 2 && d.diagonal <= u64::MAX / 2 && d == estimate_of(
            Distance::octile_heuristic,
            target,
        )(p) by {
            self.lemma_octile_bounded(p, target);
        }
    }

    /// The octile distance serves as the price of every move.
    pub proof fn lemma_octile_charges(&self)
        ensures
            charges(Distance::octile_heuristic, self),
    {
        assert forall|from: Point, to: Point|
            self.contains(from) && self.contains(to) implies #[trigger] quotes(
            Distance::octile_heuristic,
            from,
            to,
        ) by {}
    }

    /// Right after `next_episode` no tile is marked.
    pub proof fn lemma_fresh(&self)
        requires
            forall|p: Point| #[trigger] self.contains(p) ==> !self.marked(p),
        ensures
            self.unmarked() == self.area(),
    {
        let rows = self.rows();
        assert forall|y: int, x: int|
            0 <= y < rows.len() && 0 <= x < rows[y].len() implies (#[trigger] rows[y][x])@.visited
            != self.episode() by {
            assert(y < self.tiles.len() && x < self.tiles@[y].len());
            let p = Point { y: y as usize, x: x as usize };
            assert(self.contains(p));
        }
        lemma_rows_fresh(rows, self.episode());
    }

    /// Grids of one shape have as many tiles.
    pub proof fn lemma_same_area(&self, other: &Grid)
        requires
            self.same_shape(other),
        ensures
            self.area() == other.area(),
    {
        lemma_rows_same_count(self.rows(), other.rows());
    }

    /// The number of rows.
    pub fn height(&self) -> (h: usize)
        ensures
            h == self.rows().len(),
    {
        self.tiles.len()
    }

    /// The length of the first row, 0 if there is none.
    pub fn width(&self) -> (w: usize)
        ensures
            w == if self.rows().len() == 0 {
                0
            } else {
                self.rows()[0].len()
            },
    {
        if self.tiles.len() == 0 {
            0
        } else {
            self.tiles[0].len()
        }
    }

    /// The tile at `point` for changing, if the grid has one there. What is
    /// done to the tile is done to the grid, and to nothing else in it.
    pub fn get_mut(&mut self, point: &Point) -> (found: Option<&mut Tile>)
        ensures
            found.is_some() == old(self).contains(*point),
            final(self).episode() == old(self).episode(),
            match found {
                Some(tile) => *tile == old(self).at(*point) && final(self).rows() == with_tile(
                    old(self).rows(),
                    *point,
                    *final(tile),
                ),
                None => final(self).rows() == old(self).rows(),
            },
    {
        if point.y < self.tiles.len() {
            if point.x < self.tiles[point.y].len() {
                let ghost before = self.tiles;
                let tile = &mut self.tiles[point.y][point.x];
                proof {
                    assert(rows_of(after_borrow(self.tiles)) =~= with_tile(
                        rows_of(before),
                        *point,
                        *final(tile),
                    ));
                }
                return Some(tile);
            }
        }
        None
    }

    /// Looks at the tile at `at`, if the grid has one there.
    fn observe(&mut self, at: Point)
        ensures
            final(self).same_shape(old(self)),
            final(self).episode() == old(self).episode(),
            forall|p: Point|
                old(self).contains(p) ==> (#[trigger] final(self).at(p))@ == if p == at {
                    old(self).at(p)@.observed()
                } else {
                    old(self).at(p)@
                },
    {
        if at.y < self.tiles.len() {
            if at.x < self.tiles[at.y].len() {
                self.tiles[at.y][at.x].look();
            }
        }
    }

    /// Learns the terrain at `point` and within one step of it, where it was
    /// unknown.
    pub fn look(&mut self, point: &Point)
        ensures
            Grid::looked(old(self), final(self), *point),
            old(self).truthful() ==> final(self).truthful(),
    {
        let up = point.y > 0;
        let down = point.y < usize::MAX;
        let left = point.x > 0;
        let right = point.x < usize::MAX;
        self.observe(*point);
        if up {
            if left {
                self.observe(Point::new(point.y - 1, point.x - 1));
            }
            self.observe(Point::new(point.y - 1, point.x));
            if right {
                self.observe(Point::new(point.y - 1, point.x + 1));
            }
        }
        if left {
            self.observe(Point::new(point.y, point.x - 1));
        }
        if right {
            self.observe(Point::new(point.y, point.x + 1));
        }
        if down {
            if left {
                self.observe(Point::new(point.y + 1, point.x - 1));
            }
            self.observe(Point::new(point.y + 1, point.x));
            if right {
                self.observe(Point::new(point.y + 1, point.x + 1));
            }
        }
        assert forall|p: Point| #[trigger] old(self).contains(p) implies self.at(p)@ == if point.near(
            p,
        ) {
            old(self).at(p)@.observed()
        } else {
            old(self).at(p)@
        } by {
            let tile = self.at(p);
        }
        proof {
            if old(self).truthful() {
                Grid::law_beliefs_stay_true(old(self), self, *point);
            }
        }
    }

    /// Drops every belief, so that the next trial starts knowing nothing.
    /// The terrain stays.
    pub fn forget(&mut self)
        ensures
            Grid::forgot(old(self), final(self)),
            old(self).truthful() ==> final(self).truthful(),
    {
        let ghost before = self.tiles;
        let mut y: usize = 0;
        while y < self.tiles.len()
            invariant
                y <= self.tiles.len(),
                self.episode == old(self).episode,
                self.tiles@.len() == before@.len(),
                forall|i: int|
                    0 <= i < before@.len() ==> (#[trigger] self.tiles@[i])@.len()
                        == before@[i]@.len(),
                forall|i: int, j: int|
                    0 <= i < y && 0 <= j < before@[i]@.len() ==> (
                    #[trigger] self.tiles@[i]@[j])@ == before@[i]@[j]@.forgotten(),
                forall|i: int, j: int|
                    y <= i < before@.len() && 0 <= j < before@[i]@.len() ==> (
                    #[trigger] self.tiles@[i]@[j]) == before@[i]@[j],
            decreases self.tiles.len() - y,
        {
            let mut x: usize = 0;
            while x < self.tiles[y].len()
                invariant
                    y < self.tiles.len(),
                    x <= self.tiles@[y as int]@.len(),
                    self.episode == old(self).episode,
                    self.tiles@.len() == before@.len(),
                    forall|i: int|
                        0 <= i < before@.len() ==> (#[trigger] self.tiles@[i])@.len()
                            == before@[i]@.len(),
                    forall|i: int, j: int|
                        0 <= i < y && 0 <= j < before@[i]@.len() ==> (
                        #[trigger] self.tiles@[i]@[j])@ == before@[i]@[j]@.forgotten(),
                    forall|j: int|
                        0 <= j < x ==> (#[trigger] self.tiles@[y as int]@[j])@
                            == before@[y as int]@[j]@.forgotten(),
                    forall|j: int|
                        x <= j < before@[y as int]@.len() ==> (
                        #[trigger] self.tiles@[y as int]@[j]) == before@[y as int]@[j],
                    forall|i: int, j: int|
                        y < i < before@.len() && 0 <= j < before@[i]@.len() ==> (
                        #[trigger] self.tiles@[i]@[j]) == before@[i]@[j],
                decreases self.tiles@[y as int]@.len() - x,
            {
                self.tiles[y][x].forget();
                x += 1;
            }
            y += 1;
        }
        proof {
            if old(self).truthful() {
                Grid::law_beliefs_stay_true(old(self), self, Point { y: 0, x: 0 });
            }
        }
    }

    /// Whether the terrain lets a path lead from `source` to `target`. This
    /// is a search by terrain, not by belief: it takes the next number for
    /// searches, whatever is believed and wherever the target lies.
    pub fn has_path(&mut self, source: &Point, target: &Point) -> (found: bool)
        requires
            old(self).wf(),
            old(self).episode() < usize::MAX,
            old(self).searchable(),
            old(self).contains(*source),
        ensures
            found == old(self).connected(*source, *target),
            final(self).wf(),
            final(self).same_knowledge(old(self)),
            final(self).episode() == old(self).episode() + 1,
    {
        if target.y > usize::MAX / 2 || target.x > usize::MAX / 2 {
            // So far out that no tile of a grid that can be searched lies
            // there, and no distance to it could be held: the search is over
            // before it expands a tile.
            proof {
                if self.contains(*target) {
                    self.lemma_tile_in_reach(*target);
                }
                if self.connected(*source, *target) {
                    let route = choose|route: Seq<Point>|
                        is_route(self, walkable(), *source, *target, route);
                    assert(self.contains(route[0]));
                }
            }
            self.next_episode();
            proof {
                assert forall|p: Point| #[trigger] self.contains(p) implies old(self).contains(p)
                    && self.at(p) == old(self).at(p) by {}
            }
            return false;
        }
        proof {
            self.lemma_octile_estimates(*target);
        }
        search(
            self,
            source,
            target,
            Distance::octile_heuristic,
            Tile::passable,
            Ghost(walkable()),
        ).is_some()
    }

    /// Decides whether the grid is small enough to be searched.
    pub fn can_be_searched(&self) -> (r: bool)
        ensures
            r == self.searchable(),
    {
        let limit: usize = usize::MAX / 2;
        if self.tiles.len() > limit {
            return false;
        }
        let mut count: usize = 0;
        let mut y: usize = 0;
        while y < self.tiles.len()
            invariant
                y <= self.tiles.len(),
                limit == usize::MAX / 2,
                count <= limit,
                count == rows_area(self.rows().subrange(0, y as int)),
            decreases self.tiles.len() - y,
        {
            proof {
                lemma_area_of_prefix(self.rows(), y as int);
                lemma_area_of_prefix(self.rows(), y + 1);
            }
            let width = self.tiles[y].len();
            if width > limit - count {
                return false;
            }
            count += width;
            y += 1;
        }
        proof {
            assert(self.rows().subrange(0, y as int) =~= self.rows());
        }
        true
    }

    /// The rows of tiles, one after the other.
    pub fn iter(&self) -> (rows: std::slice::Iter<'_, Vec<Tile>>)
        ensures
            vstd::std_specs::slice::into_iter_elts(rows).len() == self.rows().len(),
            forall|y: int|
                0 <= y < self.rows().len() ==> (#[trigger] vstd::std_specs::slice::into_iter_elts(
                    rows,
                )[y])@ == self.rows()[y],
    {
        self.tiles.iter()
    }

    /// Whether the searches have used up their numbers, so that no further
    /// one can be started.
    pub fn exhausted(&self) -> (r: bool)
        ensures
            r == (self.episode() == usize::MAX),
    {
        self.episode == usize::MAX
    }

    /// How many more searches can be started.
    pub fn episodes_left(&self) -> (n: usize)
        ensures
            n == usize::MAX - self.episode(),
    {
        usize::MAX - self.episode
    }

    /// Starts a new search and gives its number, which marks no tile yet.
    pub fn next_episode(&mut self) -> (episode: usize)
        requires
            old(self).episode() < usize::MAX,
        ensures
            final(self).rows() == old(self).rows(),
            final(self).episode() == old(self).episode() + 1,
            episode == final(self).episode(),
    {
        self.episode += 1;
        self.episode
    }
}

} // verus!
