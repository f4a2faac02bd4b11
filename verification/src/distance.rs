//! Exact lengths of paths on an eight-connected grid.
//!
//! A straight step is 1 long and a diagonal step √2, so every path length is
//! `a + b·√2` with whole `a` and `b`. Such numbers are kept as the pair
//! `(a, b)` and compared without rounding.

use vstd::prelude::*;

verus! {

/// Whether `a + b·√2` is zero or more, decided over the integers.
pub open spec fn surd_nonneg(a: int, b: int) -> bool {
    if a >= 0 {
        b >= 0 || a * a >= 2 * (b * b)
    } else {
        b >= 0 && 2 * (b * b) >= a * a
    }
}

/// The length `straight + diagonal·√2`.
#[derive(Clone, Copy, Debug, PartialEq, Eq, Structural)]
pub struct Distance {
    pub straight: u64,
    pub diagonal: u64,
}

impl Distance {
    /// `self <= other` as real numbers.
    pub open spec fn spec_le(&self, other: &Distance) -> bool {
        surd_nonneg(other.straight - self.straight, other.diagonal - self.diagonal)
    }

    /// `self < other` as real numbers.
    pub open spec fn spec_lt(&self, other: &Distance) -> bool {
        !other.spec_le(self)
    }

    /// The square of the length, where the length is all straight or all
    /// diagonal.
    pub open spec fn squared(&self) -> int {
        self.straight * self.straight + 2 * (self.diagonal * self.diagonal)
    }

    /// The number of steps, of either kind, that the length is made of.
    pub open spec fn steps(&self) -> int {
        self.straight + self.diagonal
    }

    /// Whether both parts of `self + other` fit their fields.
    pub open spec fn fits_with(&self, other: &Distance) -> bool {
        self.straight + other.straight <= u64::MAX && self.diagonal + other.diagonal <= u64::MAX
    }

    /// The sum `self + other`, part by part.
    pub open spec fn spec_plus(&self, other: &Distance) -> Distance {
        Distance {
            straight: (self.straight + other.straight) as u64,
            diagonal: (self.diagonal + other.diagonal) as u64,
        }
    }

    pub fn new(straight: u64, diagonal: u64) -> (d: Distance)
        ensures
            d == (Distance { straight, diagonal }),
    {
        Distance { straight, diagonal }
    }

    /// The length of no path at all.
    pub fn zero() -> (d: Distance)
        ensures
            d == (Distance { straight: 0, diagonal: 0 }),
    {
        Distance { straight: 0, diagonal: 0 }
    }

    pub fn straight(&self) -> (a: u64)
        ensures
            a == self.straight,
    {
        self.straight
    }

    pub fn diagonal(&self) -> (b: u64)
        ensures
            b == self.diagonal,
    {
        self.diagonal
    }

    /// Compares two lengths exactly.
    #[verifier::when_used_as_spec(spec_le)]
    pub fn le(&self, other: &Distance) -> (r: bool)
        ensures
            r == self.spec_le(other),
    {
        let up: bool = other.straight >= self.straight;
        let a: u128 = if up {
            (other.straight - self.straight) as u128
        } else {
            (self.straight - other.straight) as u128
        };
        let right: bool = other.diagonal >= self.diagonal;
        let b: u128 = if right {
            (other.diagonal - self.diagonal) as u128
        } else {
            (self.diagonal - other.diagonal) as u128
        };
        assert(a * a <= 0xffff_ffff_ffff_ffff * 0xffff_ffff_ffff_ffff) by (nonlinear_arith)
            requires
                0 <= a <= 0xffff_ffff_ffff_ffff,
        ;
        assert(b * b <= 0xffff_ffff_ffff_ffff * 0xffff_ffff_ffff_ffff) by (nonlinear_arith)
            requires
                0 <= b <= 0xffff_ffff_ffff_ffff,
        ;
        let aa: u128 = a * a;
        let bb: u128 = b * b;
        proof {
            let x = other.straight - self.straight;
            let y = other.diagonal - self.diagonal;
            assert(x * x == a * a) by (nonlinear_arith)
                requires
                    x == a || x == -a,
            ;
            assert(y * y == b * b) by (nonlinear_arith)
                requires
                    y == b || y == -b,
            ;
        }
        if up {
            // a² >= 2b², without doubling b²
            right || bb <= aa / 2
        } else {
            right && bb >= aa / 2 + aa % 2
        }
    }

    /// Compares two lengths exactly, strictly.
    #[verifier::when_used_as_spec(spec_lt)]
    pub fn lt(&self, other: &Distance) -> (r: bool)
        ensures
            r == self.spec_lt(other),
    {
        !other.le(self)
    }

    /// Adds two lengths whose sum fits.
    #[verifier::when_used_as_spec(spec_plus)]
    pub fn plus(&self, other: &Distance) -> (sum: Distance)
        requires
            self.fits_with(other),
        ensures
            sum == self.spec_plus(other),
            sum.straight == self.straight + other.straight,
            sum.diagonal == self.diagonal + other.diagonal,
    {
        Distance {
            straight: self.straight + other.straight,
            diagonal: self.diagonal + other.diagonal,
        }
    }

    /// Adds two lengths, or says that the sum does not fit.
    pub fn checked_plus(&self, other: &Distance) -> (sum: Option<Distance>)
        ensures
            sum.is_some() == self.fits_with(other),
            sum.is_some() ==> sum.unwrap() == self.spec_plus(other),
    {
        if other.straight <= u64::MAX - self.straight && other.diagonal <= u64::MAX
            - self.diagonal {
            Some(self.plus(other))
        } else {
            None
        }
    }
}

/// Whether `root` is the whole part of the square root of `n`.
pub open spec fn is_floor_root(root: int, n: int) -> bool {
    0 <= root && root * root <= n < (root + 1) * (root + 1)
}

/// The whole part of the square root of `n`.
pub fn floor_root(n: u128) -> (root: u64)
    ensures
        is_floor_root(root as int, n as int),
{
    let mut low: u128 = 0;
    let mut high: u128 = 0x1_0000_0000_0000_0000;
    assert(high * high > n) by (nonlinear_arith)
        requires
            high == 0x1_0000_0000_0000_0000,
            n <= u128::MAX,
    ;
    while high - low > 1
        invariant
            low < high <= 0x1_0000_0000_0000_0000,
            low * low <= n < high * high,
        decreases high - low,
    {
        let mid: u128 = low + (high - low) / 2;
        assert(mid * mid <= 0xffff_ffff_ffff_ffff * 0xffff_ffff_ffff_ffff) by (nonlinear_arith)
            requires
                0 <= mid <= 0xffff_ffff_ffff_ffff,
        ;
        if mid * mid <= n {
            low = mid;
        } else {
            high = mid;
        }
    }
    low as u64
}

/// Squares grow with their roots.
pub proof fn lemma_square_le(u: int, v: int)
    by (nonlinear_arith)
    requires
        0 <= u <= v,
    ensures
        u * u <= v * v,
{
}

/// Squares grow strictly with their roots.
pub proof fn lemma_square_lt(u: int, v: int)
    by (nonlinear_arith)
    requires
        0 <= u < v,
    ensures
        u * u < v * v,
{
}

/// Products grow with their factors.
proof fn lemma_product_le(p: int, q: int, r: int, t: int)
    by (nonlinear_arith)
    requires
        0 <= p <= q,
        0 <= r <= t,
    ensures
        p * r <= q * t,
{
}

/// Multiplying by √2 keeps the sign: `a + b·√2` and `2b + a·√2` agree.
proof fn lemma_surd_turn(a: int, b: int)
    ensures
        surd_nonneg(a, b) == surd_nonneg(2 * b, a),
{
    assert((2 * b) * (2 * b) == 4 * (b * b)) by (nonlinear_arith);
}

/// With `b < 0`: the whole part of the sum outweighs its negative root part.
proof fn lemma_surd_sum_below(a: int, b: int, c: int, d: int)
    requires
        surd_nonneg(a, b),
        surd_nonneg(c, d),
        a + c >= 0,
        b + d < 0,
        b < 0,
    ensures
        (a + c) * (a + c) >= 2 * ((b + d) * (b + d)),
{
    let p = -b;
    assert(p * p == b * b) by (nonlinear_arith)
        requires
            p == -b,
    ;
    assert((a + c) * (a + c) == a * a + 2 * (a * c) + c * c) by (nonlinear_arith);
    if d < 0 {
        let q = -d;
        assert(q * q == d * d) by (nonlinear_arith)
            requires
                q == -d,
        ;
        assert((b + d) * (b + d) == p * p + 2 * (p * q) + q * q) by (nonlinear_arith)
            requires
                p == -b,
                q == -d,
        ;
        assert(0 <= a * c) by (nonlinear_arith)
            requires
                a >= 0,
                c >= 0,
        ;
        if a * c < 2 * (p * q) {
            lemma_square_lt(a * c, 2 * (p * q));
            lemma_product_le(2 * (p * p), a * a, 2 * (q * q), c * c);
            assert((a * c) * (a * c) == (a * a) * (c * c)) by (nonlinear_arith);
            assert((2 * (p * q)) * (2 * (p * q)) == (2 * (p * p)) * (2 * (q * q)))
                by (nonlinear_arith);
        }
    } else if c >= 0 {
        lemma_square_le(a, a + c);
        lemma_square_le(p - d, p);
        assert((b + d) * (b + d) == (p - d) * (p - d)) by (nonlinear_arith)
            requires
                p == -b,
        ;
    } else {
        let m = -c;
        let big = a - m;
        let gap = p - d;
        assert(m * m == c * c) by (nonlinear_arith)
            requires
                m == -c,
        ;
        assert((b + d) * (b + d) == gap * gap) by (nonlinear_arith)
            requires
                gap == -(b + d),
        ;
        if big * big < 2 * (gap * gap) {
            assert(a * a == big * big + 2 * (big * m) + m * m) by (nonlinear_arith)
                requires
                    a == big + m,
            ;
            assert(p * p == gap * gap + 2 * (gap * d) + d * d) by (nonlinear_arith)
                requires
                    p == gap + d,
            ;
            assert(0 <= gap * d) by (nonlinear_arith)
                requires
                    gap > 0,
                    d >= 0,
            ;
            assert(big * m > 2 * (gap * d));
            lemma_square_lt(2 * (gap * d), big * m);
            lemma_product_le(big * big, 2 * (gap * gap), m * m, 2 * (d * d));
            assert((big * m) * (big * m) == (big * big) * (m * m)) by (nonlinear_arith);
            assert((2 * (gap * d)) * (2 * (gap * d)) == (2 * (gap * gap)) * (2 * (d * d)))
                by (nonlinear_arith);
            assert(0 <= big * big) by (nonlinear_arith);
            assert(0 <= m * m) by (nonlinear_arith);
        }
    }
}

/// With a negative root part in the sum: the whole part outweighs it.
proof fn lemma_surd_sum_upper(a: int, b: int, c: int, d: int)
    requires
        surd_nonneg(a, b),
        surd_nonneg(c, d),
        a + c >= 0,
        b + d < 0,
    ensures
        (a + c) * (a + c) >= 2 * ((b + d) * (b + d)),
{
    if b < 0 {
        lemma_surd_sum_below(a, b, c, d);
    } else {
        lemma_surd_sum_below(c, d, a, b);
        assert((c + a) * (c + a) == (a + c) * (a + c)) by (nonlinear_arith);
        assert((d + b) * (d + b) == (b + d) * (b + d)) by (nonlinear_arith);
    }
}

/// The sum of two numbers that are zero or more is zero or more.
pub proof fn lemma_surd_nonneg_sum(a: int, b: int, c: int, d: int)
    requires
        surd_nonneg(a, b),
        surd_nonneg(c, d),
    ensures
        surd_nonneg(a + c, b + d),
{
    let x = a + c;
    let y = b + d;
    if x >= 0 && y >= 0 {
    } else if x >= 0 {
        lemma_surd_sum_upper(a, b, c, d);
    } else if y >= 0 {
        lemma_surd_turn(a, b);
        lemma_surd_turn(c, d);
        lemma_surd_sum_upper(2 * b, a, 2 * d, c);
        assert((2 * b + 2 * d) * (2 * b + 2 * d) == 4 * ((b + d) * (b + d)))
            by (nonlinear_arith);
    } else {
        // Both parts negative: one summand would have to be below zero.
        if a < 0 {
            // b > 0 > d, c >= 0
            lemma_square_lt(c, -a);
            lemma_square_lt(b, -d);
            assert((-a) * (-a) == a * a) by (nonlinear_arith);
            assert((-d) * (-d) == d * d) by (nonlinear_arith);
        } else {
            lemma_square_lt(a, -c);
            lemma_square_lt(d, -b);
            assert((-c) * (-c) == c * c) by (nonlinear_arith);
            assert((-b) * (-b) == b * b) by (nonlinear_arith);
        }
    }
}

/// √2 is no fraction: only 0 has a square that is twice a square.
pub proof fn lemma_root_two_irrational(x: nat, y: nat)
    requires
        x * x == 2 * (y * y),
    ensures
        x == 0,
        y == 0,
    decreases x,
{
    if x > 0 {
        let a = x / 2;
        if x % 2 == 1 {
            assert(x * x == 2 * (2 * (a * a) + 2 * a) + 1) by (nonlinear_arith)
                requires
                    x == 2 * a + 1,
            ;
        } else {
            assert(x * x == 4 * (a * a)) by (nonlinear_arith)
                requires
                    x == 2 * a,
            ;
            let b = y / 2;
            if y % 2 == 1 {
                assert(y * y == 2 * (2 * (b * b) + 2 * b) + 1) by (nonlinear_arith)
                    requires
                        y == 2 * b + 1,
                ;
            } else {
                assert(y * y == 4 * (b * b)) by (nonlinear_arith)
                    requires
                        y == 2 * b,
                ;
                lemma_root_two_irrational(a, b);
            }
        }
    } else {
        assert(y * y == 0);
        assert(y == 0) by (nonlinear_arith)
            requires
                y * y == 0,
        ;
    }
}

impl Distance {
    /// Of two lengths one is no more than the other.
    pub proof fn lemma_le_total(a: Distance, b: Distance)
        ensures
            a.spec_le(&b) || b.spec_le(&a),
    {
        let x = b.straight - a.straight;
        let y = b.diagonal - a.diagonal;
        assert((-x) * (-x) == x * x) by (nonlinear_arith);
        assert((-y) * (-y) == y * y) by (nonlinear_arith);
    }

    /// Lengths that are no more than each other are the same pair of counts:
    /// no whole number of straight steps is as long as a whole number of
    /// diagonal steps.
    pub proof fn lemma_le_antisymmetric(a: Distance, b: Distance)
        requires
            a.spec_le(&b),
            b.spec_le(&a),
        ensures
            a == b,
    {
        let x = b.straight - a.straight;
        let y = b.diagonal - a.diagonal;
        let back_x = a.straight - b.straight;
        let back_y = a.diagonal - b.diagonal;
        assert(back_x * back_x == x * x) by (nonlinear_arith)
            requires
                back_x == -x,
        ;
        assert(back_y * back_y == y * y) by (nonlinear_arith)
            requires
                back_y == -y,
        ;
        assert(x != 0 ==> x * x > 0) by (nonlinear_arith);
        assert(y != 0 ==> y * y > 0) by (nonlinear_arith);
        assert(x == 0 ==> x * x == 0) by (nonlinear_arith);
        assert(y == 0 ==> y * y == 0) by (nonlinear_arith);
        assert(surd_nonneg(x, y));
        assert(surd_nonneg(back_x, back_y));
        if x != 0 {
            // Both ways round the root part outweighs the whole part exactly.
            assert(x * x == 2 * (y * y));
            let u = if x >= 0 {
                x as nat
            } else {
                (-x) as nat
            };
            let v = if y >= 0 {
                y as nat
            } else {
                (-y) as nat
            };
            assert(u * u == x * x) by (nonlinear_arith)
                requires
                    u == x || u == -x,
            ;
            assert(v * v == y * y) by (nonlinear_arith)
                requires
                    v == y || v == -y,
            ;
            lemma_root_two_irrational(u, v);
        }
    }

    /// The order of lengths is transitive.
    pub proof fn lemma_le_transitive(a: Distance, b: Distance, c: Distance)
        requires
            a.spec_le(&b),
            b.spec_le(&c),
        ensures
            a.spec_le(&c),
    {
        lemma_surd_nonneg_sum(
            b.straight - a.straight,
            b.diagonal - a.diagonal,
            c.straight - b.straight,
            c.diagonal - b.diagonal,
        );
    }
}

} // verus!
