//! Integer vectors: the mathematical model, and the two executable types
//! that carry a place and an axis.

use vstd::prelude::*;

verus! {

/// A vector of three unbounded integers: what contracts speak of.
pub struct Vector {
    pub x: int,
    pub y: int,
    pub z: int,
}

/// The dot product of two vectors.
pub open spec fn dot(a: Vector, b: Vector) -> int {
    a.x * b.x + a.y * b.y + a.z * b.z
}

/// The squared length of a vector.
pub open spec fn norm_sq(a: Vector) -> int {
    dot(a, a)
}

/// The vector that leads from `from` to `to`.
pub open spec fn between(from: Vector, to: Vector) -> Vector {
    Vector { x: to.x - from.x, y: to.y - from.y, z: to.z - from.z }
}

/// The cross product of two vectors; it is zero exactly when they lie on one line.
pub open spec fn cross(a: Vector, b: Vector) -> Vector {
    Vector { x: a.y * b.z - a.z * b.y, y: a.z * b.x - a.x * b.z, z: a.x * b.y - a.y * b.x }
}

/// Whether every component is zero.
pub open spec fn is_zero(a: Vector) -> bool {
    a.x == 0 && a.y == 0 && a.z == 0
}

/// A squared length is never negative, and is zero only for the zero vector.
pub proof fn lemma_norm_sq_sign(a: Vector)
    ensures
        norm_sq(a) >= 0,
        norm_sq(a) == 0 <==> is_zero(a),
{
    assert(a.x * a.x >= 0 && (a.x * a.x == 0 <==> a.x == 0)) by (nonlinear_arith);
    assert(a.y * a.y >= 0 && (a.y * a.y == 0 <==> a.y == 0)) by (nonlinear_arith);
    assert(a.z * a.z >= 0 && (a.z * a.z == 0 <==> a.z == 0)) by (nonlinear_arith);
}

/// The square of a product is the product of the squares.
proof fn lemma_square_of_product(a: int, b: int)
    ensures
        (a * b) * (a * b) == (a * a) * (b * b),
{
    assert((a * b) * (a * b) == (a * a) * (b * b)) by (nonlinear_arith);
}

/// One component of a cross product, squared and written out.
proof fn lemma_cross_term(a1: int, a2: int, b1: int, b2: int)
    ensures
        (a1 * b2 - a2 * b1) * (a1 * b2 - a2 * b1) == (a1 * a1) * (b2 * b2) + (a2 * a2) * (b1
            * b1) - 2 * ((a1 * b1) * (a2 * b2)),
{
    let u = a1 * b2;
    let v = a2 * b1;
    lemma_square_of_product(a1, b2);
    lemma_square_of_product(a2, b1);
    assert((u - v) * (u - v) == u * u + v * v - 2 * (u * v)) by (nonlinear_arith);
    assert(u * v == (a1 * b1) * (a2 * b2)) by {
        vstd::arithmetic::mul::lemma_mul_is_associative(a1, b2, a2 * b1);
        vstd::arithmetic::mul::lemma_mul_is_associative(b2, a2, b1);
        vstd::arithmetic::mul::lemma_mul_is_commutative(b2, a2);
        vstd::arithmetic::mul::lemma_mul_is_associative(a2, b2, b1);
        vstd::arithmetic::mul::lemma_mul_is_commutative(a2 * b2, b1);
        vstd::arithmetic::mul::lemma_mul_is_associative(a1, b1, a2 * b2);
    }
}

/// Lagrange's identity: the product of two squared lengths is the squared dot
/// product plus the squared length of the cross product.
pub proof fn lemma_lagrange(a: Vector, b: Vector)
    ensures
        norm_sq(a) * norm_sq(b) == dot(a, b) * dot(a, b) + norm_sq(cross(a, b)),
{
    let (sx, sy, sz) = (a.x * a.x, a.y * a.y, a.z * a.z);
    let (tx, ty, tz) = (b.x * b.x, b.y * b.y, b.z * b.z);
    let (p, q, r) = (a.x * b.x, a.y * b.y, a.z * b.z);
    lemma_square_of_product(a.x, b.x);
    lemma_square_of_product(a.y, b.y);
    lemma_square_of_product(a.z, b.z);
    lemma_cross_term(a.y, a.z, b.y, b.z);
    lemma_cross_term(a.z, a.x, b.z, b.x);
    lemma_cross_term(a.x, a.y, b.x, b.y);
    assert((sx + sy + sz) * (tx + ty + tz) == sx * tx + sx * ty + sx * tz + sy * tx + sy * ty
        + sy * tz + sz * tx + sz * ty + sz * tz) by (nonlinear_arith);
    assert((p + q + r) * (p + q + r) == p * p + q * q + r * r + 2 * (p * q) + 2 * (q * r) + 2
        * (r * p)) by (nonlinear_arith);
}

/// The Cauchy-Schwarz inequality, with equality exactly for vectors on one line.
pub proof fn lemma_cauchy_schwarz(a: Vector, b: Vector)
    ensures
        dot(a, b) * dot(a, b) <= norm_sq(a) * norm_sq(b),
        dot(a, b) * dot(a, b) == norm_sq(a) * norm_sq(b) <==> is_zero(cross(a, b)),
{
    lemma_lagrange(a, b);
    lemma_norm_sq_sign(cross(a, b));
}

/// The largest magnitude of a coordinate of a [`Position`].
pub const MAX_COORDINATE: i32 = 100_000_000;

/// Whether a coordinate lies within [`MAX_COORDINATE`] of zero.
pub open spec fn coordinate_fits(c: int) -> bool {
    -MAX_COORDINATE <= c <= MAX_COORDINATE
}

/// The coordinate nearest to `c` that fits.
pub open spec fn nearest_coordinate(c: int) -> int {
    if c < -MAX_COORDINATE {
        -MAX_COORDINATE as int
    } else if c > MAX_COORDINATE {
        MAX_COORDINATE as int
    } else {
        c
    }
}

/// The coordinate nearest to `c` that fits.
fn nearest(c: i32) -> (r: i32)
    ensures
        r == nearest_coordinate(c as int),
        coordinate_fits(r as int),
{
    if c < -MAX_COORDINATE {
        -MAX_COORDINATE
    } else if c > MAX_COORDINATE {
        MAX_COORDINATE
    } else {
        c
    }
}

/// A place in the world, in thousandths of a world unit, each coordinate
/// within [`MAX_COORDINATE`] of zero.
#[derive(Clone, Copy, Debug, PartialEq, Eq)]
pub struct Position {
    x: i32,
    y: i32,
    z: i32,
}

impl Position {
    #[verifier::type_invariant]
    spec fn in_range(self) -> bool {
        coordinate_fits(self.x as int) && coordinate_fits(self.y as int) && coordinate_fits(
            self.z as int,
        )
    }

    /// The place as a vector of integers.
    pub closed spec fn view(&self) -> Vector {
        Vector { x: self.x as int, y: self.y as int, z: self.z as int }
    }

    /// The place with the given coordinates, if each of them fits.
    pub fn new(x: i32, y: i32, z: i32) -> (r: Option<Position>)
        ensures
            r.is_some() <==> coordinate_fits(x as int) && coordinate_fits(y as int)
                && coordinate_fits(z as int),
            r matches Some(p) ==> p@ == (Vector { x: x as int, y: y as int, z: z as int }),
    {
        if -MAX_COORDINATE <= x && x <= MAX_COORDINATE && -MAX_COORDINATE <= y && y
            <= MAX_COORDINATE && -MAX_COORDINATE <= z && z <= MAX_COORDINATE {
            Some(Position { x, y, z })
        } else {
            None
        }
    }

    /// The place nearest to the given coordinates: each coordinate that does
    /// not fit is moved to the nearer end of the range.
    pub fn clamped(x: i32, y: i32, z: i32) -> (r: Position)
        ensures
            r@ == (Vector {
                x: nearest_coordinate(x as int),
                y: nearest_coordinate(y as int),
                z: nearest_coordinate(z as int),
            }),
    {
        Position { x: nearest(x), y: nearest(y), z: nearest(z) }
    }

    /// The point that all coordinates are measured from.
    pub fn origin() -> (r: Position)
        ensures
            r@ == (Vector { x: 0, y: 0, z: 0 }),
    {
        Position { x: 0, y: 0, z: 0 }
    }

    /// The first coordinate.
    pub fn x(&self) -> (c: i32)
        ensures
            c == self@.x,
            coordinate_fits(c as int),
    {
        proof {
            use_type_invariant(self);
        }
        self.x
    }

    /// The second coordinate.
    pub fn y(&self) -> (c: i32)
        ensures
            c == self@.y,
            coordinate_fits(c as int),
    {
        proof {
            use_type_invariant(self);
        }
        self.y
    }

    /// The third coordinate.
    pub fn z(&self) -> (c: i32)
        ensures
            c == self@.z,
            coordinate_fits(c as int),
    {
        proof {
            use_type_invariant(self);
        }
        self.z
    }
}

/// An axis, given by any vector along it. Its length does not matter; the zero
/// vector names no axis.
#[derive(Clone, Copy, Debug, PartialEq, Eq)]
pub struct Direction {
    pub x: i16,
    pub y: i16,
    pub z: i16,
}

impl Direction {
    /// The axis as a vector of integers.
    pub open spec fn view(&self) -> Vector {
        Vector { x: self.x as int, y: self.y as int, z: self.z as int }
    }

    /// The axis along the given vector.
    pub fn new(x: i16, y: i16, z: i16) -> (r: Direction)
        ensures
            r == (Direction { x, y, z }),
    {
        Direction { x, y, z }
    }
}

} // verus!
