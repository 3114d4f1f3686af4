use vstd::arithmetic::div_mod::lemma_fundamental_div_mod;
use vstd::prelude::*;

verus! {

/// Largest magnitude of a coordinate that the geometry in this crate accepts.
/// Differences of two such coordinates still fit in an `i64`, and products of
/// two differences fit in an `i128`.
pub const COORD_LIMIT: i64 = 0x2000_0000_0000_0000;

/// A point or displacement on the integer lattice.
#[derive(Clone, Copy, Debug, PartialEq, Eq, Structural)]
pub struct Vec2 {
    pub x: i64,
    pub y: i64,
}

impl View for Vec2 {
    type V = (int, int);

    open spec fn view(&self) -> (int, int) {
        (self.x as int, self.y as int)
    }
}

pub open spec fn v_add(a: (int, int), b: (int, int)) -> (int, int) {
    (a.0 + b.0, a.1 + b.1)
}

pub open spec fn v_sub(a: (int, int), b: (int, int)) -> (int, int) {
    (a.0 - b.0, a.1 - b.1)
}

pub open spec fn v_neg(a: (int, int)) -> (int, int) {
    (-a.0, -a.1)
}

pub open spec fn v_scale(a: (int, int), k: int) -> (int, int) {
    (a.0 * k, a.1 * k)
}

/// Exact division of both components; meaningful where `k` divides both.
pub open spec fn v_div(a: (int, int), k: int) -> (int, int) {
    (a.0 / k, a.1 / k)
}

pub open spec fn v_dot(a: (int, int), b: (int, int)) -> int {
    a.0 * b.0 + a.1 * b.1
}

pub open spec fn v_cross(a: (int, int), b: (int, int)) -> int {
    a.0 * b.1 - a.1 * b.0
}

pub open spec fn fits_i64(v: (int, int)) -> bool {
    i64::MIN <= v.0 <= i64::MAX && i64::MIN <= v.1 <= i64::MAX
}

/// Both coordinates lie within `COORD_LIMIT` of the origin.
pub open spec fn in_range(v: (int, int)) -> bool {
    -COORD_LIMIT <= v.0 <= COORD_LIMIT && -COORD_LIMIT <= v.1 <= COORD_LIMIT
}

/// Both components of a difference of two in-range points fit this bound.
pub open spec fn in_span(v: (int, int)) -> bool {
    -2 * COORD_LIMIT <= v.0 <= 2 * COORD_LIMIT && -2 * COORD_LIMIT <= v.1 <= 2 * COORD_LIMIT
}

/// The points of a sequence, as pairs of mathematical integers.
pub open spec fn points_view(s: Seq<Vec2>) -> Seq<(int, int)> {
    s.map_values(|v: Vec2| v@)
}

proof fn lemma_span_products(a: int, b: int, c: int, d: int)
    requires
        -2 * COORD_LIMIT <= a <= 2 * COORD_LIMIT,
        -2 * COORD_LIMIT <= b <= 2 * COORD_LIMIT,
        -2 * COORD_LIMIT <= c <= 2 * COORD_LIMIT,
        -2 * COORD_LIMIT <= d <= 2 * COORD_LIMIT,
    ensures
        -0x1000_0000_0000_0000_0000_0000_0000_0000 <= a * c <= 0x1000_0000_0000_0000_0000_0000_0000_0000,
        -0x1000_0000_0000_0000_0000_0000_0000_0000 <= b * d <= 0x1000_0000_0000_0000_0000_0000_0000_0000,
        -0x1000_0000_0000_0000_0000_0000_0000_0000 <= a * d <= 0x1000_0000_0000_0000_0000_0000_0000_0000,
        -0x1000_0000_0000_0000_0000_0000_0000_0000 <= b * c <= 0x1000_0000_0000_0000_0000_0000_0000_0000,
{
    let l = 2 * COORD_LIMIT;
    assert(l == 0x4000_0000_0000_0000);
    assert(l * l == 0x1000_0000_0000_0000_0000_0000_0000_0000) by (nonlinear_arith)
        requires
            l == 0x4000_0000_0000_0000,
    ;
    assert(-l * l <= a * c <= l * l && -l * l <= b * d <= l * l && -l * l <= a * d <= l * l && -l * l <= b * c <= l * l) by (nonlinear_arith)
        requires
            -l <= a <= l,
            -l <= b <= l,
            -l <= c <= l,
            -l <= d <= l,
    ;
}

/// The quotient of `a` by `k`, which divides it.
fn div_exact(a: i64, k: i64) -> (q: i64)
    requires
        k != 0,
        a % k == 0,
        i64::MIN <= a / k <= i64::MAX,
    ensures
        q == a / k,
{
    match a.checked_div_euclid(k) {
        Some(q) => q,
        None => 0,
    }
}

/// Builds a vector from its two components.
pub fn vec2(x: i64, y: i64) -> (r: Vec2)
    ensures
        r.x == x,
        r.y == y,
{
    Vec2 { x, y }
}

impl Vec2 {
    /// Component-wise sum.
    pub fn add(self, rhs: Vec2) -> (r: Vec2)
        requires
            fits_i64(v_add(self@, rhs@)),
        ensures
            r@ == v_add(self@, rhs@),
    {
        Vec2 { x: self.x + rhs.x, y: self.y + rhs.y }
    }

    /// Component-wise difference.
    pub fn sub(self, rhs: Vec2) -> (r: Vec2)
        requires
            fits_i64(v_sub(self@, rhs@)),
        ensures
            r@ == v_sub(self@, rhs@),
    {
        Vec2 { x: self.x - rhs.x, y: self.y - rhs.y }
    }

    /// The opposite vector.
    pub fn neg(self) -> (r: Vec2)
        requires
            fits_i64(v_neg(self@)),
        ensures
            r@ == v_neg(self@),
    {
        Vec2 { x: -self.x, y: -self.y }
    }

    /// Both components multiplied by `k`.
    pub fn mul(self, k: i64) -> (r: Vec2)
        requires
            fits_i64(v_scale(self@, k as int)),
        ensures
            r@ == v_scale(self@, k as int),
    {
        Vec2 { x: self.x * k, y: self.y * k }
    }

    /// The dot product, exact in 128 bits.
    pub fn dot(self, rhs: Vec2) -> (r: i128)
        requires
            in_span(self@),
            in_span(rhs@),
        ensures
            r == v_dot(self@, rhs@),
    {
        let (a, b, c, d) = (self.x as i128, self.y as i128, rhs.x as i128, rhs.y as i128);
        proof {
            lemma_span_products(a as int, b as int, c as int, d as int);
        }
        a * c + b * d
    }

    /// The cross product (the signed area of the parallelogram spanned by the
    /// two vectors), exact in 128 bits.
    pub fn cross(self, rhs: Vec2) -> (r: i128)
        requires
            in_span(self@),
            in_span(rhs@),
        ensures
            r == v_cross(self@, rhs@),
    {
        let (a, b, c, d) = (self.x as i128, self.y as i128, rhs.x as i128, rhs.y as i128);
        proof {
            lemma_span_products(a as int, b as int, c as int, d as int);
        }
        a * d - b * c
    }

    /// Both components divided by `k`, which must divide them exactly. The
    /// quotient must fit in an `i64` (only `i64::MIN / -1` does not).
    pub fn div(self, k: i64) -> (r: Vec2)
        requires
            k != 0,
            self.x % k == 0,
            self.y % k == 0,
            fits_i64(v_div(self@, k as int)),
        ensures
            r@ == v_div(self@, k as int),
            v_scale(r@, k as int) == self@,
    {
        let x = div_exact(self.x, k);
        let y = div_exact(self.y, k);
        proof {
            lemma_fundamental_div_mod(self.x as int, k as int);
            lemma_fundamental_div_mod(self.y as int, k as int);
            assert(x * k == self.x && y * k == self.y) by (nonlinear_arith)
                requires
                    self.x == k * (self.x / k),
                    self.y == k * (self.y / k),
                    x == self.x / k,
                    y == self.y / k,
            ;
        }
        Vec2 { x, y }
    }
}

} // verus!
