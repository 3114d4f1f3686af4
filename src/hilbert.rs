use vstd::arithmetic::div_mod::{
    lemma_fundamental_div_mod, lemma_fundamental_div_mod_converse, lemma_mod_multiples_basic,
    lemma_mod_self_0, lemma_small_mod,
};
use vstd::arithmetic::power::{lemma_pow_positive, pow};
use vstd::arithmetic::power2::{
    lemma2_to64, lemma2_to64_rest, lemma_pow2_pos, lemma_pow2_strictly_increases, lemma_pow2_unfold,
    pow2,
};
use vstd::prelude::*;

use crate::corner::path_ok;
use crate::vec::{in_range, points_view, v_add, v_cross, v_div, v_neg, v_scale, v_sub, Vec2};

verus! {

/// Both components of `v` are multiples of `k`.
pub open spec fn divisible(v: (int, int), k: int) -> bool {
    v.0 % k == 0 && v.1 % k == 0
}

/// All four corners of the parallelogram spanned from `p` by `x` and `y` lie
/// within the accepted coordinate range.
pub open spec fn corners_in_range(p: (int, int), x: (int, int), y: (int, int)) -> bool {
    &&& in_range(p)
    &&& in_range(v_add(p, x))
    &&& in_range(v_add(p, y))
    &&& in_range(v_add(v_add(p, x), y))
}

/// Inputs on which the curve of depth `n` lands exactly on the lattice: the
/// edges halve `n + 1` times without remainder, and the region is in range.
pub open spec fn hilbert_input_ok(p: (int, int), x: (int, int), y: (int, int), n: nat) -> bool {
    &&& divisible(x, pow2(n + 1) as int)
    &&& divisible(y, pow2(n + 1) as int)
    &&& corners_in_range(p, x, y)
}

/// The Hilbert curve of depth `n` through the parallelogram at `p` with edges
/// `x` and `y`: the centre of the region at depth 0, else the curves of the
/// four quadrants, with their axes swapped or reversed, one after the other.
pub open spec fn hilbert_points(p: (int, int), x: (int, int), y: (int, int), n: nat) -> Seq<
    (int, int),
>
    decreases n,
{
    let hx = v_div(x, 2);
    let hy = v_div(y, 2);
    if n == 0 {
        seq![v_add(v_add(p, hx), hy)]
    } else {
        let m = (n - 1) as nat;
        hilbert_points(p, hy, hx, m) + hilbert_points(v_add(p, hx), hx, hy, m) + hilbert_points(
            v_add(v_add(p, hx), hy),
            hx,
            hy,
            m,
        ) + hilbert_points(v_add(v_add(p, hx), y), v_neg(hy), v_neg(hx), m)
    }
}

/// A multiple of `2^(n+1)` halves exactly, into a multiple of `2^n`, and so
/// does its opposite.
proof fn lemma_halve(a: int, n: nat)
    requires
        a % (pow2(n + 1) as int) == 0,
    ensures
        (a / 2) * 2 == a,
        (a / 2) % (pow2(n) as int) == 0,
        (-(a / 2)) % (pow2(n) as int) == 0,
{
    let m = pow2(n) as int;
    lemma_pow2_unfold(n + 1);
    lemma_pow2_pos(n);
    lemma_fundamental_div_mod(a, 2 * m);
    let q = a / (2 * m);
    assert(a == 2 * (m * q)) by (nonlinear_arith)
        requires
            a == (2 * m) * q + a % (2 * m),
            a % (2 * m) == 0,
    ;
    lemma_fundamental_div_mod_converse(a, 2, m * q, 0);
    lemma_mod_multiples_basic(q, m);
    lemma_mod_multiples_basic(-q, m);
    assert(m * q == q * m && -(m * q) == (-q) * m) by (nonlinear_arith);
}

/// The halves of valid edges are valid edges one level down.
proof fn lemma_halve_edges(x: (int, int), y: (int, int), n: nat)
    requires
        divisible(x, pow2(n + 1) as int),
        divisible(y, pow2(n + 1) as int),
    ensures
        v_div(x, 2).0 * 2 == x.0,
        v_div(x, 2).1 * 2 == x.1,
        v_div(y, 2).0 * 2 == y.0,
        v_div(y, 2).1 * 2 == y.1,
        divisible(v_div(x, 2), pow2(n) as int),
        divisible(v_div(y, 2), pow2(n) as int),
        divisible(v_neg(v_div(x, 2)), pow2(n) as int),
        divisible(v_neg(v_div(y, 2)), pow2(n) as int),
{
    lemma_halve(x.0, n);
    lemma_halve(x.1, n);
    lemma_halve(y.0, n);
    lemma_halve(y.1, n);
}

/// The curve of depth `n` has `4^n` points.
pub proof fn lemma_hilbert_len(p: (int, int), x: (int, int), y: (int, int), n: nat)
    ensures
        hilbert_points(p, x, y, n).len() == pow(4, n),
    decreases n,
{
    reveal(pow);
    if n > 0 {
        let hx = v_div(x, 2);
        let hy = v_div(y, 2);
        let m = (n - 1) as nat;
        lemma_hilbert_len(p, hy, hx, m);
        lemma_hilbert_len(v_add(p, hx), hx, hy, m);
        lemma_hilbert_len(v_add(v_add(p, hx), hy), hx, hy, m);
        lemma_hilbert_len(v_add(v_add(p, hx), y), v_neg(hy), v_neg(hx), m);
    }
}

/// `d` is `e` divided by `2^n`.
pub open spec fn is_fraction(d: (int, int), e: (int, int), n: nat) -> bool {
    d.0 * pow2(n) == e.0 && d.1 * pow2(n) == e.1
}

/// `d` moves one cell of the `2^n` by `2^n` grid spanned by `x` and `y`: along
/// one of the edges, forwards or backwards.
pub open spec fn is_cell_step(d: (int, int), x: (int, int), y: (int, int), n: nat) -> bool {
    ||| is_fraction(d, x, n)
    ||| is_fraction(d, v_neg(x), n)
    ||| is_fraction(d, y, n)
    ||| is_fraction(d, v_neg(y), n)
}

/// Every two consecutive points of `s` are one cell step apart.
pub open spec fn moves_by_cells(s: Seq<(int, int)>, x: (int, int), y: (int, int), n: nat) -> bool {
    forall|i: int|
        0 <= i < s.len() - 1 ==> #[trigger] is_cell_step(v_sub(s[i + 1], s[i]), x, y, n)
}

proof fn lemma_fraction_double(d: (int, int), e: (int, int), n: nat)
    requires
        is_fraction(d, e, n),
    ensures
        is_fraction(d, v_scale(e, 2), n + 1),
{
    lemma_pow2_unfold(n + 1);
    let k = pow2(n) as int;
    assert(d.0 * (2 * k) == e.0 * 2 && d.1 * (2 * k) == e.1 * 2) by (nonlinear_arith)
        requires
            d.0 * k == e.0,
            d.1 * k == e.1,
    ;
}

proof fn lemma_fraction_diff(u: (int, int), v: (int, int), base: (int, int), eu: (int, int), ev: (int, int), n: nat)
    requires
        is_fraction(v_sub(u, base), eu, n),
        is_fraction(v_sub(v, base), ev, n),
    ensures
        is_fraction(v_sub(v, u), v_sub(ev, eu), n),
{
    let k = pow2(n) as int;
    assert((v.0 - u.0) * k == ev.0 - eu.0 && (v.1 - u.1) * k == ev.1 - eu.1) by (nonlinear_arith)
        requires
            (u.0 - base.0) * k == eu.0,
            (u.1 - base.1) * k == eu.1,
            (v.0 - base.0) * k == ev.0,
            (v.1 - base.1) * k == ev.1,
    ;
}

/// A cell step at depth `n - 1` over the half edges is a cell step at depth
/// `n` over the whole edges.
proof fn lemma_step_lift(d: (int, int), x: (int, int), y: (int, int), n: nat)
    requires
        n > 0,
        v_scale(v_div(x, 2), 2) == x,
        v_scale(v_div(y, 2), 2) == y,
        is_cell_step(d, v_div(x, 2), v_div(y, 2), (n - 1) as nat),
    ensures
        is_cell_step(d, x, y, n),
{
    let m = (n - 1) as nat;
    let hx = v_div(x, 2);
    let hy = v_div(y, 2);
    if is_fraction(d, hx, m) {
        lemma_fraction_double(d, hx, m);
    } else if is_fraction(d, v_neg(hx), m) {
        lemma_fraction_double(d, v_neg(hx), m);
        assert(v_scale(v_neg(hx), 2) == v_neg(x));
    } else if is_fraction(d, hy, m) {
        lemma_fraction_double(d, hy, m);
    } else {
        lemma_fraction_double(d, v_neg(hy), m);
        assert(v_scale(v_neg(hy), 2) == v_neg(y));
    }
}

proof fn lemma_moves_concat(a: Seq<(int, int)>, b: Seq<(int, int)>, x: (int, int), y: (int, int), n: nat)
    requires
        a.len() > 0,
        b.len() > 0,
        moves_by_cells(a, x, y, n),
        moves_by_cells(b, x, y, n),
        is_cell_step(v_sub(b[0], a.last()), x, y, n),
    ensures
        moves_by_cells(a + b, x, y, n),
{
    let s = a + b;
    assert forall|i: int| 0 <= i < s.len() - 1 implies #[trigger] is_cell_step(
        v_sub(s[i + 1], s[i]),
        x,
        y,
        n,
    ) by {
        if i < a.len() - 1 {
            assert(is_cell_step(v_sub(a[i + 1], a[i]), x, y, n));
        } else if i >= a.len() {
            let j = i - a.len();
            assert(is_cell_step(v_sub(b[j + 1], b[j]), x, y, n));
        }
    }
}

/// Moves by cells of the half edges, in any of the orientations that the
/// quadrants use, are moves by cells of the whole edges.
proof fn lemma_moves_lift(s: Seq<(int, int)>, x: (int, int), y: (int, int), n: nat)
    requires
        n > 0,
        v_scale(v_div(x, 2), 2) == x,
        v_scale(v_div(y, 2), 2) == y,
        moves_by_cells(s, v_div(x, 2), v_div(y, 2), (n - 1) as nat)
            || moves_by_cells(s, v_div(y, 2), v_div(x, 2), (n - 1) as nat)
            || moves_by_cells(s, v_neg(v_div(y, 2)), v_neg(v_div(x, 2)), (n - 1) as nat),
    ensures
        moves_by_cells(s, x, y, n),
{
    let m = (n - 1) as nat;
    let hx = v_div(x, 2);
    let hy = v_div(y, 2);
    assert forall|i: int| 0 <= i < s.len() - 1 implies #[trigger] is_cell_step(
        v_sub(s[i + 1], s[i]),
        x,
        y,
        n,
    ) by {
        let d = v_sub(s[i + 1], s[i]);
        if moves_by_cells(s, hy, hx, m) {
            assert(is_cell_step(d, hy, hx, m));
        } else if moves_by_cells(s, v_neg(hy), v_neg(hx), m) {
            assert(is_cell_step(d, v_neg(hy), v_neg(hx), m));
            assert(v_neg(v_neg(hx)) == hx && v_neg(v_neg(hy)) == hy);
        } else {
            assert(is_cell_step(d, hx, hy, m));
        }
        lemma_step_lift(d, x, y, n);
    }
}

/// The Hilbert curve is continuous: it starts in the cell at the corner `p`,
/// ends in the cell at the corner `p + y`, and each point is one cell step
/// from the one before it, along `x` or `y`, so the pen never jumps.
pub proof fn lemma_hilbert_continuous(p: (int, int), x: (int, int), y: (int, int), n: nat)
    requires
        divisible(x, pow2(n + 1) as int),
        divisible(y, pow2(n + 1) as int),
    ensures
        hilbert_points(p, x, y, n).len() > 0,
        is_fraction(v_sub(hilbert_points(p, x, y, n)[0], p), v_add(x, y), n + 1),
        is_fraction(
            v_sub(hilbert_points(p, x, y, n).last(), v_add(p, y)),
            v_sub(x, y),
            n + 1,
        ),
        moves_by_cells(hilbert_points(p, x, y, n), x, y, n),
    decreases n,
{
    let s = hilbert_points(p, x, y, n);
    let hx = v_div(x, 2);
    let hy = v_div(y, 2);
    lemma_halve_edges(x, y, n);
    lemma_hilbert_len(p, x, y, n);
    lemma_pow_positive(4, n);
    assert(v_scale(hx, 2) == x && v_scale(hy, 2) == y);
    if n == 0 {
        lemma2_to64();
        assert(is_fraction(v_sub(s[0], p), v_add(x, y), 1));
        assert(is_fraction(v_sub(s.last(), v_add(p, y)), v_sub(x, y), 1));
    } else {
        let m = (n - 1) as nat;
        let p2 = v_add(p, hx);
        let p3 = v_add(v_add(p, hx), hy);
        let p4 = v_add(v_add(p, hx), y);
        lemma_quadrant_frames(p, p, x, y);
        let a = hilbert_points(p, hy, hx, m);
        let b = hilbert_points(p2, hx, hy, m);
        let c = hilbert_points(p3, hx, hy, m);
        let d = hilbert_points(p4, v_neg(hy), v_neg(hx), m);
        lemma_hilbert_continuous(p, hy, hx, m);
        lemma_hilbert_continuous(p2, hx, hy, m);
        lemma_hilbert_continuous(p3, hx, hy, m);
        lemma_hilbert_continuous(p4, v_neg(hy), v_neg(hx), m);
        assert(s == a + b + c + d);
        // the joins between the quadrants
        lemma_fraction_diff(a.last(), b[0], p2, v_sub(hy, hx), v_add(hx, hy), m + 1);
        assert(v_sub(v_add(hx, hy), v_sub(hy, hx)) == x);
        lemma_fraction_diff(b.last(), c[0], p3, v_sub(hx, hy), v_add(hx, hy), m + 1);
        assert(v_sub(v_add(hx, hy), v_sub(hx, hy)) == y);
        assert(v_add(p3, hy) == p4);
        lemma_fraction_diff(c.last(), d[0], p4, v_sub(hx, hy), v_add(v_neg(hy), v_neg(hx)), m + 1);
        assert(v_sub(v_add(v_neg(hy), v_neg(hx)), v_sub(hx, hy)) == v_neg(x));
        // the moves inside each quadrant
        lemma_moves_lift(a, x, y, n);
        lemma_moves_lift(b, x, y, n);
        lemma_moves_lift(c, x, y, n);
        lemma_moves_lift(d, x, y, n);
        lemma_moves_concat(a, b, x, y, n);
        lemma_moves_concat(a + b, c, x, y, n);
        lemma_moves_concat(a + b + c, d, x, y, n);
        // the two ends
        assert(s[0] == a[0]);
        lemma_fraction_double(v_sub(a[0], p), v_add(hy, hx), n);
        assert(v_scale(v_add(hy, hx), 2) == v_add(x, y));
        assert(s.last() == d.last());
        assert(v_add(p4, v_neg(hx)) == v_add(p, y));
        lemma_fraction_double(v_sub(d.last(), v_add(p, y)), v_sub(v_neg(hy), v_neg(hx)), n);
        assert(v_scale(v_sub(v_neg(hy), v_neg(hx)), 2) == v_sub(x, y));
    }
}

/// `t` lies strictly between `lo` and `hi`, in either order.
pub open spec fn strictly_between(t: int, lo: int, hi: int) -> bool {
    (lo < t && t < hi) || (hi < t && t < lo)
}

/// The coordinates of `q` in the frame at `p` with edges `x` and `y`, each
/// scaled by the cross product of the edges: `q = p + (a x + b y) / D` where
/// `(a, b)` are these and `D = x × y`.
pub open spec fn frame_coords(q: (int, int), p: (int, int), x: (int, int), y: (int, int)) -> (int, int) {
    (v_cross(v_sub(q, p), y), v_cross(x, v_sub(q, p)))
}

/// `q` lies strictly inside the parallelogram spanned from `p` by `x` and
/// `y`.
pub open spec fn strictly_inside(q: (int, int), p: (int, int), x: (int, int), y: (int, int)) -> bool {
    let c = frame_coords(q, p, x, y);
    strictly_between(c.0, 0, v_cross(x, y)) && strictly_between(c.1, 0, v_cross(x, y))
}

/// The edges span a proper parallelogram: they are not parallel, and neither
/// has length zero.
pub open spec fn spans_area(x: (int, int), y: (int, int)) -> bool {
    v_cross(x, y) != 0
}

/// How the frame coordinates of a point in each quadrant's own frame relate
/// to its coordinates in the whole frame.
proof fn lemma_quadrant_frames(q: (int, int), p: (int, int), x: (int, int), y: (int, int))
    requires
        v_scale(v_div(x, 2), 2) == x,
        v_scale(v_div(y, 2), 2) == y,
    ensures
        ({
            let hx = v_div(x, 2);
            let hy = v_div(y, 2);
            let c = frame_coords(q, p, x, y);
            let d = v_cross(x, y);
            let c1 = frame_coords(q, p, hy, hx);
            let c2 = frame_coords(q, v_add(p, hx), hx, hy);
            let c3 = frame_coords(q, v_add(v_add(p, hx), hy), hx, hy);
            let c4 = frame_coords(q, v_add(v_add(p, hx), y), v_neg(hy), v_neg(hx));
            &&& 4 * v_cross(hy, hx) == -d
            &&& 4 * v_cross(hx, hy) == d
            &&& 4 * v_cross(v_neg(hy), v_neg(hx)) == -d
            &&& 2 * c1.0 == -c.1
            &&& 2 * c1.1 == -c.0
            &&& 4 * c2.0 == 2 * c.0 - d
            &&& 2 * c2.1 == c.1
            &&& 4 * c3.0 == 2 * c.0 - d
            &&& 4 * c3.1 == 2 * c.1 - d
            &&& 2 * c4.0 == c.1 - d
            &&& 4 * c4.1 == 2 * c.0 - d
        }),
{
    let (a0, a1) = (v_div(x, 2).0, v_div(x, 2).1);
    let (b0, b1) = (v_div(y, 2).0, v_div(y, 2).1);
    let (w0, w1) = (q.0 - p.0, q.1 - p.1);
    assert(4 * (b0 * a1 - b1 * a0) == -((2 * a0) * (2 * b1) - (2 * a1) * (2 * b0))) by (nonlinear_arith);
    assert(4 * (a0 * b1 - a1 * b0) == (2 * a0) * (2 * b1) - (2 * a1) * (2 * b0)) by (nonlinear_arith);
    assert(4 * ((-b0) * (-a1) - (-b1) * (-a0)) == -((2 * a0) * (2 * b1) - (2 * a1) * (2 * b0))) by (nonlinear_arith);
    assert(2 * (w0 * a1 - w1 * a0) == -((2 * a0) * w1 - (2 * a1) * w0)) by (nonlinear_arith);
    assert(2 * (b0 * w1 - b1 * w0) == -(w0 * (2 * b1) - w1 * (2 * b0))) by (nonlinear_arith);
    assert(4 * ((w0 - a0) * b1 - (w1 - a1) * b0) == 2 * (w0 * (2 * b1) - w1 * (2 * b0)) - ((2 * a0) * (2 * b1) - (2 * a1) * (2 * b0))) by (nonlinear_arith);
    assert(2 * (a0 * (w1 - a1) - a1 * (w0 - a0)) == (2 * a0) * w1 - (2 * a1) * w0) by (nonlinear_arith);
    assert(4 * ((w0 - a0 - b0) * b1 - (w1 - a1 - b1) * b0) == 2 * (w0 * (2 * b1) - w1 * (2 * b0)) - ((2 * a0) * (2 * b1) - (2 * a1) * (2 * b0))) by (nonlinear_arith);
    assert(4 * (a0 * (w1 - a1 - b1) - a1 * (w0 - a0 - b0)) == 2 * ((2 * a0) * w1 - (2 * a1) * w0) - ((2 * a0) * (2 * b1) - (2 * a1) * (2 * b0))) by (nonlinear_arith);
    assert(2 * ((w0 - a0 - 2 * b0) * (-a1) - (w1 - a1 - 2 * b1) * (-a0)) == ((2 * a0) * w1 - (2 * a1) * w0) - ((2 * a0) * (2 * b1) - (2 * a1) * (2 * b0))) by (nonlinear_arith);
    assert(4 * ((-b0) * (w1 - a1 - 2 * b1) - (-b1) * (w0 - a0 - 2 * b0)) == 2 * (w0 * (2 * b1) - w1 * (2 * b0)) - ((2 * a0) * (2 * b1) - (2 * a1) * (2 * b0))) by (nonlinear_arith);
}

/// On a proper parallelogram every point of the curve lies strictly inside
/// it.
pub proof fn lemma_hilbert_inside(p: (int, int), x: (int, int), y: (int, int), n: nat)
    requires
        divisible(x, pow2(n + 1) as int),
        divisible(y, pow2(n + 1) as int),
        spans_area(x, y),
    ensures
        forall|i: int|
            0 <= i < hilbert_points(p, x, y, n).len() ==> #[trigger] strictly_inside(
                hilbert_points(p, x, y, n)[i],
                p,
                x,
                y,
            ),
    decreases n,
{
    let s = hilbert_points(p, x, y, n);
    let hx = v_div(x, 2);
    let hy = v_div(y, 2);
    lemma_halve_edges(x, y, n);
    if n == 0 {
        lemma_quadrant_frames(s[0], p, x, y);
        assert(s[0] == v_add(v_add(p, hx), hy));
        let (a0, a1, b0, b1) = (hx.0, hx.1, hy.0, hy.1);
        assert(2 * ((a0 + b0) * (2 * b1) - (a1 + b1) * (2 * b0)) == (2 * a0) * (2 * b1) - (2 * a1) * (2 * b0)
            && 2 * ((2 * a0) * (a1 + b1) - (2 * a1) * (a0 + b0)) == (2 * a0) * (2 * b1) - (2 * a1) * (2 * b0))
            by (nonlinear_arith);
        assert(v_sub(s[0], p) == (a0 + b0, a1 + b1));
    } else {
        let m = (n - 1) as nat;
        let p2 = v_add(p, hx);
        let p3 = v_add(v_add(p, hx), hy);
        let p4 = v_add(v_add(p, hx), y);
        lemma_quadrant_frames(p, p, x, y);
        let a = hilbert_points(p, hy, hx, m);
        let b = hilbert_points(p2, hx, hy, m);
        let c = hilbert_points(p3, hx, hy, m);
        let d = hilbert_points(p4, v_neg(hy), v_neg(hx), m);
        lemma_hilbert_inside(p, hy, hx, m);
        lemma_hilbert_inside(p2, hx, hy, m);
        lemma_hilbert_inside(p3, hx, hy, m);
        lemma_hilbert_inside(p4, v_neg(hy), v_neg(hx), m);
        assert(s == a + b + c + d);
        assert forall|i: int| 0 <= i < s.len() implies #[trigger] strictly_inside(s[i], p, x, y) by {
            lemma_quadrant_frames(s[i], p, x, y);
            if i < a.len() {
                assert(strictly_inside(a[i], p, hy, hx));
            } else if i < a.len() + b.len() {
                assert(strictly_inside(b[i - a.len()], p2, hx, hy));
            } else if i < a.len() + b.len() + c.len() {
                assert(strictly_inside(c[i - a.len() - b.len()], p3, hx, hy));
            } else {
                assert(strictly_inside(
                    d[i - a.len() - b.len() - c.len()],
                    p4,
                    v_neg(hy),
                    v_neg(hx),
                ));
            }
        }
    }
}

/// No point of `s` comes twice.
pub open spec fn no_repeats(s: Seq<(int, int)>) -> bool {
    forall|i: int, j: int| 0 <= i < j < s.len() ==> #[trigger] s[i] != #[trigger] s[j]
}

/// On a proper parallelogram the curve never visits a point twice.
pub proof fn lemma_hilbert_distinct(p: (int, int), x: (int, int), y: (int, int), n: nat)
    requires
        divisible(x, pow2(n + 1) as int),
        divisible(y, pow2(n + 1) as int),
        spans_area(x, y),
    ensures
        no_repeats(hilbert_points(p, x, y, n)),
    decreases n,
{
    let s = hilbert_points(p, x, y, n);
    let hx = v_div(x, 2);
    let hy = v_div(y, 2);
    lemma_halve_edges(x, y, n);
    lemma_hilbert_len(p, x, y, n);
    if n > 0 {
        let m = (n - 1) as nat;
        let p2 = v_add(p, hx);
        let p3 = v_add(v_add(p, hx), hy);
        let p4 = v_add(v_add(p, hx), y);
        lemma_quadrant_frames(p, p, x, y);
        let a = hilbert_points(p, hy, hx, m);
        let b = hilbert_points(p2, hx, hy, m);
        let c = hilbert_points(p3, hx, hy, m);
        let d = hilbert_points(p4, v_neg(hy), v_neg(hx), m);
        lemma_hilbert_inside(p, hy, hx, m);
        lemma_hilbert_inside(p2, hx, hy, m);
        lemma_hilbert_inside(p3, hx, hy, m);
        lemma_hilbert_inside(p4, v_neg(hy), v_neg(hx), m);
        lemma_hilbert_distinct(p, hy, hx, m);
        lemma_hilbert_distinct(p2, hx, hy, m);
        lemma_hilbert_distinct(p3, hx, hy, m);
        lemma_hilbert_distinct(p4, v_neg(hy), v_neg(hx), m);
        lemma_hilbert_len(p, hy, hx, m);
        lemma_hilbert_len(p2, hx, hy, m);
        lemma_hilbert_len(p3, hx, hy, m);
        lemma_hilbert_len(p4, v_neg(hy), v_neg(hx), m);
        let l = a.len() as int;
        assert(s == a + b + c + d);
        assert forall|i: int, j: int| 0 <= i < j < s.len() implies #[trigger] s[i] != #[trigger] s[j] by {
            if i < l && j < l {
                assert(a[i] != a[j]);
                assert(s[i] == a[i] && s[j] == a[j]);
            } else if l <= i && j < 2 * l {
                assert(b[i - l] != b[j - l]);
                assert(s[i] == b[i - l] && s[j] == b[j - l]);
            } else if 2 * l <= i && j < 3 * l {
                assert(c[i - 2 * l] != c[j - 2 * l]);
                assert(s[i] == c[i - 2 * l] && s[j] == c[j - 2 * l]);
            } else if 3 * l <= i {
                assert(d[i - 3 * l] != d[j - 3 * l]);
                assert(s[i] == d[i - 3 * l] && s[j] == d[j - 3 * l]);
            } else {
                lemma_quadrants_apart(s, a, b, c, d, p, x, y, i, j);
            }
        }
    }
}

/// Points of two different quadrants lie on opposite sides of a mid line.
proof fn lemma_quadrants_apart(
    s: Seq<(int, int)>,
    a: Seq<(int, int)>,
    b: Seq<(int, int)>,
    c: Seq<(int, int)>,
    d: Seq<(int, int)>,
    p: (int, int),
    x: (int, int),
    y: (int, int),
    i: int,
    j: int,
)
    requires
        spans_area(x, y),
        v_scale(v_div(x, 2), 2) == x,
        v_scale(v_div(y, 2), 2) == y,
        s == a + b + c + d,
        a.len() == b.len() && b.len() == c.len() && c.len() == d.len(),
        0 <= i < j < s.len(),
        !(i < a.len() && j < a.len()),
        !(a.len() <= i && j < 2 * a.len()),
        !(2 * a.len() <= i && j < 3 * a.len()),
        !(3 * a.len() <= i),
        forall|k: int| 0 <= k < a.len() ==> #[trigger] strictly_inside(a[k], p, v_div(y, 2), v_div(x, 2)),
        forall|k: int| 0 <= k < b.len() ==> #[trigger] strictly_inside(b[k], v_add(p, v_div(x, 2)), v_div(x, 2), v_div(y, 2)),
        forall|k: int| 0 <= k < c.len() ==> #[trigger] strictly_inside(c[k], v_add(v_add(p, v_div(x, 2)), v_div(y, 2)), v_div(x, 2), v_div(y, 2)),
        forall|k: int| 0 <= k < d.len() ==> #[trigger] strictly_inside(d[k], v_add(v_add(p, v_div(x, 2)), y), v_neg(v_div(y, 2)), v_neg(v_div(x, 2))),
    ensures
        s[i] != s[j],
{
    let l = a.len() as int;
    let hx = v_div(x, 2);
    let hy = v_div(y, 2);
    let p2 = v_add(p, hx);
    let p3 = v_add(v_add(p, hx), hy);
    let p4 = v_add(v_add(p, hx), y);
    lemma_quadrant_frames(s[i], p, x, y);
    lemma_quadrant_frames(s[j], p, x, y);
    if i < l {
        assert(strictly_inside(a[i], p, hy, hx));
        assert(s[i] == a[i]);
    } else if i < 2 * l {
        assert(strictly_inside(b[i - l], p2, hx, hy));
        assert(s[i] == b[i - l]);
    } else {
        assert(strictly_inside(c[i - 2 * l], p3, hx, hy));
        assert(s[i] == c[i - 2 * l]);
    }
    if j < 2 * l {
        assert(strictly_inside(b[j - l], p2, hx, hy));
        assert(s[j] == b[j - l]);
    } else if j < 3 * l {
        assert(strictly_inside(c[j - 2 * l], p3, hx, hy));
        assert(s[j] == c[j - 2 * l]);
    } else {
        assert(strictly_inside(d[j - 3 * l], p4, v_neg(hy), v_neg(hx)));
        assert(s[j] == d[j - 3 * l]);
    }
}

proof fn lemma_points_view_concat(a: Seq<Vec2>, b: Seq<Vec2>)
    ensures
        points_view(a + b) == points_view(a) + points_view(b),
{
    assert(points_view(a + b) =~= points_view(a) + points_view(b));
}

/// The curve depends on its arguments alone: two results that both meet the
/// contract of `hilbert_curve` for the same arguments are the same points.
pub proof fn lemma_hilbert_deterministic(
    p: (int, int),
    x: (int, int),
    y: (int, int),
    n: nat,
    first: Seq<Vec2>,
    second: Seq<Vec2>,
)
    requires
        points_view(first) == hilbert_points(p, x, y, n),
        points_view(second) == hilbert_points(p, x, y, n),
    ensures
        first == second,
{
    assert(points_view(first).len() == first.len());
    assert(points_view(second).len() == second.len());
    assert forall|i: int| 0 <= i < first.len() implies first[i] == second[i] by {
        assert(points_view(first)[i] == first[i]@);
        assert(points_view(second)[i] == second[i]@);
    }
    assert(first =~= second);
}

/// The Hilbert curve of depth `n` through the parallelogram at `p` with edges
/// `x_vec` and `y_vec`, as the centres of its `4^n` cells in drawing order.
pub fn hilbert_curve(p: Vec2, x_vec: Vec2, y_vec: Vec2, n: usize) -> (r: Vec<Vec2>)
    requires
        hilbert_input_ok(p@, x_vec@, y_vec@, n as nat),
    ensures
        points_view(r@) == hilbert_points(p@, x_vec@, y_vec@, n as nat),
        r@.len() == pow(4, n as nat),
    decreases n,
{
    proof {
        lemma_halve_edges(x_vec@, y_vec@, n as nat);
        lemma_hilbert_len(p@, x_vec@, y_vec@, n as nat);
    }
    let half_x = x_vec.div(2);
    let half_y = y_vec.div(2);
    let centre = p.add(half_x).add(half_y);
    if n == 0 {
        let r = vec![centre];
        assert(points_view(r@) =~= hilbert_points(p@, x_vec@, y_vec@, n as nat));
        r
    } else {
        let m = n - 1;
        let mut output: Vec<Vec2> = Vec::new();
        let mut first = hilbert_curve(p, half_y, half_x, m);
        output.append(&mut first);
        let mut second = hilbert_curve(p.add(half_x), half_x, half_y, m);
        proof {
            lemma_points_view_concat(output@, second@);
        }
        output.append(&mut second);
        let mut third = hilbert_curve(centre, half_x, half_y, m);
        proof {
            lemma_points_view_concat(output@, third@);
        }
        output.append(&mut third);
        let mut fourth = hilbert_curve(p.add(half_x).add(y_vec), half_y.neg(), half_x.neg(), m);
        proof {
            lemma_points_view_concat(output@, fourth@);
        }
        output.append(&mut fourth);
        output
    }
}


/// The largest depth that `hilbert_lattice` accepts: its square, `2^(n+1)` on
/// a side, must stay within the coordinate range.
pub const MAX_LATTICE_DEPTH: usize = 60;

/// The Hilbert curve of depth `n` through the square with corners `(0, 0)` and
/// `(2^(n+1), 2^(n+1))`, the smallest on which all its points are lattice
/// points: each coordinate is odd, and the point `(u, v)` stands for the point
/// `(u / 2^(n+1), v / 2^(n+1))` of the unit square.
pub fn hilbert_lattice(n: usize) -> (r: Vec<Vec2>)
    requires
        n <= MAX_LATTICE_DEPTH,
    ensures
        points_view(r@) == hilbert_points(
            (0, 0),
            (pow2(n as nat + 1) as int, 0),
            (0, pow2(n as nat + 1) as int),
            n as nat,
        ),
        r@.len() == pow(4, n as nat),
        no_repeats(points_view(r@)),
        path_ok(points_view(r@)),
{
    let mut side: i64 = 1;
    let mut k: usize = 0;
    proof {
        lemma2_to64();
    }
    while k <= n
        invariant
            n <= MAX_LATTICE_DEPTH,
            k <= n + 1,
            side == pow2(k as nat),
        decreases n + 1 - k,
    {
        proof {
            lemma_pow2_unfold(k as nat + 1);
            lemma_pow2_strictly_increases(k as nat, 61);
            lemma2_to64_rest();
        }
        side = side * 2;
        k = k + 1;
    }
    proof {
        lemma_pow2_pos(n as nat + 1);
        if n < 60 {
            lemma_pow2_strictly_increases(n as nat + 1, 61);
        }
        lemma2_to64_rest();
        lemma_mod_self_0(side as int);
        lemma_small_mod(0, side as nat);
    }
    let origin = Vec2 { x: 0, y: 0 };
    let r = hilbert_curve(origin, Vec2 { x: side, y: 0 }, Vec2 { x: 0, y: side }, n);
    proof {
        let (p, x, y) = ((0int, 0int), (side as int, 0int), (0int, side as int));
        let s = points_view(r@);
        let d = side as int;
        assert(v_cross(x, y) == d * d && d * d > 0) by (nonlinear_arith)
            requires
                d > 0,
                x == (d, 0int),
                y == (0int, d),
        ;
        lemma_hilbert_inside(p, x, y, n as nat);
        lemma_hilbert_distinct(p, x, y, n as nat);
        assert forall|i: int| 0 <= i < s.len() implies #[trigger] in_range(s[i]) by {
            assert(strictly_inside(s[i], p, x, y));
            let q = s[i];
            assert(0 < q.0 < d && 0 < q.1 < d) by (nonlinear_arith)
                requires
                    d > 0,
                    0 < q.0 * d < d * d,
                    0 < d * q.1 < d * d,
            ;
        }
        assert forall|i: int| 0 <= i < s.len() - 1 implies #[trigger] s[i] != s[i + 1] by {
            assert(s[i] != s[i + 1]);
        }
    }
    r
}

} // verus!
