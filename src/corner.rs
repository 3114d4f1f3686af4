use itertools::Itertools;
use vstd::prelude::*;

use crate::vec::{in_range, COORD_LIMIT, points_view, v_cross, v_dot, v_sub, Vec2};

verus! {

/// A corner of a path: its vertex and its two arms, the vectors from the
/// vertex back to the point before it and on to the point after it.
///
/// The inward direction of the corner is the sum of the unit vectors along
/// the two arms, normalised: a plotter offsets the vertex along it.
#[derive(Clone, Copy, Debug, PartialEq, Eq, Structural)]
pub struct Corner {
    pub vertex: Vec2,
    pub to_prev: Vec2,
    pub to_next: Vec2,
}

/// A corner as vertex, back arm and forward arm.
pub type CornerView = ((int, int), (int, int), (int, int));

impl View for Corner {
    type V = CornerView;

    open spec fn view(&self) -> CornerView {
        (self.vertex@, self.to_prev@, self.to_next@)
    }
}

/// `b` lies strictly between `a` and `c` on one line: the arms from `b` point
/// in exactly opposite directions, so their unit vectors cancel and the
/// corner has no inward direction.
pub open spec fn is_straight(a: (int, int), b: (int, int), c: (int, int)) -> bool {
    v_cross(v_sub(a, b), v_sub(c, b)) == 0 && v_dot(v_sub(a, b), v_sub(c, b)) < 0
}

/// The corner at `b` on the way from `a` to `c`, unless the three points run
/// straight.
pub open spec fn corner_at(a: (int, int), b: (int, int), c: (int, int)) -> Option<CornerView> {
    if is_straight(a, b, c) {
        None
    } else {
        Some((b, v_sub(a, b), v_sub(c, b)))
    }
}

pub open spec fn corner_view(r: Option<Corner>) -> Option<CornerView> {
    match r {
        Some(k) => Some(k@),
        None => None,
    }
}

/// Three points that make a corner: in range, with no arm of length zero.
pub open spec fn corner_input_ok(a: (int, int), b: (int, int), c: (int, int)) -> bool {
    in_range(a) && in_range(b) && in_range(c) && a != b && c != b
}

/// The corner at `b`, with `a` before it and `c` after it; `None` where the
/// three points run straight through `b`.
pub fn direction_of_corner(a: Vec2, b: Vec2, c: Vec2) -> (r: Option<Corner>)
    requires
        corner_input_ok(a@, b@, c@),
    ensures
        corner_view(r) == corner_at(a@, b@, c@),
{
    let to_prev = a.sub(b);
    let to_next = c.sub(b);
    if to_prev.cross(to_next) == 0 && to_prev.dot(to_next) < 0 {
        None
    } else {
        Some(Corner { vertex: b, to_prev, to_next })
    }
}

/// The single corner of `o` as a sequence of zero or one items.
pub open spec fn seq_of(o: Option<CornerView>) -> Seq<CornerView> {
    match o {
        Some(k) => seq![k],
        None => Seq::empty(),
    }
}

/// The corners along a path, in order: one for each run of three consecutive
/// points that does not go straight.
pub open spec fn corners_of(s: Seq<(int, int)>) -> Seq<CornerView>
    decreases s.len(),
{
    if s.len() < 3 {
        Seq::empty()
    } else {
        let n = s.len();
        corners_of(s.drop_last()) + seq_of(corner_at(s[n - 3], s[n - 2], s[n - 1]))
    }
}

/// A path whose corners can be taken: all points in range, and no point
/// repeated by the next one.
pub open spec fn path_ok(s: Seq<(int, int)>) -> bool {
    &&& forall|i: int| 0 <= i < s.len() ==> #[trigger] in_range(s[i])
    &&& forall|i: int| 0 <= i < s.len() - 1 ==> #[trigger] s[i] != s[i + 1]
}

/// The same corner traced the other way round: its arms swapped.
pub open spec fn reversed(o: Option<CornerView>) -> Option<CornerView> {
    match o {
        Some(k) => Some((k.0, k.2, k.1)),
        None => None,
    }
}

/// Swapping the points before and after the vertex gives the same corner with
/// its arms swapped, so the same inward direction; a straight run stays
/// straight.
pub proof fn lemma_corner_symmetric(a: (int, int), b: (int, int), c: (int, int))
    ensures
        is_straight(c, b, a) == is_straight(a, b, c),
        corner_at(c, b, a) == reversed(corner_at(a, b, c)),
{
    let u = v_sub(a, b);
    let v = v_sub(c, b);
    assert(v_cross(v, u) == -v_cross(u, v) && v_dot(v, u) == v_dot(u, v)) by (nonlinear_arith);
}

/// The three consecutive points of `s` from index `i` on do not run straight.
pub open spec fn turns_at(s: Seq<(int, int)>, i: int) -> bool {
    !is_straight(s[i], s[i + 1], s[i + 2])
}

/// A path of `n >= 2` points has at most `n - 2` corners, and exactly `n - 2`
/// if and only if no three consecutive points of it run straight.
pub proof fn lemma_corner_count(s: Seq<(int, int)>)
    requires
        s.len() >= 2,
    ensures
        corners_of(s).len() <= s.len() - 2,
        corners_of(s).len() == s.len() - 2 <==> (forall|i: int|
            0 <= i < s.len() - 2 ==> #[trigger] turns_at(s, i)),
    decreases s.len(),
{
    if s.len() > 2 {
        let t = s.drop_last();
        let n = s.len();
        lemma_corner_count(t);
        assert forall|i: int| 0 <= i < n - 3 implies #[trigger] turns_at(t, i) == turns_at(s, i) by {
            assert(t[i] == s[i] && t[i + 1] == s[i + 1] && t[i + 2] == s[i + 2]);
        }
        if corners_of(s).len() == s.len() - 2 {
            assert forall|i: int| 0 <= i < n - 2 implies #[trigger] turns_at(s, i) by {
                if i < n - 3 {
                    assert(turns_at(t, i));
                }
            }
        }
        if forall|i: int| 0 <= i < n - 2 ==> #[trigger] turns_at(s, i) {
            assert(turns_at(s, n - 3));
            assert forall|i: int| 0 <= i < n - 3 implies #[trigger] turns_at(t, i) by {
                assert(turns_at(s, i));
            }
        }
    }
}

/// Relies on itertools' `Itertools::tuple_windows`: the runs of three
/// consecutive items, overlapping, in order, and none for fewer than three.
#[verifier::external_body]
fn windows3(points: &Vec<Vec2>) -> (r: Vec<(Vec2, Vec2, Vec2)>)
    ensures
        r@.len() == if points@.len() >= 2 {
            points@.len() - 2
        } else {
            0
        },
        forall|i: int|
            0 <= i < r@.len() ==> #[trigger] r@[i] == (points@[i], points@[i + 1], points@[i + 2]),
{
    points.iter().copied().tuple_windows().collect()
}

/// Whether `offset_corners` accepts the path: every point in range and no
/// point repeated by the next one.
pub fn is_valid_path(points: &Vec<Vec2>) -> (r: bool)
    ensures
        r == path_ok(points_view(points@)),
{
    let ghost s = points_view(points@);
    let mut i: usize = 0;
    while i < points.len()
        invariant
            s == points_view(points@),
            0 <= i <= points@.len(),
            forall|j: int| 0 <= j < i ==> #[trigger] in_range(s[j]),
            forall|j: int| 0 <= j < i as int - 1 ==> #[trigger] s[j] != s[j + 1],
        decreases points@.len() - i,
    {
        let q = points[i];
        assert(s[i as int] == q@);
        if q.x < -COORD_LIMIT || q.x > COORD_LIMIT || q.y < -COORD_LIMIT || q.y > COORD_LIMIT {
            assert(!in_range(s[i as int]));
            return false;
        }
        if i > 0 && points[i - 1] == q {
            assert(s[i - 1] == s[i as int]);
            return false;
        }
        proof {
            if i > 0 {
                assert(s[i - 1] != s[i as int]);
            }
        }
        i = i + 1;
    }
    true
}

/// The corners of a path, in order, leaving out the points where it runs
/// straight: these are the vertices that an offset line moves inwards.
pub fn offset_corners(points: &Vec<Vec2>) -> (r: Vec<Corner>)
    requires
        path_ok(points_view(points@)),
    ensures
        r@.map_values(|k: Corner| k@) == corners_of(points_view(points@)),
{
    let ghost s = points_view(points@);
    if points.len() < 3 {
        return Vec::new();
    }
    let windows = windows3(points);
    let mut out: Vec<Corner> = Vec::new();
    let mut i: usize = 0;
    assert(corners_of(s.take(2)) =~= Seq::empty());
    while i < windows.len()
        invariant
            0 <= i <= windows@.len(),
            s == points_view(points@),
            path_ok(s),
            points@.len() >= 3,
            windows@.len() == points@.len() - 2,
            forall|j: int|
                0 <= j < windows@.len() ==> #[trigger] windows@[j] == (
                    points@[j],
                    points@[j + 1],
                    points@[j + 2],
                ),
            out@.map_values(|k: Corner| k@) == corners_of(s.take(i as int + 2)),
        decreases windows@.len() - i,
    {
        let (a, b, c) = windows[i];
        assert(s[i as int] == a@ && s[i + 1] == b@ && s[i + 2] == c@);
        assert(in_range(s[i as int]) && in_range(s[i + 1]) && in_range(s[i + 2]));
        assert(s[i as int] != s[i + 1] && s[i + 1] != s[i + 2]);
        let ghost prefix = s.take(i as int + 3);
        assert(prefix.drop_last() =~= s.take(i as int + 2));
        let found = direction_of_corner(a, b, c);
        match found {
            Some(k) => {
                out.push(k);
            },
            None => {},
        }
        assert(out@.map_values(|k: Corner| k@) =~= corners_of(prefix));
        i = i + 1;
    }
    assert(s.take(i as int + 2) =~= s);
    out
}

} // verus!
