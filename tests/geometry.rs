use plotter_generator::vec::Vec2;
use plotter_generator::vec::COORD_LIMIT;
use plotter_generator::{
    direction_of_corner, hilbert_curve, hilbert_lattice, is_valid_path, offset_corners, vec2, Corner,
};

fn pairs(points: &[Vec2]) -> Vec<(i64, i64)> {
    points.iter().map(|p| (p.x, p.y)).collect()
}

fn unit(v: Vec2) -> (f32, f32) {
    let (x, y) = (v.x as f32, v.y as f32);
    let len = (x * x + y * y).sqrt();
    (x / len, y / len)
}

/// The inward direction of a corner, as a plotter computes it in floats.
fn inward(corner: Option<Corner>) -> Option<(f32, f32)> {
    corner.map(|k| {
        let (ax, ay) = unit(k.to_prev);
        let (bx, by) = unit(k.to_next);
        let (x, y) = (ax + bx, ay + by);
        let len = (x * x + y * y).sqrt();
        (x / len, y / len)
    })
}

#[test]
fn direction_of_corner_90_degrees() {
    let direction = direction_of_corner(vec2(0, 0), vec2(10, 0), vec2(10, 5));

    assert_eq!(inward(direction), Some((-0.70710677, 0.70710677)));
}

#[test]
fn direction_of_corner_180_degrees() {
    let direction = direction_of_corner(vec2(0, 0), vec2(10, 0), vec2(20, 0));

    assert_eq!(direction, None);
}

#[test]
fn right_angle_corner_keeps_both_arms() {
    let corner = direction_of_corner(vec2(0, 0), vec2(10, 0), vec2(10, 5));
    assert_eq!(
        corner,
        Some(Corner { vertex: vec2(10, 0), to_prev: vec2(-10, 0), to_next: vec2(0, 5) })
    );
}

#[test]
fn doubling_back_is_a_corner() {
    let corner = direction_of_corner(vec2(0, 0), vec2(10, 0), vec2(3, 0));
    assert_eq!(
        corner,
        Some(Corner { vertex: vec2(10, 0), to_prev: vec2(-10, 0), to_next: vec2(-7, 0) })
    );
}

#[test]
fn slanted_straight_run_has_no_corner() {
    assert_eq!(direction_of_corner(vec2(-3, -6), vec2(1, 2), vec2(2, 4)), None);
}

#[test]
fn swapping_the_ends_swaps_the_arms() {
    let forward = direction_of_corner(vec2(1, 7), vec2(4, 2), vec2(9, 3)).unwrap();
    let backward = direction_of_corner(vec2(9, 3), vec2(4, 2), vec2(1, 7)).unwrap();
    assert_eq!(forward.vertex, backward.vertex);
    assert_eq!(forward.to_prev, backward.to_next);
    assert_eq!(forward.to_next, backward.to_prev);
    assert_eq!(inward(Some(forward)), inward(Some(backward)));
    assert_eq!(direction_of_corner(vec2(20, 0), vec2(10, 0), vec2(0, 0)), None);
}

#[test]
fn hilbert_depth_one_visits_quadrant_centres() {
    let points = hilbert_curve(vec2(0, 0), vec2(100, 0), vec2(0, 100), 1);
    assert_eq!(pairs(&points), vec![(25, 25), (75, 25), (75, 75), (25, 75)]);
}

#[test]
fn hilbert_depth_zero_is_the_centre() {
    let points = hilbert_curve(vec2(-8, 4), vec2(6, 0), vec2(0, 10), 0);
    assert_eq!(pairs(&points), vec![(-5, 9)]);
}

#[test]
fn hilbert_depth_two_order() {
    let points = hilbert_curve(vec2(0, 0), vec2(8, 0), vec2(0, 8), 2);
    assert_eq!(
        pairs(&points),
        vec![
            (1, 1), (1, 3), (3, 3), (3, 1),
            (5, 1), (7, 1), (7, 3), (5, 3),
            (5, 5), (7, 5), (7, 7), (5, 7),
            (3, 7), (3, 5), (1, 5), (1, 7),
        ]
    );
}

#[test]
fn hilbert_has_four_to_the_depth_points() {
    for depth in 0..7usize {
        assert_eq!(hilbert_lattice(depth).len(), 4usize.pow(depth as u32));
    }
}

#[test]
fn hilbert_moves_one_cell_at_a_time() {
    let points = hilbert_curve(vec2(0, 0), vec2(320, 0), vec2(0, 64), 4);
    for w in points.windows(2) {
        let (dx, dy) = ((w[1].x - w[0].x).abs(), (w[1].y - w[0].y).abs());
        assert!((dx, dy) == (20, 0) || (dx, dy) == (0, 4), "jump of {dx},{dy}");
    }
    let mut seen = pairs(&points);
    seen.sort();
    seen.dedup();
    assert_eq!(seen.len(), points.len());
}

#[test]
fn hilbert_is_deterministic() {
    let a = hilbert_curve(vec2(4, -4), vec2(64, 0), vec2(0, 128), 3);
    let b = hilbert_curve(vec2(4, -4), vec2(64, 0), vec2(0, 128), 3);
    assert_eq!(a, b);
}

#[test]
fn hilbert_reversed_edges() {
    let points = hilbert_curve(vec2(100, 100), vec2(-100, 0), vec2(0, -100), 1);
    assert_eq!(pairs(&points), vec![(75, 75), (25, 75), (25, 25), (75, 25)]);
}

#[test]
fn lattice_depth_one() {
    assert_eq!(pairs(&hilbert_lattice(1)), vec![(1, 1), (3, 1), (3, 3), (1, 3)]);
}

#[test]
fn corners_skip_straight_runs() {
    let path = vec![vec2(0, 0), vec2(10, 0), vec2(20, 0), vec2(20, 10), vec2(20, 20), vec2(30, 20)];
    let corners = offset_corners(&path);
    assert_eq!(
        corners,
        vec![
            Corner { vertex: vec2(20, 0), to_prev: vec2(-10, 0), to_next: vec2(0, 10) },
            Corner { vertex: vec2(20, 20), to_prev: vec2(0, -10), to_next: vec2(10, 0) },
        ]
    );
}

#[test]
fn zigzag_has_a_corner_at_every_inner_point() {
    let path = vec![vec2(0, 0), vec2(1, 1), vec2(2, 0), vec2(3, 1), vec2(4, 0)];
    let corners = offset_corners(&path);
    assert_eq!(corners.len(), path.len() - 2);
    let vertices: Vec<Vec2> = corners.iter().map(|k| k.vertex).collect();
    assert_eq!(vertices, vec![vec2(1, 1), vec2(2, 0), vec2(3, 1)]);
}

#[test]
fn hilbert_corner_count_is_bounded() {
    let points = hilbert_lattice(2);
    let corners = offset_corners(&points);
    assert!(corners.len() <= points.len() - 2);
    // two runs go straight: through (5, 1) and through (5, 7)
    assert_eq!(corners.len(), 12);
    assert!(corners.iter().all(|k| k.vertex != vec2(5, 1) && k.vertex != vec2(5, 7)));
}

#[test]
fn short_paths_have_no_corners() {
    assert!(offset_corners(&vec![]).is_empty());
    assert!(offset_corners(&vec![vec2(1, 1)]).is_empty());
    assert!(offset_corners(&vec![vec2(1, 1), vec2(2, 2)]).is_empty());
}

#[test]
fn vector_arithmetic() {
    let a = vec2(3, -4);
    let b = vec2(-1, 6);
    assert_eq!(a.add(b), vec2(2, 2));
    assert_eq!(a.sub(b), vec2(4, -10));
    assert_eq!(a.neg(), vec2(-3, 4));
    assert_eq!(a.mul(-3), vec2(-9, 12));
    assert_eq!(vec2(-12, 8).div(4), vec2(-3, 2));
    assert_eq!(vec2(-12, 8).div(-4), vec2(3, -2));
    assert_eq!(vec2(7, -21).div(-7), vec2(-1, 3));
    assert_eq!(a.dot(b), -27);
    assert_eq!(a.cross(b), 14);
}

#[test]
fn path_validation() {
    assert!(is_valid_path(&vec![]));
    assert!(is_valid_path(&vec![vec2(0, 0), vec2(1, 0), vec2(0, 0)]));
    assert!(!is_valid_path(&vec![vec2(0, 0), vec2(1, 0), vec2(1, 0), vec2(2, 0)]));
    assert!(is_valid_path(&vec![vec2(COORD_LIMIT, -COORD_LIMIT)]));
    assert!(!is_valid_path(&vec![vec2(0, 0), vec2(COORD_LIMIT + 1, 0)]));
    assert!(!is_valid_path(&vec![vec2(0, -COORD_LIMIT - 1)]));
    assert!(is_valid_path(&hilbert_lattice(3)));
}

#[test]
fn hilbert_on_a_slanted_parallelogram() {
    let (x, y) = (vec2(16, 8), vec2(-8, 16));
    let points = hilbert_curve(vec2(100, -50), x, y, 2);
    assert_eq!(points.len(), 16);
    assert_eq!(points[0], vec2(100 + 2 - 1, -50 + 1 + 2));
    let steps = [vec2(4, 2), vec2(-4, -2), vec2(-2, 4), vec2(2, -4)];
    for w in points.windows(2) {
        assert!(steps.contains(&w[1].sub(w[0])));
    }
    let mut seen = pairs(&points);
    seen.sort();
    seen.dedup();
    assert_eq!(seen.len(), 16);
}
