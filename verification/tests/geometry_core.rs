use egui::{pos2, Pos2, Rect};
use egui_wasm_shape_lab::bounds::bounds_of;
use egui_wasm_shape_lab::mesh::{point_in_tri, triangulate, Side};
use egui_wasm_shape_lab::ring::clean_ring;
use egui_wasm_shape_lab::stats::{merge_stats, CornerKind, MergeStats};

fn cross(a: (f64, f64), b: (f64, f64), c: (f64, f64)) -> f64 {
    (b.0 - a.0) * (c.1 - a.1) - (b.1 - a.1) * (c.0 - a.0)
}

fn side(c: f64) -> Side {
    if c >= -1e-4 && c <= 1e-4 {
        Side::On
    } else if c > 1e-4 {
        Side::Left
    } else if c < -1e-4 {
        Side::Right
    } else {
        Side::Unordered
    }
}

fn mesh_of(pts: &[(f64, f64)], reversed: bool) -> Vec<u32> {
    let convex = |a: usize, b: usize, c: usize| !(cross(pts[a], pts[b], pts[c]) <= 1e-5);
    let inside = |p: usize, a: usize, b: usize, c: usize| {
        point_in_tri(
            side(cross(pts[a], pts[b], pts[p])),
            side(cross(pts[b], pts[c], pts[p])),
            side(cross(pts[c], pts[a], pts[p])),
        )
    };
    triangulate(pts.len(), reversed, convex, inside)
}

#[test]
fn bounds_of_spans_the_points() {
    let pts = [pos2(2.0, 1.0), pos2(0.0, 3.0), pos2(-1.5, 2.0)];
    let r = bounds_of(&pts);
    assert_eq!(r, Rect::from_min_max(pos2(-1.5, 1.0), pos2(2.0, 3.0)));
    assert_eq!(r, Rect::from_points(&pts));
}

#[test]
fn bounds_of_no_points_is_nothing() {
    let pts: [Pos2; 0] = [];
    assert_eq!(bounds_of(&pts), Rect::NOTHING);
}

#[test]
fn bounds_of_one_point_is_that_point() {
    let r = bounds_of(&[pos2(4.0, -2.0)]);
    assert_eq!(r.min, pos2(4.0, -2.0));
    assert_eq!(r.max, pos2(4.0, -2.0));
}

#[test]
fn point_in_tri_either_winding() {
    assert!(point_in_tri(Side::Left, Side::Left, Side::Left));
    assert!(point_in_tri(Side::Right, Side::Right, Side::Right));
    assert!(point_in_tri(Side::On, Side::Left, Side::Left));
    assert!(point_in_tri(Side::On, Side::On, Side::Right));
    assert!(!point_in_tri(Side::Left, Side::Right, Side::Left));
    assert!(!point_in_tri(Side::Unordered, Side::On, Side::On));
    assert!(!point_in_tri(Side::Left, Side::Left, Side::Unordered));
}

#[test]
fn triangulate_square_cuts_one_ear_then_closes() {
    let sq = [(0.0, 0.0), (1.0, 0.0), (1.0, 1.0), (0.0, 1.0)];
    assert_eq!(mesh_of(&sq, false), vec![3, 0, 1, 1, 2, 3]);
}

#[test]
fn triangulate_reversed_walks_backwards() {
    let cw = [(0.0, 1.0), (1.0, 1.0), (1.0, 0.0), (0.0, 0.0)];
    assert_eq!(mesh_of(&cw, true), vec![0, 3, 2, 2, 1, 0]);
}

#[test]
fn triangulate_concave_skips_reflex_corner() {
    // An arrow head: vertex 2 is reflex, so the corner there is no ear.
    let pts = [(0.0, 0.0), (4.0, 0.0), (2.0, 1.0), (4.0, 4.0), (0.0, 4.0)];
    let tris = mesh_of(&pts, false);
    assert_eq!(tris.len(), 9);
    for t in tris.chunks(3) {
        assert!(t[0] != t[1] && t[1] != t[2] && t[0] != t[2]);
        assert!(t.iter().all(|&i| i < 5));
    }
    // The corner at vertex 0 holds vertex 2 in its triangle, so vertex 1's corner goes first.
    assert_eq!(&tris[0..3], &[0, 1, 2]);
}

#[test]
fn triangulate_too_few_points() {
    assert!(mesh_of(&[(0.0, 0.0), (1.0, 0.0)], false).is_empty());
    assert!(mesh_of(&[], false).is_empty());
}

#[test]
fn triangulate_triangle_is_itself() {
    assert_eq!(mesh_of(&[(0.0, 0.0), (1.0, 0.0), (0.0, 1.0)], false), vec![0, 1, 2]);
}

#[test]
fn triangulate_without_ears_gives_nothing() {
    let none = triangulate(5, false, |_a: usize, _b: usize, _c: usize| false, |_p: usize, _a: usize, _b: usize, _c: usize| false);
    assert!(none.is_empty());
}

fn clean_of(pts: &[(f64, f64)]) -> Vec<usize> {
    let dist = |a: (f64, f64), b: (f64, f64)| ((a.0 - b.0).powi(2) + (a.1 - b.1).powi(2)).sqrt();
    let ends_meet = pts.len() > 1 && dist(pts[0], pts[pts.len() - 1]) < 1e-7;
    clean_ring(pts.len(), ends_meet, |p: usize, c: usize, n: usize| {
        let a = (pts[c].0 - pts[p].0, pts[c].1 - pts[p].1);
        let b = (pts[n].0 - pts[c].0, pts[n].1 - pts[c].1);
        let la = a.0.hypot(a.1);
        let lb = b.0.hypot(b.1);
        la < 1e-7 || lb < 1e-7 || ((a.0 * b.1 - a.1 * b.0).abs() < 1e-10 * la * lb && a.0 * b.0 + a.1 * b.1 > 0.0)
    })
}

#[test]
fn clean_ring_drops_straight_and_repeated_points() {
    // The closing point goes; both copies of (2, 2) sit next to a zero-length
    // edge and go in the same pass, as does the straight point (1, 0).
    let pts = [(0.0, 0.0), (1.0, 0.0), (2.0, 0.0), (2.0, 2.0), (2.0, 2.0), (0.0, 2.0), (0.0, 0.0)];
    assert_eq!(clean_of(&pts), vec![0, 2, 5]);
}

#[test]
fn clean_ring_keeps_a_clean_square() {
    assert_eq!(clean_of(&[(0.0, 0.0), (1.0, 0.0), (1.0, 1.0), (0.0, 1.0)]), vec![0, 1, 2, 3]);
}

#[test]
fn clean_ring_leaves_short_rings_alone() {
    assert_eq!(clean_of(&[(0.0, 0.0), (1.0, 0.0)]), vec![0, 1]);
    assert_eq!(clean_of(&[(0.0, 0.0), (0.0, 0.0)]), vec![0]);
    assert_eq!(clean_of(&[]), Vec::<usize>::new());
}

#[test]
fn clean_ring_repeats_passes_until_stable() {
    // (1, 0) turns while (1, 1) is its neighbour; the repeated (1, 1) goes in
    // the first pass, and only the second pass sees (1, 0) lie on a straight run.
    let pts = [(0.0, 0.0), (1.0, 0.0), (1.0, 1.0), (1.0, 1.0), (2.0, 0.0), (2.0, 3.0), (0.0, 3.0)];
    assert_eq!(clean_of(&pts), vec![0, 4, 5, 6]);
}

#[test]
fn merge_stats_counts_corners() {
    let c = |concave: bool, limited: bool| CornerKind { concave, limited };
    let rings = vec![
        vec![c(false, false), c(true, true), c(false, true)],
        vec![],
        vec![c(true, false), c(false, false)],
    ];
    let s = merge_stats(&rings);
    assert_eq!(s.contours, 3);
    assert_eq!(s.raw_vertices, 5);
    assert_eq!(s.concave, 2);
    assert_eq!(s.limited, 2);
}

#[test]
fn merge_stats_default_is_zero() {
    let s = MergeStats::default();
    assert_eq!((s.contours, s.raw_vertices, s.concave, s.limited), (0, 0, 0, 0));
    let e = merge_stats(&vec![]);
    assert_eq!((e.contours, e.raw_vertices, e.concave, e.limited), (0, 0, 0, 0));
}

#[test]
fn cleaning_a_cleaned_ring_changes_nothing() {
    let pts = [(0.0, 0.0), (1.0, 0.0), (1.0, 1.0), (1.0, 1.0), (2.0, 0.0), (2.0, 3.0), (0.0, 3.0)];
    let kept = clean_of(&pts);
    let again: Vec<(f64, f64)> = kept.iter().map(|&i| pts[i]).collect();
    assert_eq!(clean_of(&again), (0..again.len()).collect::<Vec<_>>());
}
