use egui_wasm_shape_lab::topology::{add_link, segment_exists, stitch, surviving_piece, Key, Link};

fn k(x: i64, y: i64) -> Key {
    Key { x, y }
}

fn link(a: (i64, i64), b: (i64, i64)) -> Link {
    Link { from: k(a.0, a.1), to: k(b.0, b.1) }
}

fn zero_turns(n: usize) -> Vec<Vec<i64>> {
    vec![vec![0; n]; n]
}

#[test]
fn stitch_one_square() {
    let links = vec![link((0, 0), (1, 0)), link((1, 0), (1, 1)), link((1, 1), (0, 1)), link((0, 1), (0, 0))];
    assert_eq!(stitch(&links, &zero_turns(4)), Ok(vec![vec![0, 1, 2, 3]]));
}

#[test]
fn stitch_follows_pieces_out_of_order() {
    let links = vec![link((1, 1), (0, 1)), link((0, 0), (1, 0)), link((0, 1), (0, 0)), link((1, 0), (1, 1))];
    assert_eq!(stitch(&links, &zero_turns(4)), Ok(vec![vec![0, 2, 1, 3]]));
}

#[test]
fn stitch_two_separate_squares_use_each_piece_once() {
    let mut links = vec![link((0, 0), (1, 0)), link((1, 0), (1, 1)), link((1, 1), (0, 1)), link((0, 1), (0, 0))];
    links.extend([link((5, 5), (6, 5)), link((6, 5), (6, 6)), link((6, 6), (5, 6)), link((5, 6), (5, 5))]);
    let rings = stitch(&links, &zero_turns(8)).unwrap();
    assert_eq!(rings, vec![vec![0, 1, 2, 3], vec![4, 5, 6, 7]]);
    let mut all: Vec<usize> = rings.concat();
    all.sort();
    assert_eq!(all, (0..8).collect::<Vec<_>>());
}

#[test]
fn stitch_takes_least_turn_at_a_shared_vertex() {
    // Two triangles touching at (0,0). From piece 0 the walk reaches (0,0) and
    // may go on with piece 3 or piece 4; the turn keys pick piece 4 first.
    let links = vec![
        link((1, 1), (-1, 1)), // 0
        link((-1, 1), (0, 0)), // 1
        link((0, 0), (1, 1)),  // 2
        link((0, 0), (1, -1)), // 3
        link((1, -1), (-1, -1)), // 4
        link((-1, -1), (0, 0)), // 5
    ];
    let mut turns = zero_turns(6);
    turns[1][2] = 5;
    turns[1][3] = -5;
    turns[5][2] = -5;
    turns[5][3] = 5;
    let rings = stitch(&links, &turns).unwrap();
    assert_eq!(rings, vec![vec![0, 1, 3, 4, 5, 2]]);
}

#[test]
fn stitch_ties_go_to_the_lowest_index() {
    let links = vec![
        link((1, 1), (-1, 1)),
        link((-1, 1), (0, 0)),
        link((0, 0), (1, 1)),
        link((0, 0), (1, -1)),
        link((1, -1), (-1, -1)),
        link((-1, -1), (0, 0)),
    ];
    let rings = stitch(&links, &zero_turns(6)).unwrap();
    assert_eq!(rings, vec![vec![0, 1, 2], vec![3, 4, 5]]);
}

#[test]
fn stitch_dead_end_is_error_one() {
    let links = vec![link((0, 0), (1, 0)), link((1, 0), (2, 0))];
    assert_eq!(stitch(&links, &zero_turns(2)), Err(1));
}

#[test]
fn stitch_nothing_gives_no_contours() {
    assert_eq!(stitch(&vec![], &vec![]), Ok(vec![]));
}

#[test]
fn stitch_degenerate_piece_closes_at_once() {
    let links = vec![link((3, 3), (3, 3))];
    assert_eq!(stitch(&links, &zero_turns(1)), Ok(vec![vec![0]]));
}

#[test]
fn segment_exists_matches_both_ends() {
    let links = vec![link((0, 0), (1, 0))];
    assert!(segment_exists(&links, k(0, 0), k(1, 0)));
    assert!(!segment_exists(&links, k(1, 0), k(0, 0)));
    assert!(!segment_exists(&links, k(0, 0), k(2, 0)));
}

#[test]
fn add_link_keeps_pieces_unique() {
    let mut links = Vec::new();
    assert!(add_link(&mut links, link((0, 0), (1, 0))));
    assert!(add_link(&mut links, link((1, 0), (0, 0))));
    assert!(!add_link(&mut links, link((0, 0), (1, 0))));
    assert_eq!(links, vec![link((0, 0), (1, 0)), link((1, 0), (0, 0))]);
}

#[test]
fn surviving_piece_keeps_only_boundary_pieces() {
    assert_eq!(surviving_piece(1, 2, true, false), Some((1, 2)));
    assert_eq!(surviving_piece(1, 2, false, true), Some((2, 1)));
    assert_eq!(surviving_piece(1, 2, true, true), None);
    assert_eq!(surviving_piece(1, 2, false, false), None);
}

#[test]
fn stitched_contours_close_and_join() {
    let links = vec![
        link((1, 1), (-1, 1)),
        link((-1, 1), (0, 0)),
        link((0, 0), (1, 1)),
        link((0, 0), (1, -1)),
        link((1, -1), (-1, -1)),
        link((-1, -1), (0, 0)),
    ];
    let mut turns = zero_turns(6);
    turns[1][2] = 5;
    turns[1][3] = -5;
    let rings = stitch(&links, &turns).unwrap();
    for ring in &rings {
        for w in ring.windows(2) {
            assert_eq!(links[w[0]].to, links[w[1]].from);
        }
        let start = links[ring[0]].from;
        assert_eq!(links[*ring.last().unwrap()].to, start);
        for &s in &ring[..ring.len() - 1] {
            assert_ne!(links[s].to, start);
        }
    }
}

#[test]
fn closed_edges_wrap_around() {
    let e = egui_wasm_shape_lab::topology::closed_edges(&vec!['a', 'b', 'c']);
    assert_eq!(e, vec![('a', 'b'), ('b', 'c'), ('c', 'a')]);
    assert!(egui_wasm_shape_lab::topology::closed_edges(&Vec::<char>::new()).is_empty());
}

#[test]
fn contour_points_take_first_start_and_inner_ends() {
    let pieces = vec![('a', 'b'), ('c', 'a'), ('b', 'c')];
    let pts = egui_wasm_shape_lab::topology::contour_points(&pieces, &vec![0, 2, 1]);
    assert_eq!(pts, vec!['a', 'b', 'c']);
    assert_eq!(egui_wasm_shape_lab::topology::contour_points(&pieces, &vec![1]), vec!['c']);
}
