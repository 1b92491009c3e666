use neuraltype::chain::trace_loops;
use neuraltype::trace::{boundary_edges, loop_polygon, trace_bitmap, trace_outline};
use neuraltype::GlyphImage;

#[test]
fn one_cell_has_four_edges_and_one_loop() {
    let cells = [true];
    assert_eq!(
        boundary_edges(1, 1, &cells),
        vec![((0, 0), (1, 0)), ((1, 1), (0, 1)), ((0, 1), (0, 0)), ((1, 0), (1, 1))]
    );
    assert_eq!(trace_loops(1, 1, &cells), vec![vec![(0, 0), (1, 0), (1, 1), (0, 1)]]);
    assert_eq!(trace_bitmap(1, 1, &cells), vec![vec![(0, 0), (1, 0), (1, 1), (0, 1)]]);
}

#[test]
fn collinear_runs_merge_into_corners() {
    let cells = [true, true];
    assert_eq!(
        trace_loops(2, 1, &cells),
        vec![vec![(0, 0), (1, 0), (2, 0), (2, 1), (1, 1), (0, 1)]]
    );
    assert_eq!(trace_bitmap(2, 1, &cells), vec![vec![(0, 0), (2, 0), (2, 1), (0, 1)]]);
}

#[test]
fn diagonal_neighbours_stay_separate_loops() {
    let cells = [true, false, false, true];
    assert_eq!(
        trace_loops(2, 2, &cells),
        vec![
            vec![(0, 0), (1, 0), (1, 1), (0, 1)],
            vec![(1, 1), (2, 1), (2, 2), (1, 2)],
        ]
    );
}

#[test]
fn holes_run_counter_clockwise() {
    let cells = [true, true, true, true, false, true, true, true, true];
    let loops = trace_loops(3, 3, &cells);
    assert_eq!(
        loops,
        vec![
            vec![
                (0, 0),
                (1, 0),
                (2, 0),
                (3, 0),
                (3, 1),
                (3, 2),
                (3, 3),
                (2, 3),
                (1, 3),
                (0, 3),
                (0, 2),
                (0, 1),
            ],
            vec![(2, 1), (1, 1), (1, 2), (2, 2)],
        ]
    );
    assert_eq!(
        trace_bitmap(3, 3, &cells),
        vec![vec![(0, 0), (3, 0), (3, 3), (0, 3)], vec![(2, 1), (1, 1), (1, 2), (2, 2)]]
    );
}

#[test]
fn every_exposed_edge_is_traced_once() {
    let cells = [
        true, true, false, true, //
        false, true, true, true, //
        true, false, true, false,
    ];
    let edges = boundary_edges(4, 3, &cells);
    let loops = trace_loops(4, 3, &cells);
    let mut traced = Vec::new();
    for l in &loops {
        for i in 0..l.len() {
            traced.push((l[i], l[(i + 1) % l.len()]));
        }
    }
    let mut a = edges.clone();
    a.sort();
    traced.sort();
    assert_eq!(a, traced);
}

#[test]
fn empty_grids_trace_to_nothing() {
    assert!(trace_loops(0, 0, &[]).is_empty());
    assert!(trace_bitmap(2, 2, &[false; 4]).is_empty());
}

#[test]
fn short_or_straight_loops_give_no_polygon() {
    assert_eq!(loop_polygon(&[(0, 0), (1, 0), (1, 1)]), None);
    assert_eq!(loop_polygon(&[(0, 0), (1, 0), (2, 0), (3, 0)]), None);
    assert_eq!(
        loop_polygon(&[(0, 0), (1, 0), (1, 1), (0, 1)]),
        Some(vec![(0, 0), (1, 0), (1, 1), (0, 1)])
    );
}

#[test]
fn glyph_outline() {
    let mut img = GlyphImage::empty();
    img.set(15, 10);
    assert_eq!(trace_outline(&img), vec![vec![(15, 10), (16, 10), (16, 11), (15, 11)]]);
    assert!(trace_outline(&GlyphImage::empty()).is_empty());
}
