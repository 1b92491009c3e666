use neuraltype::tokens::{detokenize, outline_ops, PathOp, DMAX};

fn vocab() -> Vec<String> {
    ["<pad>", "<bos>", "<eos>", "M", "L", "Z", "d3", "d-2", "d1", "d63", "d5", "d0", "Q", "C"]
        .iter()
        .map(|s| s.to_string())
        .collect()
}

#[test]
fn detokenize_chains_deltas() {
    let toks = [3, 6, 7, 4, 8, 8, 5];
    assert_eq!(detokenize(&toks, &vocab()), "M 6.0 -4.0 L 8.0 -2.0 Z ");
}

#[test]
fn detokenize_continues_at_dmax() {
    assert_eq!(DMAX, 63);
    let toks = [3, 9, 10, 11];
    assert_eq!(detokenize(&toks, &vocab()), "M 136.0 0.0 ");
}

#[test]
fn detokenize_skips_unknown_and_special_tokens() {
    let toks = [1, 3, 8, 8, 99, 2];
    assert_eq!(detokenize(&toks, &vocab()), "M 2.0 2.0 ");
    assert_eq!(detokenize(&[], &vocab()), "");
}

#[test]
fn detokenize_reads_every_point_of_a_curve() {
    // Q with two points, C with three; missing deltas count as zero
    let toks = [12, 8, 8, 8, 8, 13, 8];
    assert_eq!(detokenize(&toks, &vocab()), "Q 2.0 2.0 4.0 4.0 C 6.0 4.0 6.0 4.0 6.0 4.0 ");
}

#[test]
fn outline_ops_builds_contours() {
    let toks = [3, 6, 7, 4, 8, 8, 5];
    assert_eq!(
        outline_ops(&toks, &vocab()),
        vec![PathOp::MoveTo(3, -2), PathOp::LineTo(4, -1), PathOp::Close]
    );
}

#[test]
fn outline_ops_closes_open_contours_and_drops_strays() {
    // a line before any move draws nothing; a new move closes the open
    // contour; the last one is closed at the end
    let toks = [4, 8, 8, 3, 8, 8, 3, 8, 8];
    assert_eq!(
        outline_ops(&toks, &vocab()),
        vec![PathOp::MoveTo(2, 2), PathOp::Close, PathOp::MoveTo(3, 3), PathOp::Close]
    );
    // Z without an open contour does nothing
    assert_eq!(outline_ops(&[5], &vocab()), Vec::<PathOp>::new());
}

#[test]
fn outline_points_match_printed_points() {
    // M, L, Q, then a second contour without Z: every draw inside a contour
    let toks = [3, 6, 7, 4, 8, 8, 12, 8, 11, 11, 8, 3, 10, 10, 13, 8, 8, 8, 8, 8, 8];
    let ops = outline_ops(&toks, &vocab());
    let mut pts: Vec<String> = Vec::new();
    for op in &ops {
        let ps: Vec<(i128, i128)> = match *op {
            PathOp::MoveTo(x, y) | PathOp::LineTo(x, y) => vec![(x, y)],
            PathOp::QuadTo(a, b, x, y) => vec![(a, b), (x, y)],
            PathOp::CurveTo(a, b, c, d, x, y) => vec![(a, b), (c, d), (x, y)],
            PathOp::Close => vec![],
        };
        for (x, y) in ps {
            pts.push(format!("{}.0", 2 * x));
            pts.push(format!("{}.0", 2 * y));
        }
    }
    let printed: Vec<String> = detokenize(&toks, &vocab())
        .split_whitespace()
        .filter(|w| !["M", "L", "Q", "C", "Z"].contains(w))
        .map(String::from)
        .collect();
    assert_eq!(pts, printed);
    // every contour is closed
    let moves = ops.iter().filter(|o| matches!(o, PathOp::MoveTo(..))).count();
    let closes = ops.iter().filter(|o| matches!(o, PathOp::Close)).count();
    assert_eq!((moves, closes), (2, 2));
}
