use neuraltype::canvas::{blit, compare_layout, compare_rgba, put_rgba};

#[test]
fn blit_copies_inside_only() {
    let mut sheet = vec![9u8; 5 * 4];
    blit(&mut sheet, 5, &[1, 2, 3, 4, 5, 6], 3, 2, 1, 2);
    assert_eq!(
        sheet,
        vec![9, 9, 9, 9, 9, 9, 9, 9, 9, 9, 9, 1, 2, 3, 9, 9, 4, 5, 6, 9]
    );
    let before = sheet.clone();
    blit(&mut sheet, 5, &[], 0, 3, 0, 0);
    assert_eq!(sheet, before);
}

#[test]
fn comparison_layout() {
    let sizes = [(10usize, 4usize), (12, 6), (7, 9), (3, 2)];
    let l = compare_layout(&sizes, 8);
    assert_eq!(l.col_x, vec![8, 28]);
    assert_eq!((l.top_y, l.bottom_y), (8, 25));
    assert_eq!((l.width, l.height), (43, 8 + 9 + 6 + 8 + 8));
}

#[test]
fn comparison_colours() {
    let rgba = compare_rgba(&[200, 0, 129, 128], 2, 1);
    assert_eq!(
        rgba,
        vec![110, 110, 110, 255, 0, 0, 0, 0, 42, 163, 95, 255, 0, 0, 0, 0]
    );
}

#[test]
fn rgba_writes_stay_on_the_image() {
    let mut img = vec![0u8; 4 * 2 * 2];
    put_rgba(&mut img, 2, 2, 1, 1, [1, 2, 3, 4]);
    put_rgba(&mut img, 2, 2, -1, 0, [9, 9, 9, 9]);
    put_rgba(&mut img, 2, 2, 2, 0, [9, 9, 9, 9]);
    assert_eq!(img, vec![0, 0, 0, 0, 0, 0, 0, 0, 0, 0, 0, 0, 1, 2, 3, 4]);
}

#[test]
fn dot_of_radius_three() {
    let d = neuraltype::canvas::disk_offsets(3);
    assert_eq!(d.len(), 29);
    assert_eq!(d[0], (0, -3));
    assert_eq!(&d[1..6], &[(-2, -2), (-1, -2), (0, -2), (1, -2), (2, -2)]);
    assert!(d.iter().all(|&(x, y)| x * x + y * y <= 9));
    assert_eq!(neuraltype::canvas::disk_offsets(0), vec![(0, 0)]);
}
