use neuraltype::shapes::number_shapes;

#[test]
fn shapes_numbered_by_first_appearance() {
    let a = vec![(5u32, 0i32, 0i32)];
    let b = vec![(5u32, 0i32, 0i32), (9, 10, -20)];
    let rows = vec![b.clone(), a.clone(), b.clone(), vec![], a.clone()];
    let (ids, uniq) = number_shapes(&rows);
    assert_eq!(ids, vec![0, 1, 0, 2, 1]);
    assert_eq!(uniq, vec![b, a, vec![]]);
    let (ids, uniq) = number_shapes(&[]);
    assert!(ids.is_empty() && uniq.is_empty());
}

#[test]
fn shape_variety_per_letter() {
    let a = vec![(1u32, 0i32, 0i32)];
    let b = vec![(2u32, 5i32, -5i32)];
    let recs = vec![
        (vec!['ب'], a.clone()),
        (vec!['ت'], a.clone()),
        (vec!['ب'], b.clone()),
        (vec!['ب'], a.clone()),
        (vec!['ل', 'ا'], b.clone()),
        (vec!['?'], a.clone()),
    ];
    let (rows, total) = neuraltype::shapes::shape_variety(&recs);
    let view: Vec<(String, usize, bool)> =
        rows.iter().map(|r| (r.letters.iter().collect(), r.shapes, r.known)).collect();
    assert_eq!(
        view,
        vec![
            ("ب".to_string(), 2, true),
            ("ت".to_string(), 1, true),
            ("لا".to_string(), 1, true),
            ("?".to_string(), 1, false),
        ]
    );
    assert_eq!(total, 5);
}

#[test]
fn dy_range_of_recorded_values() {
    assert_eq!(neuraltype::shapes::dy_range(&[Some(3), None, Some(-7), Some(12)]), (-7, 12));
    assert_eq!(neuraltype::shapes::dy_range(&[None]), (i32::MAX, i32::MIN));
}
