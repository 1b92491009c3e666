use neuraltype::pathscan::path_ops;

fn ops(d: &str) -> Vec<(char, Vec<String>)> {
    let cs: Vec<char> = d.chars().collect();
    path_ops(&cs)
        .into_iter()
        .map(|(c, ns)| (c, ns.into_iter().map(|n| n.into_iter().collect()).collect()))
        .collect()
}

#[test]
fn commands_and_numbers() {
    assert_eq!(
        ops("M10 -2.5L3 4Z"),
        vec![
            ('M', vec!["10".to_string(), "-2.5".to_string()]),
            ('L', vec!["3".to_string(), "4".to_string()]),
            ('Z', vec![]),
        ]
    );
    assert_eq!(
        ops("Q1 2 3 4C5 6 7 8 9 10"),
        vec![
            ('Q', vec!["1".into(), "2".into(), "3".into(), "4".into()]),
            ('C', vec!["5".into(), "6".into(), "7".into(), "8".into(), "9".into(), "10".into()]),
        ]
    );
}

#[test]
fn numbers_before_a_command_carry_over() {
    assert_eq!(ops("1 2M3 4"), vec![('M', vec!["1".into(), "2".into(), "3".into(), "4".into()])]);
    assert_eq!(ops(""), vec![]);
    assert_eq!(ops("ZZ"), vec![('Z', vec![]), ('Z', vec![])]);
}
