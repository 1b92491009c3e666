use neuraltype::runlog::{epoch_numbers, fmt_eta};

#[test]
fn resumed_runs_continue_the_count() {
    assert_eq!(epoch_numbers(&[1, 2, 3, 1, 2]), vec![1, 2, 3, 4, 5]);
    assert_eq!(epoch_numbers(&[1, 2, 5, 6]), vec![1, 2, 5, 6]);
    assert_eq!(epoch_numbers(&[3, 1, 1]), vec![3, 4, 5]);
    assert_eq!(epoch_numbers(&[0, 0]), vec![0, 0]);
    assert_eq!(epoch_numbers(&[]), Vec::<u32>::new());
}

#[test]
fn eta_labels() {
    assert_eq!(fmt_eta(3725), "1h 02m");
    assert_eq!(fmt_eta(3600), "1h 00m");
    assert_eq!(fmt_eta(59), "0m 59s");
    assert_eq!(fmt_eta(600), "10m 00s");
    assert_eq!(fmt_eta(0), "0m 00s");
    assert_eq!(fmt_eta(360_000), "100h 00m");
}
