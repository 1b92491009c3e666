use neuraltype::corpus::{batches, corpus, letters, N_LETTERS};

#[test]
fn corpus_holds_singles_pairs_and_triples() {
    let n = N_LETTERS;
    assert_eq!(letters().len(), n);
    let c = corpus();
    assert_eq!(c.len(), n + n * n + n * n * n);
    assert_eq!(c.len(), 30783);
    assert_eq!(c[0], "ا");
    assert_eq!(c[n], "اا");
    assert_eq!(c[n + 1], "اب");
    assert_eq!(c[n + n * n], "ااا");
    assert_eq!(c[c.len() - 1], "ءءء");
}

#[test]
fn batches_chunk_in_order() {
    assert_eq!(batches(&[5, 3, 1, 4, 2], 2), vec![vec![5, 3], vec![1, 4], vec![2]]);
    assert_eq!(batches(&[5, 3], 4), vec![vec![5, 3]]);
    assert!(batches(&[], 3).is_empty());
}

#[test]
fn batches_partition_the_order() {
    let order: Vec<usize> = (0..10).rev().collect();
    let b = batches(&order, 3);
    let flat: Vec<usize> = b.iter().flatten().copied().collect();
    assert_eq!(flat, order);
    assert!(b.iter().all(|x| !x.is_empty() && x.len() <= 3));
}
