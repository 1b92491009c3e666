use neuraltype::clusters::{cluster_context, cluster_ranges, record_feats, word_clusters, Interner, Vocab};

fn vocab() -> Vocab {
    Vocab {
        entries: ["<none>", "ا", "ل", "ه", "لا", "لله", "ب"]
            .iter()
            .map(|s| s.to_string())
            .collect(),
    }
}

fn chars(s: &str) -> Vec<char> {
    s.chars().collect()
}

#[test]
fn vocab_ids_and_unknowns() {
    let v = vocab();
    assert_eq!(v.vocab_id(&chars("ل")), Some(2));
    assert_eq!(v.vocab_id(&chars("لا")), Some(4));
    assert_eq!(v.vocab_id(&chars("x")), None);
    assert_eq!(v.none_id(), 0);
}

#[test]
fn duplicate_entries_take_the_last_id() {
    let v = Vocab { entries: vec!["a".into(), "b".into(), "a".into()] };
    assert_eq!(v.vocab_id(&chars("a")), Some(2));
}

#[test]
fn allah_splits_after_the_alif() {
    assert_eq!(cluster_ranges(&chars("الله")), vec![(0, 1), (1, 4)]);
    let w = word_clusters(&vocab(), &chars("الله"));
    assert_eq!(
        w,
        vec![("ا".to_string(), [0, 0, 1, 2, 2]), ("لله".to_string(), [0, 1, 5, 0, 0])]
    );
}

#[test]
fn lam_alef_is_one_cluster() {
    assert_eq!(cluster_ranges(&chars("بلا")), vec![(0, 1), (1, 3)]);
    let w = word_clusters(&vocab(), &chars("بلا"));
    assert_eq!(
        w,
        vec![("ب".to_string(), [0, 0, 6, 2, 1]), ("لا".to_string(), [0, 6, 4, 0, 0])]
    );
}

#[test]
fn cluster_context_uses_neighbouring_clusters() {
    let w = cluster_context(&vocab(), &chars("بلا"));
    assert_eq!(
        w,
        vec![("ب".to_string(), [0, 0, 6, 4, 0]), ("لا".to_string(), [0, 6, 4, 0, 0])]
    );
}

#[test]
fn empty_word_has_no_clusters() {
    assert!(cluster_ranges(&[]).is_empty());
    assert!(word_clusters(&vocab(), &[]).is_empty());
}

#[test]
fn alphabet_lists_single_letters_sorted() {
    assert_eq!(vocab().alphabet(), "ابله");
}

#[test]
fn interner_hands_out_dense_stable_ids() {
    let mut v = Interner::new(&chars("<none>"));
    assert_eq!(v.intern(&chars("ب")), 1);
    assert_eq!(v.intern(&chars("ت")), 2);
    assert_eq!(v.intern(&chars("ب")), 1);
    assert_eq!(v.intern(&chars("<none>")), 0);
    assert_eq!(v.entries.len(), 3);
}

#[test]
fn record_features_from_neighbours() {
    let v = vocab();
    let f = record_feats(&v, &chars("لا"), None, Some('ب'), Some('ه'), Some('z'));
    assert_eq!(f, [0, 6, 4, 3, 0]);
    let g = record_feats(&v, &chars("q"), Some('ا'), None, None, None);
    assert_eq!(g, [1, 0, 0, 0, 0]);
}
