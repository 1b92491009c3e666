use neuraltype::training::{
    causal_mask, dedupe_rows, disp_table, holdout, key_totals, length_order, next_state, pad_batch, shuffle,
    sort_rows, ContextRec, TrainRow, SHUFFLE_SEED,
};

#[test]
fn xorshift_step_from_seed() {
    assert_eq!(next_state(SHUFFLE_SEED), 0xdc1b_77ae_0bf3_4dad);
}

#[test]
fn shuffle_is_the_trainers_permutation() {
    let mut v: Vec<usize> = (0..5).collect();
    let mut rng = SHUFFLE_SEED;
    shuffle(&mut v, &mut rng);
    assert_eq!(v, vec![1, 3, 0, 2, 4]);
    assert_eq!(rng, 0x305f_050c_368d_cc74);
    let mut sorted = v.clone();
    sorted.sort();
    assert_eq!(sorted, vec![0, 1, 2, 3, 4]);
}

#[test]
fn shuffle_of_nothing_keeps_state() {
    let mut v: Vec<usize> = Vec::new();
    let mut rng = 7u64;
    shuffle(&mut v, &mut rng);
    assert_eq!(rng, 7);
    let mut one = vec![9usize];
    shuffle(&mut one, &mut rng);
    assert_eq!(one, vec![9]);
    assert_eq!(rng, 7);
}

#[test]
fn holdout_takes_every_twentieth() {
    let order: Vec<usize> = (0..45).collect();
    let (val, train) = holdout(&order);
    assert_eq!(val, vec![0, 20, 40]);
    assert_eq!(train.len(), 42);
    assert!(!train.contains(&20));
    assert_eq!(train[0], 1);
    assert_eq!(train[19], 21);
    let (v0, t0) = holdout(&[]);
    assert_eq!(v0, Vec::<usize>::new());
    assert_eq!(t0, Vec::<usize>::new());
}

#[test]
fn length_order_is_stable() {
    let lens = [3usize, 1, 3, 0, 1];
    assert_eq!(length_order(&lens), vec![3, 1, 4, 0, 2]);
    assert_eq!(length_order(&[]), Vec::<usize>::new());
}

#[test]
fn sort_rows_orders_keys_then_rows() {
    let keys = vec![vec![2u64, 1], vec![1, 9], vec![2, 0], vec![1, 9]];
    assert_eq!(sort_rows(&keys), vec![1, 3, 2, 0]);
}

#[test]
fn pad_batch_pads_with_zero() {
    let ctx = [[1u32, 2, 3, 4, 5], [6, 7, 8, 9, 10], [0, 0, 1, 0, 0]];
    let seqs = vec![vec![4u32, 5, 6], vec![7], vec![]];
    let (c, t, w) = pad_batch(&ctx, &seqs, &[1, 0]);
    assert_eq!(w, 3);
    assert_eq!(c, vec![6, 7, 8, 9, 10, 1, 2, 3, 4, 5]);
    assert_eq!(t, vec![7, 0, 0, 4, 5, 6]);
    let (c, t, w) = pad_batch(&ctx, &seqs, &[]);
    assert_eq!((c.len(), t.len(), w), (0, 0, 1));
    let (_, t, w) = pad_batch(&ctx, &seqs, &[2]);
    assert_eq!((t.len(), w), (0, 0));
}

#[test]
fn causal_mask_blocks_the_future() {
    let m = causal_mask(3);
    assert_eq!(m, vec![false, true, true, false, false, true, false, false, false]);
    assert_eq!(causal_mask(0), Vec::<bool>::new());
}

#[test]
fn key_totals_sum_per_key() {
    let keys = vec![vec![5u64], vec![2], vec![5], vec![2]];
    let disps = [Some((10, -4)), None, Some((-3, 1)), Some((1, 1))];
    let (d, t) = key_totals(&keys, &disps);
    assert_eq!(d, vec![vec![2u64], vec![5]]);
    assert_eq!((t[0].dx, t[0].dy, t[0].dn, t[0].rows), (1, 1, 1, 2));
    assert_eq!((t[1].dx, t[1].dy, t[1].dn, t[1].rows), (7, -3, 2, 2));
}

fn row(f: [u32; 5], shape: usize, d: Option<(i32, i32)>) -> TrainRow {
    TrainRow { feats: f, shape, ddx: d.map(|x| x.0), ddy: d.map(|x| x.1) }
}

#[test]
fn dedupe_keeps_modal_shape_and_sums() {
    let a = [0u32, 1, 2, 3, 0];
    let b = [0u32, 0, 4, 0, 0];
    let rows = vec![
        row(a, 7, Some((10, 2))),
        row(b, 1, None),
        row(a, 3, Some((20, 4))),
        row(a, 7, None),
        TrainRow { feats: a, shape: 7, ddx: Some(5), ddy: None },
    ];
    let out = dedupe_rows(&rows);
    assert_eq!(out.len(), 2);
    assert_eq!(out[0].feats, b);
    assert_eq!(out[0].shape, 1);
    assert!(!out[0].ambiguous);
    assert_eq!((out[0].dx_sum, out[0].dy_sum, out[0].dn), (0, 0, 0));
    assert_eq!(out[1].feats, a);
    assert_eq!(out[1].shape, 7);
    assert!(out[1].ambiguous);
    assert_eq!((out[1].dx_sum, out[1].dy_sum, out[1].dn), (30, 6, 2));
    assert!(dedupe_rows(&[]).is_empty());
}

#[test]
fn disp_table_falls_back_to_origin() {
    let k = [3u32, 0, 1, 0, 0];
    let j = [1u32, 2, 1, 0, 0];
    let recs = vec![
        ContextRec { feats: k, ddx: Some(-50), ddy: Some(10), ox: 0, oy: 0 },
        ContextRec { feats: j, ddx: None, ddy: None, ox: 400, oy: -20 },
        ContextRec { feats: k, ddx: Some(-30), ddy: None, ox: 7, oy: 8 },
    ];
    let t = disp_table(&recs);
    assert_eq!(t.len(), 2);
    assert_eq!(t[0].feats, j);
    assert_eq!((t[0].dx_sum, t[0].dy_sum, t[0].n), (400, -20, 1));
    assert_eq!(t[1].feats, k);
    assert_eq!((t[1].dx_sum, t[1].dy_sum, t[1].n), (-43, 18, 2));
}

#[test]
fn dedupe_breaks_ties_toward_the_smaller_shape() {
    let a = [2u32, 0, 5, 0, 0];
    let rows = vec![row(a, 9, None), row(a, 4, None), row(a, 9, None), row(a, 4, None)];
    let out = dedupe_rows(&rows);
    assert_eq!(out.len(), 1);
    assert_eq!(out[0].shape, 4);
    assert!(out[0].ambiguous);
}
