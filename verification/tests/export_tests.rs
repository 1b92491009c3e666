use neuraltype::export::{field_export, field_tensor_names, seed_grid, vector_export, vector_tensor_names, ExportError};
use safetensors::Dtype::F32;

#[test]
fn field_tensor_order() {
    let names = field_tensor_names(2);
    assert_eq!(
        names,
        vec![
            "emb.weight", "l1.weight", "l1.bias", "l2.weight", "l2.bias", "disp.weight", "disp.bias",
            "d0.weight", "d0.bias", "d1.weight", "d1.bias",
        ]
    );
    assert_eq!(field_tensor_names(0).len(), 7);
    assert_eq!(field_tensor_names(11)[28], "d10.bias");
}

#[test]
fn vector_tensor_order() {
    let names = vector_tensor_names(1);
    assert_eq!(
        names,
        vec![
            "tok_emb.weight", "ctx_emb.weight", "pos_emb.weight",
            "b0.ln1.weight", "b0.ln1.bias", "b0.qkv.weight", "b0.qkv.bias", "b0.proj.weight", "b0.proj.bias",
            "b0.ln2.weight", "b0.ln2.bias", "b0.fc1.weight", "b0.fc1.bias", "b0.fc2.weight", "b0.fc2.bias",
            "ln_f.weight", "ln_f.bias", "head.weight", "head.bias",
        ]
    );
    assert_eq!(vector_tensor_names(7).len(), 3 + 7 * 12 + 4);
}

#[test]
fn seed_grid_rounds_up() {
    assert_eq!(seed_grid(224, 160, 5), (7, 5));
    assert_eq!(seed_grid(150, 97, 5), (5, 4));
    assert_eq!(seed_grid(9, 0, 0), (9, 0));
}

/// A safetensors checkpoint holding the given tensors, tensor `i`'s bytes
/// all equal to `i`.
fn checkpoint(entries: &[(&str, safetensors::Dtype, Vec<usize>)]) -> Vec<u8> {
    let datas: Vec<Vec<u8>> = entries
        .iter()
        .enumerate()
        .map(|(i, (_, dtype, shape))| {
            let n: usize = shape.iter().product();
            vec![i as u8; n * dtype.bitsize() / 8]
        })
        .collect();
    let views: Vec<(String, safetensors::tensor::TensorView)> = entries
        .iter()
        .zip(&datas)
        .map(|((name, dtype, shape), data)| {
            (name.to_string(), safetensors::tensor::TensorView::new(*dtype, shape.clone(), data).unwrap())
        })
        .collect();
    safetensors::serialize(views, None).unwrap()
}

fn field_model(deconvs: usize, disp_dtype: safetensors::Dtype) -> Vec<(&'static str, safetensors::Dtype, Vec<usize>)> {

    let mut v = vec![
        ("emb.weight", F32, vec![40, 16]),
        ("l1.weight", F32, vec![64, 16]),
        ("l1.bias", F32, vec![64]),
        ("l2.weight", F32, vec![8, 64]),
        ("l2.bias", F32, vec![8]),
        ("disp.weight", disp_dtype, vec![2, 64]),
        ("disp.bias", F32, vec![2]),
    ];
    let names = [("d0.weight", "d0.bias"), ("d1.weight", "d1.bias"), ("d2.weight", "d2.bias")];
    let chans = [32usize, 16, 8, 1];
    for (i, (wn, bn)) in names.iter().enumerate().take(deconvs) {
        v.push((wn, F32, vec![chans[i], chans[i + 1], 4, 4]));
        v.push((bn, F32, vec![chans[i + 1]]));
    }
    v
}

#[test]
fn field_export_reads_architecture() {
    let bytes = checkpoint(&field_model(3, safetensors::Dtype::F32));
    let fe = field_export(&bytes, 150, 97).unwrap();
    assert_eq!(fe.emb, 16);
    assert_eq!(fe.latent, 64);
    assert_eq!(fe.chans, vec![32, 16, 8, 1]);
    assert_eq!(fe.grid0, (19, 13));
    let names: Vec<&str> = fe.tensors.iter().map(|(n, _)| n.as_str()).collect();
    assert_eq!(
        names,
        vec![
            "emb.weight", "l1.weight", "l1.bias", "l2.weight", "l2.bias", "disp.weight", "disp.bias",
            "d0.weight", "d0.bias", "d1.weight", "d1.bias", "d2.weight", "d2.bias",
        ]
    );
    assert_eq!(fe.tensors[7].1, vec![32, 16, 4, 4]);
    // emb.weight's bytes (all 0) come first, then l1.weight's (all 1)
    assert_eq!(fe.weights.len(), 4 * (640 + 1024 + 64 + 512 + 8 + 128 + 2 + 8192 + 16 + 2048 + 8 + 128 + 1));
    assert_eq!(fe.weights[0], 0);
    assert_eq!(fe.weights[4 * 640], 1);
    assert_eq!(*fe.weights.last().unwrap(), 12);
}

#[test]
fn field_export_errors() {
    // no deconvolution at all: d0.weight is read for the first channel count
    let bytes = checkpoint(&field_model(0, safetensors::Dtype::F32));
    assert_eq!(field_export(&bytes, 8, 8).err(), Some(ExportError::Missing));
    // a tensor in the wrong dtype
    let bytes = checkpoint(&field_model(2, safetensors::Dtype::F16));
    assert_eq!(field_export(&bytes, 8, 8).err(), Some(ExportError::NotF32));
    // a canvas too large for the rounding up
    let bytes = checkpoint(&field_model(2, safetensors::Dtype::F32));
    assert_eq!(field_export(&bytes, u64::MAX - 1, 8).err(), Some(ExportError::GridTooLarge));
    assert_eq!(field_export(&bytes, u64::MAX - 3, 8).unwrap().grid0, (u64::MAX / 4, 2));
    // bytes that are no checkpoint
    assert_eq!(field_export(b"not a checkpoint", 8, 8).err(), Some(ExportError::Missing));
    // an embedding with a single axis
    let mut m = field_model(1, safetensors::Dtype::F32);
    m[0].2 = vec![40];
    assert_eq!(field_export(&checkpoint(&m), 8, 8).err(), Some(ExportError::BadShape));
}

#[test]
fn vector_export_reads_tensors() {

    let names = vector_tensor_names(1);
    let shapes: Vec<Vec<usize>> = names.iter().map(|n| if n == "pos_emb.weight" { vec![48, 4] } else { vec![2, 2] }).collect();
    let entries: Vec<(&str, safetensors::Dtype, Vec<usize>)> =
        names.iter().zip(&shapes).map(|(n, s)| (n.as_str(), F32, s.clone())).collect();
    let ve = vector_export(&checkpoint(&entries), 1).unwrap();
    assert_eq!(ve.max_pos, 48);
    assert_eq!(ve.tensors.len(), names.len());
    assert_eq!(ve.tensors[2], ("pos_emb.weight".to_string(), vec![48, 4]));
    assert_eq!(ve.weights.len(), 4 * (4 * (names.len() - 1) + 192));
    assert_eq!(vector_export(&checkpoint(&entries), 2).err(), Some(ExportError::Missing));
}
