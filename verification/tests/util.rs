use transformer_gpu::util::{concat_columns_into, split_columns};

#[test]
fn test_split_columns() {
    let x: Vec<f32> = vec![1.0, 2.0, 3.0, 4.0, 5.0, 6.0, 7.0, 8.0];
    let d_model = 4;
    let n_heads = 2;
    let d_head = d_model / n_heads;
    let out = split_columns(&x, d_model, d_head, n_heads);
    let exp = vec![vec![1.0, 2.0, 5.0, 6.0], vec![3.0, 4.0, 7.0, 8.0]];

    assert_eq!(out.len(), exp.len());
    assert_eq!(out[0].len(), exp[0].len());
    assert_eq!(out, exp);
}

#[test]
fn test_concat_columns_into() {
    let x = vec![vec![1.0, 2.0, 5.0, 6.0], vec![3.0, 4.0, 7.0, 8.0]];
    let seq = 2;
    let d_model = 4;
    let n_heads = 2;
    let d_head = d_model / n_heads;
    let out = concat_columns_into(&x, seq, d_model, d_head, n_heads);
    let exp: Vec<f32> = vec![1.0, 2.0, 3.0, 4.0, 5.0, 6.0, 7.0, 8.0];

    assert_eq!(out.len(), exp.len());
    assert_eq!(out, exp);
}

#[test]
fn test_split_concat_roundtrip() {
    let seq = 4;
    let d_model = 8;
    let n_heads = 4;
    let d_head = d_model / n_heads;
    let x: Vec<f32> = (0..seq * d_model).map(|i| i as f32).collect();

    let heads = split_columns(&x, d_model, d_head, n_heads);
    let reconstructed = concat_columns_into(&heads, seq, d_model, d_head, n_heads);

    assert_eq!(x, reconstructed);
}

#[test]
fn concat_then_split_gives_heads_back() {
    let heads: Vec<Vec<u32>> = vec![vec![1, 2, 3], vec![4, 5, 6]];
    let joined = concat_columns_into(&heads, 3, 2, 1, 2);
    assert_eq!(joined, vec![1, 4, 2, 5, 3, 6]);
    assert_eq!(split_columns(&joined, 2, 1, 2), heads);
}

#[test]
fn concat_fills_uncovered_columns_with_default() {
    let heads: Vec<Vec<u32>> = vec![vec![7, 8]];
    let joined = concat_columns_into(&heads, 2, 3, 1, 1);
    assert_eq!(joined, vec![7, 0, 0, 8, 0, 0]);
}

#[test]
fn split_narrow_heads_skips_extra_columns() {
    let x: Vec<u32> = vec![0, 1, 2, 10, 11, 12];
    let out = split_columns(&x, 3, 1, 3);
    assert_eq!(out, vec![vec![0, 10], vec![1, 11], vec![2, 12]]);
    let out = split_columns(&x, 3, 1, 1);
    assert_eq!(out, vec![vec![0, 10]]);
}

#[test]
fn split_of_empty_input_gives_empty_heads() {
    let x: Vec<u32> = vec![];
    let out = split_columns(&x, 4, 2, 2);
    assert_eq!(out, vec![Vec::<u32>::new(), Vec::new()]);
    let joined = concat_columns_into(&out, 0, 4, 2, 2);
    assert!(joined.is_empty());
}
