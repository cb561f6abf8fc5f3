use transformer_layers::attention::{apply_causal_mask, softmax, softmax_backward};
use transformer_layers::embed::{Embed, EmbedBackwardError};
use transformer_layers::matrix::Matrix;
use transformer_layers::rotary::RotaryEmbedding;

fn mat(rows: Vec<Vec<f32>>, cols: usize) -> Matrix<f32> {
    Matrix::from_rows(rows, cols).unwrap()
}

fn rows_of(m: Matrix<f32>) -> Vec<Vec<f32>> {
    m.into_rows()
}

fn plus(a: f32, b: f32) -> f32 {
    a + b
}

fn close(a: f32, b: f32) -> bool {
    (a - b).abs() < 1e-5
}

#[test]
fn from_rows_checks_row_lengths() {
    assert!(Matrix::from_rows(vec![vec![1u8, 2], vec![3, 4]], 2).is_some());
    assert!(Matrix::from_rows(vec![vec![1u8, 2], vec![3]], 2).is_none());
    let empty: Matrix<u8> = Matrix::from_rows(Vec::new(), 7).unwrap();
    assert_eq!(empty.rows(), 0);
    assert_eq!(empty.cols(), 7);
}

#[test]
fn filled_and_get() {
    let m = Matrix::filled(2, 3, 9u32);
    assert_eq!(m.rows(), 2);
    assert_eq!(m.cols(), 3);
    assert_eq!(m.get(1, 2), 9);
    assert_eq!(m.into_rows(), vec![vec![9, 9, 9], vec![9, 9, 9]]);
}

#[test]
fn token_embeddings_pick_rows_in_order() {
    let table = mat(vec![vec![0.0, 0.5], vec![1.0, 1.5], vec![2.0, 2.5]], 2);
    let r = Embed::get_token_embeddings(&table, &[2, 0, 2]);
    assert_eq!(rows_of(r), vec![vec![2.0, 2.5], vec![0.0, 0.5], vec![2.0, 2.5]]);
}

#[test]
fn positional_embeddings_take_a_prefix() {
    let table = mat(vec![vec![0.1, 0.2], vec![0.3, 0.4], vec![0.5, 0.6]], 2);
    let r = Embed::get_positional_embeddings(&table, 2);
    assert_eq!(rows_of(r), vec![vec![0.1, 0.2], vec![0.3, 0.4]]);
    let none = Embed::get_positional_embeddings(&table, 0);
    assert_eq!(none.rows(), 0);
    assert_eq!(none.cols(), 2);
}

#[test]
fn embed_tokens_sums_token_and_position() {
    let e = Embed {
        token: mat(vec![vec![1.0, 2.0], vec![10.0, 20.0]], 2),
        position: mat(vec![vec![0.5, 0.25], vec![100.0, 200.0], vec![7.0, 7.0]], 2),
    };
    let r = e.embed_tokens(&[1, 0], &plus);
    assert_eq!(rows_of(r), vec![vec![10.5, 20.25], vec![101.0, 202.0]]);
}

#[test]
fn embed_tokens_stretches_a_single_column() {
    let e = Embed {
        token: mat(vec![vec![1.0, 2.0, 3.0]], 3),
        position: mat(vec![vec![10.0], vec![20.0]], 1),
    };
    let r = e.embed_tokens(&[0, 0], &plus);
    assert_eq!(r.cols(), 3);
    assert_eq!(rows_of(r), vec![vec![11.0, 12.0, 13.0], vec![21.0, 22.0, 23.0]]);
}

#[test]
fn embed_tokens_of_no_tokens_is_empty() {
    let e = Embed {
        token: mat(vec![vec![1.0, 2.0]], 2),
        position: mat(vec![vec![0.0, 0.0]], 2),
    };
    let r = e.embed_tokens(&[], &plus);
    assert_eq!(r.rows(), 0);
    assert_eq!(r.cols(), 2);
}

fn small_embed() -> Embed<f32> {
    Embed {
        token: Matrix::filled(3, 2, 0.0),
        position: Matrix::filled(2, 2, 0.0),
    }
}

#[test]
fn backward_check_accepts_good_input() {
    let e = small_embed();
    let grads = mat(vec![vec![1.0, 1.0], vec![2.0, 2.0]], 2);
    assert_eq!(e.backward_check(&[2, 0], &grads), Ok(()));
}

#[test]
fn backward_check_reports_token_out_of_range() {
    let e = small_embed();
    let grads = mat(vec![vec![1.0, 1.0], vec![2.0, 2.0]], 2);
    assert_eq!(
        e.backward_check(&[1, 3], &grads),
        Err(EmbedBackwardError::TokenOutOfRange { position: 1, token_id: 3, vocab_size: 3 })
    );
}

#[test]
fn backward_check_reports_missing_grad_row() {
    let e = small_embed();
    let grads = mat(vec![vec![1.0, 1.0]], 2);
    assert_eq!(e.backward_check(&[1, 2], &grads), Err(EmbedBackwardError::MissingGradRow { position: 1 }));
}

#[test]
fn backward_check_reports_token_width_mismatch() {
    let e = small_embed();
    let grads = mat(vec![vec![1.0, 1.0, 1.0]], 3);
    assert_eq!(
        e.backward_check(&[1], &grads),
        Err(EmbedBackwardError::TokenWidthMismatch { grad_width: 3, width: 2 })
    );
}

#[test]
fn backward_check_reports_position_out_of_range() {
    let e = small_embed();
    let grads = mat(vec![vec![1.0, 1.0], vec![1.0, 1.0], vec![1.0, 1.0]], 2);
    assert_eq!(
        e.backward_check(&[0, 1, 2], &grads),
        Err(EmbedBackwardError::PositionOutOfRange { position: 2, max_seq_len: 2 })
    );
}

#[test]
fn backward_check_reports_position_width_mismatch() {
    let e = Embed { token: Matrix::filled(3, 2, 0.0f32), position: Matrix::filled(2, 4, 0.0f32) };
    let grads = mat(vec![vec![1.0, 1.0]], 2);
    assert_eq!(
        e.backward_check(&[0], &grads),
        Err(EmbedBackwardError::PositionWidthMismatch { grad_width: 2, width: 4 })
    );
}

#[test]
fn accumulate_grads_sums_repeated_tokens() {
    let e = small_embed();
    let grads = mat(vec![vec![1.0, 2.0], vec![10.0, 20.0]], 2);
    let ids = [2usize, 2];
    assert_eq!(e.backward_check(&ids, &grads), Ok(()));
    let (tg, pg) = e.accumulate_grads(&grads, &ids, 0.0, &plus);
    assert_eq!(rows_of(tg), vec![vec![0.0, 0.0], vec![0.0, 0.0], vec![11.0, 22.0]]);
    assert_eq!(rows_of(pg), vec![vec![1.0, 2.0], vec![10.0, 20.0]]);
}

#[test]
fn accumulate_grads_leaves_unused_rows_zero() {
    let e = Embed { token: Matrix::filled(4, 1, 0.0f32), position: Matrix::filled(3, 1, 0.0f32) };
    let grads = mat(vec![vec![5.0]], 1);
    let (tg, pg) = e.accumulate_grads(&grads, &[1], 0.0, &plus);
    assert_eq!(rows_of(tg), vec![vec![0.0], vec![5.0], vec![0.0], vec![0.0]]);
    assert_eq!(rows_of(pg), vec![vec![5.0], vec![0.0], vec![0.0]]);
}

#[test]
fn accumulate_grads_stretches_a_single_gradient_column() {
    let e = Embed { token: Matrix::filled(1, 3, 0.0f32), position: Matrix::filled(1, 2, 0.0f32) };
    let grads = mat(vec![vec![4.0]], 1);
    let (tg, pg) = e.accumulate_grads(&grads, &[0], 0.0, &plus);
    assert_eq!(rows_of(tg), vec![vec![4.0, 4.0, 4.0]]);
    assert_eq!(rows_of(pg), vec![vec![4.0, 4.0]]);
}

fn rope_freq(two_i: usize, head_dim: usize) -> f32 {
    10000.0_f32.powf(-(two_i as f32) / head_dim as f32)
}

fn trig(m: usize, freq: f32) -> (f32, f32) {
    let angle = m as f32 * freq;
    (angle.cos(), angle.sin())
}

fn rotate(x_even: f32, x_odd: f32, c: f32, s: f32) -> (f32, f32) {
    (x_even * c - x_odd * s, x_even * s + x_odd * c)
}

fn unrotate(g_even: f32, g_odd: f32, c: f32, s: f32) -> (f32, f32) {
    (g_even * c + g_odd * s, -g_even * s + g_odd * c)
}

#[test]
fn rotary_frequencies_follow_the_pair_index() {
    let rope = RotaryEmbedding::new(4, &rope_freq);
    assert_eq!(rope.head_dim(), 4);
    let (cos, sin) = rope.compute_cos_sin(2, &trig);
    assert_eq!(cos.rows(), 2);
    assert_eq!(cos.cols(), 2);
    // position 0: angle 0
    assert_eq!(cos.get(0, 0), 1.0);
    assert_eq!(sin.get(0, 1), 0.0);
    // position 1, pair 0: frequency 1, angle 1
    assert!(close(cos.get(1, 0), 1.0f32.cos()));
    assert!(close(sin.get(1, 0), 1.0f32.sin()));
    // position 1, pair 1: frequency 10000^(-1/2) = 0.01
    assert!(close(sin.get(1, 1), 0.01f32.sin()));
}

#[test]
fn apply_rotation_turns_each_pair() {
    let rope = RotaryEmbedding::new(2, &rope_freq);
    let x = mat(vec![vec![1.0, 0.0], vec![0.0, 2.0]], 2);
    let cos = mat(vec![vec![0.0], vec![0.0]], 1);
    let sin = mat(vec![vec![1.0], vec![1.0]], 1);
    let r = rope.apply_rotation(&x, &cos, &sin, &rotate);
    // a quarter turn: (a, b) -> (-b, a)
    assert_eq!(rows_of(r), vec![vec![0.0, 1.0], vec![-2.0, 0.0]]);
}

#[test]
fn apply_qk_leaves_position_zero_unchanged() {
    let rope = RotaryEmbedding::new(4, &rope_freq);
    let q = mat(vec![vec![1.0, 2.0, 3.0, 4.0], vec![1.0, 0.0, 1.0, 0.0]], 4);
    let k = mat(vec![vec![5.0, 6.0, 7.0, 8.0]], 4);
    let (rq, rk) = rope.apply_qk(&q, &k, &trig, &rotate);
    let rq = rows_of(rq);
    let rk = rows_of(rk);
    assert_eq!(rq[0], vec![1.0, 2.0, 3.0, 4.0]);
    assert_eq!(rk[0], vec![5.0, 6.0, 7.0, 8.0]);
    assert!(close(rq[1][0], 1.0f32.cos()));
    assert!(close(rq[1][1], 1.0f32.sin()));
    assert!(close(rq[1][2], 0.01f32.cos()));
    assert!(close(rq[1][3], 0.01f32.sin()));
}

#[test]
fn backward_rotation_undoes_apply_qk() {
    let rope = RotaryEmbedding::new(4, &rope_freq);
    let q = mat(vec![vec![1.0, 2.0, 3.0, 4.0], vec![-1.0, 0.5, 2.0, -3.0], vec![0.25, 0.0, 1.0, 1.0]], 4);
    let k = mat(vec![vec![0.0; 4]], 4);
    let (rq, _) = rope.apply_qk(&q, &k, &trig, &rotate);
    let back = rows_of(rope.backward_rotation(&rq, 3, &trig, &unrotate, 0.0));
    let orig = rows_of(q);
    for t in 0..3 {
        for c in 0..4 {
            assert!(close(back[t][c], orig[t][c]));
        }
    }
}

#[test]
fn backward_rotation_zeroes_rows_past_seq_len_and_extra_columns() {
    let rope = RotaryEmbedding::new(2, &rope_freq);
    let g = mat(vec![vec![1.0, 2.0, 9.0], vec![3.0, 4.0, 9.0]], 3);
    let r = rows_of(rope.backward_rotation(&g, 1, &trig, &unrotate, 0.0));
    assert_eq!(r, vec![vec![1.0, 2.0, 0.0], vec![0.0, 0.0, 0.0]]);
}

#[test]
fn causal_mask_hides_later_positions() {
    let mut s = mat(vec![vec![1.0, 2.0, 3.0], vec![4.0, 5.0, 6.0], vec![7.0, 8.0, 9.0]], 3);
    apply_causal_mask(&mut s, f32::NEG_INFINITY);
    let n = f32::NEG_INFINITY;
    assert_eq!(rows_of(s), vec![vec![1.0, n, n], vec![4.0, 5.0, n], vec![7.0, 8.0, 9.0]]);
}

#[test]
fn causal_mask_keeps_columns_past_the_row_count() {
    let mut s = mat(vec![vec![1.0, 2.0, 3.0], vec![4.0, 5.0, 6.0]], 3);
    apply_causal_mask(&mut s, 0.0);
    assert_eq!(rows_of(s), vec![vec![1.0, 0.0, 3.0], vec![4.0, 5.0, 6.0]]);
}

#[test]
fn causal_mask_twice_is_causal_mask_once() {
    let rows = vec![vec![1u8, 2, 3], vec![4, 5, 6], vec![7, 8, 9]];
    let mut once = Matrix::from_rows(rows.clone(), 3).unwrap();
    apply_causal_mask(&mut once, 0);
    let mut twice = Matrix::from_rows(rows, 3).unwrap();
    apply_causal_mask(&mut twice, 0);
    apply_causal_mask(&mut twice, 0);
    assert_eq!(once.into_rows(), twice.into_rows());
}

fn larger(a: f32, b: f32) -> f32 {
    match a.partial_cmp(&b).unwrap() {
        std::cmp::Ordering::Greater => a,
        _ => b,
    }
}

fn shifted_exp(x: f32, max: f32) -> f32 {
    (x - max).exp()
}

fn divide(e: f32, total: f32) -> f32 {
    e / total
}

#[test]
fn softmax_rows_sum_to_one() {
    let s = mat(vec![vec![1.0, 1.0, 1.0, 1.0], vec![0.0, f32::NEG_INFINITY, 2.0, 1.0]], 4);
    let r = rows_of(softmax(&s, &larger, &shifted_exp, &plus, 0.0, &divide));
    assert_eq!(r[0], vec![0.25, 0.25, 0.25, 0.25]);
    assert_eq!(r[1][1], 0.0);
    let total: f32 = r[1].iter().sum();
    assert!(close(total, 1.0));
    let e2 = 1.0f32;
    let e0 = (-2.0f32).exp();
    let e3 = (-1.0f32).exp();
    assert!(close(r[1][2], e2 / (e0 + e2 + e3)));
}

#[test]
fn softmax_backward_matches_formula() {
    let y = mat(vec![vec![0.5, 0.5], vec![0.25, 0.75]], 2);
    let dy = mat(vec![vec![1.0, 3.0], vec![2.0, 2.0]], 2);
    let r = softmax_backward(&y, &dy, &|a: f32, b: f32| a * b, &plus, 0.0, &|y: f32, dy: f32, dot: f32| y * (dy - dot));
    // row 0: dot = 2, grads = 0.5 * -1, 0.5 * 1
    // row 1: dot = 2, grads = 0, 0
    assert_eq!(rows_of(r), vec![vec![-0.5, 0.5], vec![0.0, 0.0]]);
}

#[test]
fn softmax_backward_keeps_unpaired_rows_and_columns() {
    let y = mat(vec![vec![0.5, 0.5, 9.0], vec![1.0, 2.0, 3.0]], 3);
    let dy = mat(vec![vec![1.0, 3.0]], 2);
    let r = softmax_backward(&y, &dy, &|a: f32, b: f32| a * b, &plus, 0.0, &|y: f32, dy: f32, dot: f32| y * (dy - dot));
    assert_eq!(rows_of(r), vec![vec![-0.5, 0.5, 9.0], vec![1.0, 2.0, 3.0]]);
}
