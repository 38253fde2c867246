use corpus::config::EMBED_DIM;
use corpus::embed::{check_dimensions, normalization_policy, scatter_scores};
use corpus::score::Score;

#[test]
fn vectors_of_another_size_are_refused() {
    assert!(check_dimensions(&[]).is_ok());
    assert!(check_dimensions(&[EMBED_DIM, EMBED_DIM]).is_ok());
    assert_eq!(
        check_dimensions(&[EMBED_DIM, 384, 12]).unwrap_err(),
        "model returned 384-dim vectors, index expects 768-dim"
    );
}

#[test]
fn scores_come_in_the_order_of_the_documents() {
    let score = |value: f32| Score { bits: value.to_bits() };
    let scores = scatter_scores(&[(2, score(0.5)), (0, score(-1.0))], 4);
    let values: Vec<f32> = scores.iter().map(|score| f32::from_bits(score.bits)).collect();
    assert_eq!(values, vec![-1.0, 0.0, 0.5, 0.0]);
}

#[test]
fn vectors_are_scaled_to_unit_length() {
    assert_eq!(normalization_policy(), "l2");
}
