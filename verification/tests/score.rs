use corpus::score::{fuse_one, fuse_two, push_two_decimals, take_best, Score};

fn score(value: f32) -> Score {
    Score { bits: value.to_bits() }
}

#[test]
fn fused_shares_are_those_of_single_precision() {
    for rank in 0..20u32 {
        let share = 1.0f32 / (60.0 + rank as f32 + 1.0);
        assert_eq!(fuse_one(rank).bits, (0.0f32 + share).to_bits(), "rank {rank}");
        for other in 0..20u32 {
            let sum = share + 1.0f32 / (60.0 + other as f32 + 1.0);
            assert_eq!(fuse_two(rank, other).bits, sum.to_bits(), "ranks {rank} and {other}");
        }
    }
}

#[test]
fn two_decimals_are_those_of_the_formatter() {
    let mut values: Vec<f32> = vec![
        0.0, -0.0, 0.005, 0.015, 0.025, 0.125, 0.9, 0.994999, 0.995, 1.0, 1.005, 2.675, -1.5,
        -0.004, 12345.678, 1.0e10, 3.4e38, 1.0e-40, 0.0327869, 0.016393442,
    ];
    values.push(f32::INFINITY);
    values.push(f32::NEG_INFINITY);
    values.push(f32::NAN);
    for rank in 0..60 {
        values.push(1.0 / (61.0 + rank as f32));
        values.push(-(rank as f32) * 0.37);
    }
    for value in values {
        let mut out = String::new();
        push_two_decimals(&mut out, score(value));
        assert_eq!(out, format!("{value:.2}"), "{value:e}");
    }
}

#[test]
fn the_order_is_that_of_the_numbers() {
    let values = [f32::NEG_INFINITY, -2.0, -0.0, 0.0, 1.0e-40, 0.5, 1.0, f32::INFINITY];
    for pair in values.windows(2) {
        assert!(score(pair[0]).order() < score(pair[1]).order(), "{pair:?}");
    }
    for value in values {
        assert_eq!(score(value).is_positive(), value > 0.0);
    }
    assert!(!score(f32::NAN).is_positive());
}

#[test]
fn the_best_come_first_and_equals_keep_their_order() {
    let list = [(0, score(0.1)), (1, score(0.5)), (2, score(0.5)), (3, score(-1.0))];
    let ids = |limit: usize| -> Vec<usize> {
        take_best(&list, limit).iter().map(|item| item.0).collect()
    };
    assert_eq!(ids(10), vec![1, 2, 0, 3]);
    assert_eq!(ids(2), vec![1, 2]);
    assert!(ids(0).is_empty());
}

#[test]
fn agreement_beats_one_good_rank() {
    assert!(fuse_two(19, 19).order() > fuse_one(0).order());
    assert!(fuse_one(0).order() > fuse_one(1).order());
    assert!(fuse_two(0, 3).order() > fuse_two(1, 3).order());
}
