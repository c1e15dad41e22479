use barracuda::cf::{CfParams, ConnectFour};
use barracuda::cf_eval::CfEval;
use barracuda::components::Policy;
use barracuda::fixed::Fixed;
use barracuda::policy::{sample, shift_by_min, total_weight, walk, Softmax, Uniform};
use barracuda::rng::random_index;
use barracuda::traits::BarracudaBoard;
use barracuda::ttt::{TicTacToeBoard, TicTacToeParams};

#[test]
fn walk_finds_the_weight_the_draw_falls_on() {
    let weights = vec![2u64, 3, 5];
    let picked: Vec<usize> = (0..10).map(|draw| walk(&weights, draw)).collect();
    assert_eq!(picked, vec![0, 0, 1, 1, 1, 2, 2, 2, 2, 2]);
}

#[test]
fn walk_stops_at_the_last_index() {
    let weights = vec![2u64, 3, 5];
    assert_eq!(walk(&weights, 10), 2);
    assert_eq!(walk(&weights, u128::MAX), 2);
    assert_eq!(walk(&vec![0u64], 0), 0);
}

#[test]
fn walk_skips_weights_of_zero() {
    let weights = vec![0u64, 0, 4, 0, 1];
    assert_eq!(walk(&weights, 0), 2);
    assert_eq!(walk(&weights, 3), 2);
    assert_eq!(walk(&weights, 4), 4);
}

#[test]
fn equal_weights_are_picked_equally_often() {
    let weights = vec![1000u64; 7];
    let mut counts = vec![0u64; 7];
    for draw in 0..7000 {
        counts[walk(&weights, draw)] += 1;
    }
    assert_eq!(counts, vec![1000u64; 7]);
}

#[test]
fn a_dominant_weight_is_picked_nearly_always() {
    let weights = vec![1u64, 1, 98, 1];
    let total = total_weight(&weights);
    assert_eq!(total, 101);
    let mut hits = 0;
    for draw in 0..total {
        if walk(&weights, draw) == 2 {
            hits += 1;
        }
    }
    assert!(hits * 100 > 95 * total);
}

#[test]
fn sampling_is_uniform_over_equal_weights() {
    let weights = vec![5u64; 4];
    let mut counts = vec![0u32; 4];
    for _ in 0..8000 {
        counts[sample(&weights)] += 1;
    }
    for count in counts {
        assert!(count > 1700 && count < 2300);
    }
}

#[test]
fn sampling_concentrates_on_a_dominant_weight() {
    let weights = vec![1u64, 1_000_000, 1];
    let mut hits = 0;
    for _ in 0..2000 {
        if sample(&weights) == 1 {
            hits += 1;
        }
    }
    assert!(hits > 1900);
}

#[test]
fn sampling_never_picks_a_weight_of_zero() {
    let weights = vec![0u64, 3, 0, 2, 0];
    for _ in 0..500 {
        let index = sample(&weights);
        assert!(index == 1 || index == 3);
    }
    assert_eq!(sample(&vec![0u64, 0, 0]), 0);
}

#[test]
fn total_weight_does_not_overflow() {
    assert_eq!(total_weight(&vec![u64::MAX, u64::MAX]), 2 * (u64::MAX as u128));
    assert_eq!(total_weight(&vec![]), 0);
}

#[test]
fn scores_are_shifted_by_their_minimum() {
    let scores = vec![Fixed::from_int(3), Fixed::from_int(-2), Fixed::from_int(5)];
    let shifted = shift_by_min(&scores);
    assert_eq!(
        shifted,
        vec![Fixed::from_int(5), Fixed::zero(), Fixed::from_int(7)]
    );
    assert_eq!(shift_by_min(&vec![]).len(), 0);
    let equal = shift_by_min(&vec![Fixed::from_int(4); 3]);
    assert_eq!(equal, vec![Fixed::zero(); 3]);
}

#[test]
fn random_index_stays_below_the_length() {
    for len in 1..20usize {
        for _ in 0..50 {
            assert!(random_index(len) < len);
        }
    }
    assert_eq!(random_index(1), 0);
}

#[test]
fn uniform_picks_every_move() {
    let board = TicTacToeBoard::new(TicTacToeParams);
    let moves = board.get_moves();
    let mut policy = Uniform::new();
    let mut seen = vec![false; moves.len()];
    for _ in 0..2000 {
        let index = policy.pick(&board, &moves);
        assert!(index < moves.len());
        seen[index] = true;
    }
    assert!(seen.iter().all(|s| *s));
}

#[test]
fn softmax_scores_each_resulting_position() {
    let board = ConnectFour::new(CfParams::default());
    let moves = board.get_moves();
    let mut softmax = Softmax::new(CfEval {});
    let scores = softmax.scores(&board, &moves);
    let expected: Vec<i64> = vec![
        -7_547_169,
        -13_793_103,
        -30_769_230,
        -80_000_000,
        -80_000_000,
        -30_769_230,
        -13_793_103,
    ];
    assert_eq!(scores.iter().map(|s| s.raw()).collect::<Vec<_>>(), expected);
    let shifted = shift_by_min(&scores);
    assert_eq!(shifted[3].raw(), 0);
    assert_eq!(shifted[0].raw(), 80_000_000 - 7_547_169);
}
