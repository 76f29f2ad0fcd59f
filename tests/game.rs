use poker_solver::poker::Game;
use poker_solver::{solve, GameResult};

#[test]
fn invalid_game() {
    let mut game = Game::new();
    assert!(game.solve_by("AsAd", "KsKd", "As3s7s").is_err());
}

#[test]
fn revealed_game_1() {
    let mut game = Game::new();
    let output = game.solve_by("AsAd", "KsKd", "2s3s7s3d6s").unwrap();
    assert_eq!((1, 0, 0), output);
}

#[test]
fn revealed_game_2() {
    let mut game = Game::new();
    let output = game.solve_by("3s2d", "2s3d", "9dTs7s4d6s").unwrap();
    assert_eq!((0, 0, 1), output);
}

#[test]
fn revealed_game_3() {
    let mut game = Game::new();
    let output = game.solve_by("3s2d", "2s3d", "9sTs7s4d6s").unwrap();
    assert_eq!((1, 0, 0), output);
}

#[test]
fn board_jqka_ak_qq() {
    let mut game = Game::new();
    let output = game.solve_by("AdKd", "QsQc", "QdJdAcKc").unwrap();
    assert_eq!((13, 28, 3), output);
}

#[test]
fn board_237_aa_kk() {
    let mut game = Game::new();
    let output = game.solve_by("AsAd", "KsKd", "2s3s7s").unwrap();
    assert_eq!((923, 67, 0), output);
}

#[test]
fn board_23456_aa_xx() {
    let mut game = Game::new();
    let output = game.solve_by("AsAd", "", "2s3s4s5s6s").unwrap();
    assert_eq!((0, 44, 946), output);
}

#[test]
fn board_2345_aa_xx() {
    let mut game = Game::new();
    let output = game.solve_by("AsAd", "", "2s3s4s5s").unwrap();
    assert_eq!((42570, 2024, 946), output);
}

#[test]
fn invalid_game_counts() {
    let mut game = Game::new();
    assert_eq!(game.solve_by("AsAd", "KsKd", "As3s7s").unwrap_err(), "Invalid game!");
    // One hole card only.
    assert!(game.solve_by("As", "KsKd", "2s3s7s").is_err());
    // One card for the second hand.
    assert!(game.solve_by("AsAd", "Ks", "2s3s7s").is_err());
    // Too few and too many community cards.
    assert!(game.solve_by("AsAd", "KsKd", "2s3s").is_err());
    assert!(game.solve_by("AsAd", "KsKd", "2s3s7s8s9s").is_ok());
    assert!(game.solve_by("AsAd", "KsKd", "2s3s7s8s9sTs").is_err());
    // The two hole hands share a card.
    assert!(game.solve_by("AsAd", "AsKd", "2s3s7s").is_err());
    // The second hand shares a card with the board.
    assert!(game.solve_by("AsAd", "KsKd", "Ks3s7s").is_err());
}

#[test]
fn solve_with_both_hands_swapped() {
    let mut game = Game::new();
    let ab = game.solve_by("AsAd", "KsKd", "2s3s7s").unwrap();
    let ba = game.solve_by("KsKd", "AsAd", "2s3s7s").unwrap();
    assert_eq!((ab.0, ab.1, ab.2), (ba.1, ba.0, ba.2));
}

#[test]
fn total_is_number_of_completions() {
    let mut game = Game::new();
    // Opponent known, two board cards missing: C(45, 2).
    let (w, l, t) = game.solve_by("AsAd", "KsKd", "2s3s7s").unwrap();
    assert_eq!(w + l + t, 990);
    // Opponent known, one board card missing: 44.
    let (w, l, t) = game.solve_by("AdKd", "QsQc", "QdJdAcKc").unwrap();
    assert_eq!(w + l + t, 44);
    // Opponent unknown, board complete: C(45, 2).
    let (w, l, t) = game.solve_by("AsAd", "", "2s3s4s5s6s").unwrap();
    assert_eq!(w + l + t, 990);
    // Opponent unknown, one board card missing: C(46, 2) * 44.
    let (w, l, t) = game.solve_by("AsAd", "", "2s3s4s5s").unwrap();
    assert_eq!(w + l + t, 1035 * 44);
}

#[test]
fn solve_by_sets_the_hands() {
    let mut game = Game::new();
    let _ = game.solve_by("AsAd", "KsKd", "2s3s7s");
    assert_eq!(game.hand_a.mask, (1u64 << 48) | (1u64 << 50));
    assert_eq!(game.hand_b.mask, (1u64 << 44) | (1u64 << 46));
    assert_eq!(game.community.mask, (1u64 << 0) | (1u64 << 4) | (1u64 << 20));
    assert_eq!(game.solve().unwrap(), (923, 67, 0));
}

#[test]
fn solve_function_gives_counts() {
    let mut game = Game::new();
    let output = solve(&mut game, "AsAd", "KsKd", "2s3s7s");
    assert_eq!(output, GameResult { win: 923, lose: 67, tie: 0 });
}

#[test]
fn solve_function_zero_on_invalid() {
    let mut game = Game::new();
    let output = solve(&mut game, "AsAd", "KsKd", "As3s7s");
    assert_eq!(output, GameResult { win: 0, lose: 0, tie: 0 });
}
