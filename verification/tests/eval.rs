use othello_core::eval::{
    count_frontier, count_stable_discs, evaluate_corners, evaluate_disc_count, evaluate_frontier,
    evaluate_mobility, evaluate_stability, neighbor_mask, quick_evaluate, SCORE_LOSS, SCORE_WIN,
};
use othello_core::{evaluate, Board, Player};

#[test]
fn test_starting_position_neutral() {
    let board = Board::new();
    let black_eval = evaluate(&board, Player::Black);
    let white_eval = evaluate(&board, Player::White);

    // Starting position should be roughly equal
    assert!(black_eval.abs() < 20);
    assert_eq!(black_eval, -white_eval);
}

#[test]
fn test_corner_value() {
    let mut board = Board::empty();

    // Give black a corner
    board.place(Player::Black, 0); // A1

    let eval = evaluate(&board, Player::Black);
    assert!(eval > 50); // Corner is valuable
}

#[test]
fn test_x_square_penalty() {
    // Test that X-squares are penalized relative to non-X-squares
    let mut board1 = Board::new();
    let mut board2 = Board::new();

    // Add black on X-square (B2) in board1
    board1.place(Player::Black, 9); // B2 - X-square

    // Add black on safe square in board2
    board2.place(Player::Black, 18); // C3 - not X-square

    let eval1 = evaluate_corners(&board1, Player::Black);
    let eval2 = evaluate_corners(&board2, Player::Black);

    // X-square should have lower eval than non-X-square
    assert!(eval1 < eval2, "X-square should be penalized");
}

#[test]
fn test_game_over_evaluation() {
    let mut board = Board::empty();

    // Black wins 40-24
    for i in 0..40 {
        board.place(Player::Black, i);
    }
    for i in 40..64 {
        board.place(Player::White, i);
    }

    let eval = evaluate(&board, Player::Black);
    assert!(eval > SCORE_WIN - 5000); // Should be a winning score
}

#[test]
fn test_mobility_value() {
    let board = Board::new();

    // Both players have equal mobility at start
    let mobility_eval = evaluate_mobility(&board, Player::Black);
    assert_eq!(mobility_eval, 0);
}

#[test]
fn test_stable_disc_counting() {
    let mut board = Board::empty();

    // Fill top edge with black, anchored at A1
    for col in 0..8 {
        board.place(Player::Black, col);
    }

    let stable = count_stable_discs(&board, Player::Black);
    assert_eq!(stable, 8); // All 8 discs on top edge are stable
}

#[test]
fn test_frontier() {
    let board = Board::new();

    // In starting position, all 4 discs are frontier (next to empty)
    let black_frontier = count_frontier(&board, Player::Black);
    let white_frontier = count_frontier(&board, Player::White);

    assert_eq!(black_frontier, 2);
    assert_eq!(white_frontier, 2);
}

#[test]
fn the_opening_is_worth_nothing_to_either_player() {
    let board = Board::new();
    assert_eq!(evaluate(&board, Player::Black), 0);
    assert_eq!(evaluate(&board, Player::White), 0);
    assert_eq!(quick_evaluate(&board, Player::Black), 0);
}

#[test]
fn a_finished_game_is_valued_by_its_margin() {
    let mut board = Board::empty();
    for i in 0..40 {
        board.place(Player::Black, i);
    }
    for i in 40..64 {
        board.place(Player::White, i);
    }
    assert_eq!(evaluate(&board, Player::Black), SCORE_WIN - 24 * 100);
    assert_eq!(evaluate(&board, Player::White), SCORE_LOSS + 24 * 100);

    let draw = Board { black: 0xFFFF_FFFF_0000_0000, white: 0x0000_0000_FFFF_FFFF };
    assert_eq!(evaluate(&draw, Player::Black), 0);
    assert_eq!(evaluate(&draw, Player::White), 0);

    // A lone disc on an otherwise empty board: no one can move, the owner has won.
    let mut lone = Board::empty();
    lone.place(Player::Black, 0);
    assert_eq!(evaluate(&lone, Player::Black), SCORE_WIN);
    assert_eq!(evaluate(&lone, Player::White), SCORE_LOSS);
}

#[test]
fn corners_count_100_each() {
    let mut board = Board::new();
    board.place(Player::Black, 0);
    assert_eq!(evaluate_corners(&board, Player::Black), 100);
    assert_eq!(evaluate_corners(&board, Player::White), -100);
    board.place(Player::White, 63);
    assert_eq!(evaluate_corners(&board, Player::Black), 0);
    board.place(Player::Black, 7);
    board.place(Player::Black, 56);
    assert_eq!(evaluate_corners(&board, Player::Black), 200);
}

#[test]
fn squares_next_to_a_vacant_corner_are_penalised() {
    let mut board = Board::new();
    board.place(Player::Black, 9); // B2
    assert_eq!(evaluate_corners(&board, Player::Black), -25);
    assert_eq!(evaluate_corners(&board, Player::White), 25);
    board.place(Player::Black, 1); // B1
    assert_eq!(evaluate_corners(&board, Player::Black), -35);
    board.place(Player::White, 62); // G8
    assert_eq!(evaluate_corners(&board, Player::Black), -25);
    // Once the corner is taken, its neighbours no longer count.
    board.place(Player::White, 0); // A1
    assert_eq!(evaluate_corners(&board, Player::Black), -100 + 10);
    assert_eq!(evaluate_corners(&board, Player::White), 100 - 10);
}

#[test]
fn mobility_counts_three_for_each_move_of_difference() {
    // Black A1, white B1: black has one move, white none.
    let mut board = Board::empty();
    board.place(Player::Black, 0);
    board.place(Player::White, 1);
    assert_eq!(evaluate_mobility(&board, Player::Black), 3);
    assert_eq!(evaluate_mobility(&board, Player::White), -3);
    assert_eq!(quick_evaluate(&board, Player::Black), 103);
    assert_eq!(quick_evaluate(&board, Player::White), -103);
}

#[test]
fn frontier_counts_discs_that_touch_a_vacant_square() {
    let board = Board::new();
    assert_eq!(evaluate_frontier(&board, Player::Black), 0);
    // A full board has no frontier at all.
    let full = Board { black: 0xFFFF_FFFF_0000_0000, white: 0x0000_0000_FFFF_FFFF };
    assert_eq!(count_frontier(&full, Player::Black), 0);
    assert_eq!(count_frontier(&full, Player::White), 0);
    // One vacant corner: only its three neighbours are frontier discs.
    let board = Board { black: 0xFFFF_FFFF_FFFF_0000, white: 0x0000_0000_0000_FFFE };
    assert_eq!(count_frontier(&board, Player::White), 3);
    assert_eq!(count_frontier(&board, Player::Black), 0);
    assert_eq!(evaluate_frontier(&board, Player::Black), 3);
    assert_eq!(evaluate_frontier(&board, Player::White), -3);
}

#[test]
fn neighbor_masks_stay_on_the_board() {
    assert_eq!(neighbor_mask(0), (1 << 1) | (1 << 8) | (1 << 9));
    assert_eq!(neighbor_mask(7), (1 << 6) | (1 << 14) | (1 << 15));
    assert_eq!(neighbor_mask(63), (1 << 62) | (1 << 54) | (1 << 55));
    assert_eq!(
        neighbor_mask(27),
        (1 << 18) | (1 << 19) | (1 << 20) | (1 << 26) | (1 << 28) | (1 << 34) | (1 << 35) | (1 << 36)
    );
    assert_eq!(neighbor_mask(8).count_ones(), 5);
    for p in 0u8..64 {
        assert_eq!(neighbor_mask(p) & (1u64 << p), 0);
    }
}

#[test]
fn disc_count_is_weighted_by_the_phase_of_the_game() {
    // 60 vacant squares: discs do not count.
    let mut board = Board::new();
    board.place(Player::Black, 0);
    assert_eq!(evaluate_disc_count(&board, Player::Black), 0);
    // 44 vacant squares: weight 1.
    let board = Board { black: 0x0000_0000_0000_0FFF, white: 0x0000_0000_000F_F000 };
    assert_eq!(board.empty_count(), 44);
    assert_eq!(evaluate_disc_count(&board, Player::Black), 4);
    // 20 vacant squares: weight 2.
    let board = Board { black: 0x0000_00FF_FFFF_FFFF, white: 0x0000_0F00_0000_0000 };
    assert_eq!(board.empty_count(), 20);
    assert_eq!(evaluate_disc_count(&board, Player::Black), 72);
    assert_eq!(evaluate_disc_count(&board, Player::White), -72);
    // 10 vacant squares: weight 5.
    let board = Board { black: 0x0000_FFFF_FFFF_FFFF, white: 0x003F_0000_0000_0000 };
    assert_eq!(board.empty_count(), 10);
    assert_eq!(evaluate_disc_count(&board, Player::Black), 210);
}

#[test]
fn stable_discs_are_corners_and_anchored_full_edges() {
    let mut board = Board::empty();
    for col in 0..8 {
        board.place(Player::Black, col);
    }
    assert_eq!(evaluate_stability(&board, Player::Black), 80);
    assert_eq!(evaluate_stability(&board, Player::White), -80);

    // A full edge whose corners belong to the opponent carries no stable disc.
    let mut board = Board::empty();
    board.place(Player::White, 0);
    board.place(Player::White, 7);
    for col in 1..7 {
        board.place(Player::Black, col);
    }
    assert_eq!(count_stable_discs(&board, Player::Black), 0);
    assert_eq!(count_stable_discs(&board, Player::White), 2);

    // An edge that is not full: only the corner counts.
    let mut board = Board::empty();
    for col in 0..7 {
        board.place(Player::Black, col);
    }
    assert_eq!(count_stable_discs(&board, Player::Black), 1);

    // A disc off the edges is never counted.
    let mut board = Board::new();
    board.place(Player::Black, 0);
    assert_eq!(count_stable_discs(&board, Player::Black), 1);
    assert_eq!(count_stable_discs(&board, Player::White), 0);
}

#[test]
fn evaluate_is_the_sum_of_its_features_while_a_move_is_left() {
    let mut board = Board::new();
    board.place(Player::Black, 0);
    board.place(Player::White, 62);
    board.place(Player::Black, 19);
    for player in [Player::Black, Player::White] {
        let sum = evaluate_corners(&board, player)
            + evaluate_mobility(&board, player)
            + evaluate_frontier(&board, player)
            + evaluate_disc_count(&board, player)
            + evaluate_stability(&board, player);
        assert_eq!(evaluate(&board, player), sum);
        assert!(evaluate(&board, player) > SCORE_LOSS);
        assert!(evaluate(&board, player) < SCORE_WIN);
    }
    assert_eq!(evaluate(&board, Player::Black), -evaluate(&board, Player::White));
}
