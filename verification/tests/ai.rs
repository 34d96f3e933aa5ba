use othello_core::ai::{
    alphabeta, apply_move, get_hint, order_moves, random_move, solve_endgame,
};
use othello_core::eval::{Score, SCORE_LOSS, SCORE_WIN};
use othello_core::moves::{calculate_flips, count_moves, generate_moves};
use othello_core::{evaluate, find_best_move, Board, Difficulty, GameState, Player};

#[test]
fn test_find_best_move_opening() {
    let board = Board::new();

    // Easy difficulty should find a move
    let best = find_best_move(&board, Player::Black, Difficulty::Easy);
    assert!(best.is_some());

    // Move should be legal
    let pos = best.unwrap();
    let flipped = calculate_flips(&board, Player::Black, pos);
    assert!(flipped != 0);
}

#[test]
fn test_all_difficulties() {
    let board = Board::new();

    for difficulty in [
        Difficulty::Easy,
        Difficulty::Medium,
        Difficulty::Hard,
        Difficulty::Expert,
    ] {
        let best = find_best_move(&board, Player::Black, difficulty);
        assert!(best.is_some(), "Difficulty {:?} failed", difficulty);

        let pos = best.unwrap();
        assert!(calculate_flips(&board, Player::Black, pos) != 0);
    }
}

#[test]
fn test_forced_move() {
    // Create position with only one legal move
    let mut board = Board::empty();
    board.place(Player::Black, 0);  // A1
    board.place(Player::White, 1);  // B1

    let best = find_best_move(&board, Player::Black, Difficulty::Easy);
    // Only legal move is C1 (position 2)
    if let Some(pos) = best {
        assert!(calculate_flips(&board, Player::Black, pos) != 0);
    }
}

#[test]
fn test_corner_preference() {
    // Create position where corner is available
    let mut board = Board::empty();

    // Set up so A1 is a valid move for black
    board.place(Player::White, 1);  // B1
    board.place(Player::Black, 2);  // C1

    let best = find_best_move(&board, Player::Black, Difficulty::Medium);
    // AI should prefer corner A1
    if let Some(pos) = best {
        if calculate_flips(&board, Player::Black, 0) != 0 {
            assert_eq!(pos, 0, "AI should take corner");
        }
    }
}

#[test]
fn test_endgame() {
    // Create near-endgame position
    let mut board = Board::empty();

    // Fill most of the board
    for i in 0..60 {
        if i % 2 == 0 {
            board.place(Player::Black, i);
        } else {
            board.place(Player::White, i);
        }
    }

    // This won't have legal moves, but tests the code path
    let result = find_best_move(&board, Player::Black, Difficulty::Hard);
    // May or may not find a move depending on position
    let _ = result;
}

#[test]
fn test_move_ordering() {
    let board = Board::new();
    let moves = generate_moves(&board, Player::Black);
    let ordered = order_moves(&board, Player::Black, &moves);

    // Should have 4 moves
    assert!(moves.len() == 4);

    // First moves in ordering should be the ones with best quick eval
    assert!(ordered[0] < moves.len());
}

/// The value of `board` for `player` by plain exhaustive search, without any
/// pruning or ordering.
fn exhaustive(board: &Board, player: Player, depth: u8, maximizing: bool) -> Score {
    if depth == 0 {
        return evaluate(board, player);
    }
    let current = if maximizing { player } else { player.opponent() };
    let moves = generate_moves(board, current);
    if moves.is_empty() {
        if count_moves(board, current.opponent()) == 0 {
            return evaluate(board, player);
        }
        return exhaustive(board, player, depth, !maximizing);
    }
    let mut best = if maximizing { SCORE_LOSS } else { SCORE_WIN };
    for m in moves.iter() {
        let next = apply_move(board, current, m.pos, m.flipped);
        let value = exhaustive(&next, player, depth - 1, !maximizing);
        best = if maximizing { best.max(value) } else { best.min(value) };
    }
    best
}

/// The value of `board` for `player` with best play to the end, by plain
/// exhaustive search.
fn exhaustive_to_the_end(board: &Board, player: Player, maximizing: bool) -> Score {
    let current = if maximizing { player } else { player.opponent() };
    let moves = generate_moves(board, current);
    if moves.is_empty() {
        if count_moves(board, current.opponent()) == 0 {
            let own = board.count(player) as Score;
            let opp = board.count(player.opponent()) as Score;
            return if own > opp {
                SCORE_WIN - opp
            } else if opp > own {
                SCORE_LOSS + own
            } else {
                0
            };
        }
        return exhaustive_to_the_end(board, player, !maximizing);
    }
    let mut best = if maximizing { SCORE_LOSS } else { SCORE_WIN };
    for m in moves.iter() {
        let next = apply_move(board, current, m.pos, m.flipped);
        let value = exhaustive_to_the_end(&next, player, !maximizing);
        best = if maximizing { best.max(value) } else { best.min(value) };
    }
    best
}

/// A position some plies into a game in which each player takes the first
/// legal move.
fn position_after(plies: usize) -> (Board, Player) {
    let mut game = GameState::new();
    for _ in 0..plies {
        if game.is_game_over() {
            break;
        }
        match game.legal_moves().get(0) {
            Some(m) => {
                game.make_move(m.pos);
            }
            None => {
                game.pass();
            }
        }
    }
    (*game.board(), game.current_player())
}

#[test]
fn difficulty_table() {
    assert_eq!(Difficulty::Easy.depth(), 2);
    assert_eq!(Difficulty::Medium.depth(), 4);
    assert_eq!(Difficulty::Hard.depth(), 6);
    assert_eq!(Difficulty::Expert.depth(), 8);
    assert!(!Difficulty::Easy.use_endgame_solver());
    assert!(!Difficulty::Medium.use_endgame_solver());
    assert!(Difficulty::Hard.use_endgame_solver());
    assert!(Difficulty::Expert.use_endgame_solver());
    assert!(!Difficulty::Easy.use_opening_book());
    assert!(!Difficulty::Medium.use_opening_book());
    assert!(!Difficulty::Hard.use_opening_book());
    assert!(Difficulty::Expert.use_opening_book());
    assert_eq!(Difficulty::Easy.endgame_threshold(), 0);
    assert_eq!(Difficulty::Medium.endgame_threshold(), 0);
    assert_eq!(Difficulty::Hard.endgame_threshold(), 12);
    assert_eq!(Difficulty::Expert.endgame_threshold(), 14);
}

#[test]
fn apply_move_places_and_flips() {
    let board = Board::new();
    let flips = calculate_flips(&board, Player::Black, 19);
    let next = apply_move(&board, Player::Black, 19, flips);
    assert_eq!(next.black, board.black | (1 << 19) | (1 << 27));
    assert_eq!(next.white, board.white & !(1u64 << 27));
    assert_eq!(board, Board::new());
}

#[test]
fn the_only_legal_move_is_played_at_every_strength() {
    let mut board = Board::empty();
    board.place(Player::Black, 0); // A1
    board.place(Player::White, 1); // B1
    assert_eq!(generate_moves(&board, Player::Black).len(), 1);
    for difficulty in [Difficulty::Easy, Difficulty::Medium, Difficulty::Hard, Difficulty::Expert] {
        assert_eq!(find_best_move(&board, Player::Black, difficulty), Some(2));
        assert_eq!(find_best_move(&board, Player::White, difficulty), None);
    }
    assert_eq!(get_hint(&board, Player::Black), Some(2));
    assert_eq!(get_hint(&board, Player::White), None);
}

#[test]
fn no_move_is_found_where_none_is_legal() {
    let board = Board { black: 0xFFFF_FFFF_0000_0000, white: 0x0000_0000_FFFF_FFFF };
    for difficulty in [Difficulty::Easy, Difficulty::Medium, Difficulty::Hard, Difficulty::Expert] {
        assert_eq!(find_best_move(&board, Player::Black, difficulty), None);
    }
    assert_eq!(random_move(&board, Player::Black), None);
}

#[test]
fn ordering_is_a_permutation_from_the_highest_rank_down() {
    // Black may take the corner A1 or play elsewhere.
    let mut board = Board::new();
    board.place(Player::White, 1);
    board.place(Player::Black, 2);
    board.place(Player::White, 9);
    board.place(Player::Black, 18);
    let moves = generate_moves(&board, Player::Black);
    let n = moves.len();
    assert!(n >= 2);
    let ordered = order_moves(&board, Player::Black, &moves);
    let mut seen = vec![false; n];
    for &idx in &ordered[..n] {
        assert!(idx < n);
        assert!(!seen[idx]);
        seen[idx] = true;
    }
    for (i, &idx) in ordered.iter().enumerate().skip(n) {
        assert_eq!(idx, i);
    }
    // The corner stands first.
    assert_eq!(moves.get(ordered[0]).unwrap().pos, 0);
    let rank = |idx: usize| -> i32 {
        let m = moves.get(idx).unwrap();
        let p = m.pos;
        let bonus = if [0, 7, 56, 63].contains(&p) {
            1000
        } else if [9, 14, 49, 54].contains(&p) {
            -500
        } else if [1, 6, 8, 15, 48, 55, 57, 62].contains(&p) {
            -200
        } else if p < 8 || p >= 56 || p % 8 == 0 || p % 8 == 7 {
            100
        } else {
            0
        };
        let next = apply_move(&board, Player::Black, p, m.flipped);
        bonus + m.flip_count() as i32 * 5 - count_moves(&next, Player::White) as i32 * 3
    };
    for w in ordered[..n].windows(2) {
        assert!(rank(w[0]) >= rank(w[1]));
    }
}

#[test]
fn ordering_of_an_empty_list_leaves_every_index_in_place() {
    let board = Board::empty();
    let moves = generate_moves(&board, Player::Black);
    let ordered = order_moves(&board, Player::Black, &moves);
    for (i, &idx) in ordered.iter().enumerate() {
        assert_eq!(idx, i);
    }
}

#[test]
fn pruning_does_not_change_the_value() {
    for plies in [0usize, 3, 8, 15] {
        let (board, player) = position_after(plies);
        for depth in 0..=3u8 {
            for maximizing in [true, false] {
                let pruned = alphabeta(&board, player, depth, SCORE_LOSS, SCORE_WIN, maximizing);
                assert_eq!(pruned, exhaustive(&board, player, depth, maximizing));
            }
        }
    }
}

#[test]
fn a_narrow_window_bounds_the_value() {
    let (board, player) = position_after(6);
    let value = exhaustive(&board, player, 3, true);
    for (alpha, beta) in [(-5, 5), (value - 1, value + 1), (value, value + 10), (value - 10, value)] {
        let r = alphabeta(&board, player, 3, alpha, beta, true);
        if r <= alpha {
            assert!(value <= r);
        } else if r >= beta {
            assert!(value >= r);
        } else {
            assert_eq!(r, value);
        }
    }
}

#[test]
fn a_pass_costs_no_depth() {
    // White cannot move, black can: at depth 1 the search for white to move
    // sees black's move.
    let mut board = Board::empty();
    board.place(Player::Black, 0);
    board.place(Player::White, 1);
    let value = alphabeta(&board, Player::Black, 1, SCORE_LOSS, SCORE_WIN, false);
    let after = apply_move(&board, Player::Black, 2, 1 << 1);
    assert_eq!(value, evaluate(&after, Player::Black));
    assert_eq!(value, SCORE_WIN);
}

#[test]
fn depth_zero_is_the_static_value() {
    let (board, player) = position_after(5);
    let value = alphabeta(&board, player, 0, SCORE_LOSS, SCORE_WIN, true);
    assert_eq!(value, evaluate(&board, player));
}

/// A position with `empties` vacant squares, from a game in which each player
/// takes the first legal move.
fn late_position(empties: u32) -> (Board, Player) {
    let mut game = GameState::new();
    while game.empty_count() > empties && !game.is_game_over() {
        match game.legal_moves().get(0) {
            Some(m) => {
                game.make_move(m.pos);
            }
            None => {
                game.pass();
            }
        }
    }
    (*game.board(), game.current_player())
}

#[test]
fn the_solver_finds_the_exact_outcome() {
    for empties in [1u32, 3, 5, 7] {
        let (board, player) = late_position(empties);
        for side in [player, player.opponent()] {
            for maximizing in [true, false] {
                let solved = solve_endgame(&board, side, SCORE_LOSS, SCORE_WIN, maximizing);
                let brute = exhaustive_to_the_end(&board, side, maximizing);
                assert_eq!(solved, brute);
                assert_eq!(solved.signum(), brute.signum());
            }
        }
    }
}

#[test]
fn the_solver_values_a_finished_game_by_the_discs() {
    let draw = Board { black: 0xFFFF_FFFF_0000_0000, white: 0x0000_0000_FFFF_FFFF };
    assert_eq!(solve_endgame(&draw, Player::Black, SCORE_LOSS, SCORE_WIN, true), 0);
    let won = Board { black: u64::MAX & !0xFF, white: 0xFF };
    assert_eq!(
        solve_endgame(&won, Player::Black, SCORE_LOSS, SCORE_WIN, true),
        SCORE_WIN - 8
    );
    assert_eq!(
        solve_endgame(&won, Player::White, SCORE_LOSS, SCORE_WIN, true),
        SCORE_LOSS + 8
    );
    assert_eq!(
        solve_endgame(&won, Player::White, SCORE_LOSS, SCORE_WIN, false),
        SCORE_LOSS + 8
    );
}

#[test]
fn the_best_move_has_the_highest_value() {
    let (board, player) = position_after(7);
    let moves = generate_moves(&board, player);
    assert!(moves.len() >= 2);
    for difficulty in [Difficulty::Easy, Difficulty::Medium] {
        let best = find_best_move(&board, player, difficulty).unwrap();
        let depth = difficulty.depth();
        let mut top = SCORE_LOSS;
        let mut best_value = SCORE_LOSS;
        for m in moves.iter() {
            let next = apply_move(&board, player, m.pos, m.flipped);
            let value = exhaustive(&next, player, depth - 1, false);
            top = top.max(value);
            if m.pos == best {
                best_value = value;
            }
        }
        assert_eq!(best_value, top);
    }
}

#[test]
fn the_solver_picks_a_move_that_keeps_the_exact_value() {
    let (board, player) = late_position(6);
    let moves = generate_moves(&board, player);
    if moves.len() >= 2 {
        let best = find_best_move(&board, player, Difficulty::Hard).unwrap();
        let whole = exhaustive_to_the_end(&board, player, true);
        let flips = calculate_flips(&board, player, best);
        assert!(flips != 0);
        let next = apply_move(&board, player, best, flips);
        assert_eq!(exhaustive_to_the_end(&next, player, false), whole);
    }
}

#[test]
fn the_book_move_is_played_by_the_expert_alone() {
    let board = Board { black: 0x1000_0000_0000_0000, white: 0x4818_0000_0000_0000 };
    assert!(generate_moves(&board, Player::Black).len() >= 2);
    assert_eq!(find_best_move(&board, Player::Black, Difficulty::Expert), Some(19));
    let hard = find_best_move(&board, Player::Black, Difficulty::Hard).unwrap();
    assert!(calculate_flips(&board, Player::Black, hard) != 0);
    assert_eq!(get_hint(&board, Player::Black), Some(hard));
}

#[test]
fn random_move_is_picked_by_the_hash() {
    let board = Board::new();
    let moves = generate_moves(&board, Player::Black);
    let idx = (board.hash() as usize) % moves.len();
    assert_eq!(random_move(&board, Player::Black), Some(moves.get(idx).unwrap().pos));
    assert_eq!(random_move(&board, Player::Black), random_move(&board, Player::Black));
}
