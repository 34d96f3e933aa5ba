use othello_core::game::Advance;
use othello_core::moves::calculate_flips;
use othello_core::{pos, Board, GameResult, GameState, Player};

#[test]
fn test_new_game() {
    let game = GameState::new();
    assert_eq!(game.current_player(), Player::Black);
    assert_eq!(game.move_count(), 0);
    assert!(!game.is_game_over());
}

#[test]
fn test_make_move() {
    let mut game = GameState::new();

    // Black plays D3
    let result = game.make_move(pos(2, 3));
    assert!(result.is_some());

    let m = result.unwrap();
    assert_eq!(m.pos, pos(2, 3));
    assert_eq!(m.flip_count(), 1);

    // Now white's turn
    assert_eq!(game.current_player(), Player::White);
    assert_eq!(game.move_count(), 1);

    // Black should have 4 discs, white should have 1
    let (black, white) = game.counts();
    assert_eq!(black, 4);
    assert_eq!(white, 1);
}

#[test]
fn test_undo() {
    let mut game = GameState::new();

    // Make a move
    game.make_move(pos(2, 3));
    assert_eq!(game.current_player(), Player::White);

    // Undo
    let undone = game.undo();
    assert!(undone.is_some());
    assert_eq!(undone.unwrap().pos, pos(2, 3));
    assert_eq!(game.current_player(), Player::Black);
    assert_eq!(game.move_count(), 0);

    // Board should be back to starting position
    let (black, white) = game.counts();
    assert_eq!(black, 2);
    assert_eq!(white, 2);
}

#[test]
fn test_illegal_move() {
    let mut game = GameState::new();

    // Try to play on occupied square
    let result = game.make_move(pos(3, 3)); // D4 - white disc
    assert!(result.is_none());

    // Try to play where no flips
    let result = game.make_move(pos(0, 0)); // A1 - no flips
    assert!(result.is_none());

    // Game state should be unchanged
    assert_eq!(game.current_player(), Player::Black);
    assert_eq!(game.move_count(), 0);
}

#[test]
fn test_clone_at_move() {
    let mut game = GameState::new();

    // Play a few moves
    game.make_move(pos(2, 3)); // D3
    game.make_move(pos(2, 2)); // C3
    game.make_move(pos(2, 1)); // B3

    // Clone at move 1
    let clone = game.clone_at_move(1);
    assert_eq!(clone.move_count(), 1);
    assert_eq!(clone.current_player(), Player::White);
}

#[test]
fn test_pass() {
    // Create a position where white must pass
    let mut board = Board::empty();
    // Fill most of the board with black, leaving white with no moves
    board.black = u64::MAX & !0xFF; // All but first row
    board.white = 0x01; // Single white disc at A1

    let mut game = GameState::from_board(board, Player::White);

    // White should have no moves
    assert!(!game.has_moves());

    // Pass should succeed
    assert!(game.pass());
    assert_eq!(game.current_player(), Player::Black);
}

#[test]
fn test_game_over() {
    let mut board = Board::empty();
    // Fill board completely
    board.black = 0xFFFFFFFF00000000;
    board.white = 0x00000000FFFFFFFF;

    let game = GameState::from_board(board, Player::Black);
    assert!(game.is_game_over());

    let result = game.result().unwrap();
    assert!(matches!(result, GameResult::Draw(32)));
}

#[test]
fn test_history() {
    let mut game = GameState::new();

    game.make_move(pos(2, 3)); // D3
    game.make_move(pos(2, 2)); // C3

    let history = game.history();
    assert_eq!(history.len(), 2);
    assert_eq!(history[0].pos, pos(2, 3));
    assert_eq!(history[0].player, Player::Black);
    assert_eq!(history[1].pos, pos(2, 2));
    assert_eq!(history[1].player, Player::White);
}

#[test]
fn test_last_move() {
    let mut game = GameState::new();
    assert!(game.last_move().is_none());

    game.make_move(pos(2, 3));
    let last = game.last_move().unwrap();
    assert_eq!(last.pos, pos(2, 3));
}

/// Plays the first legal move of each turn, passing where there is none, for
/// at most `plies` plies.
fn play_first_moves(game: &mut GameState, plies: usize) {
    for _ in 0..plies {
        if game.is_game_over() {
            break;
        }
        let moves = game.legal_moves();
        match moves.get(0) {
            Some(m) => {
                assert!(game.make_move(m.pos).is_some());
            }
            None => {
                assert!(game.pass());
            }
        }
    }
}

#[test]
fn a_full_board_split_evenly_is_a_draw() {
    let board = Board { black: 0xFFFF_FFFF_0000_0000, white: 0x0000_0000_FFFF_FFFF };
    let game = GameState::from_board(board, Player::Black);
    assert!(game.is_game_over());
    assert_eq!(game.result(), Some(GameResult::Draw(32)));
    assert_eq!(game.result().unwrap().winner(), None);
    assert_eq!(game.result().unwrap().counts(), (32, 32));
    assert_eq!(game.counts(), (32, 32));
    assert_eq!(game.empty_count(), 0);
}

#[test]
fn result_names_the_player_with_more_discs() {
    let board = Board { black: u64::MAX & !0xFF, white: 0xFF };
    let game = GameState::from_board(board, Player::Black);
    assert_eq!(game.result(), Some(GameResult::Win(Player::Black, 56, 8)));
    assert_eq!(game.result().unwrap().winner(), Some(Player::Black));
    assert_eq!(game.result().unwrap().counts(), (56, 8));

    let board = Board { black: 0x1, white: u64::MAX & !0x1 };
    let game = GameState::from_board(board, Player::Black);
    assert_eq!(game.result(), Some(GameResult::Win(Player::White, 1, 63)));
    assert_eq!(game.result().unwrap().winner(), Some(Player::White));
}

#[test]
fn result_is_nothing_while_the_game_goes_on() {
    let game = GameState::new();
    assert_eq!(game.result(), None);
    assert_eq!(GameState::default().move_count(), 0);
}

#[test]
fn two_passes_in_a_row_end_the_game() {
    // White holds A1 alone, black everything but the first rank: no one can move.
    let board = Board { black: u64::MAX & !0xFF, white: 0x01 };
    let mut game = GameState::from_board(board, Player::White);
    assert!(!game.has_moves());
    assert_eq!(game.count_legal_moves(), 0);
    assert!(game.pass());
    assert_eq!(game.current_player(), Player::Black);
    assert!(!game.is_game_over());
    assert!(!game.has_moves());
    assert!(game.pass());
    assert_eq!(game.current_player(), Player::White);
    assert!(game.is_game_over());
    assert_eq!(game.result(), Some(GameResult::Win(Player::Black, 56, 1)));
    assert_eq!(game.move_count(), 2);
    assert!(game.history()[0].is_pass());
    assert_eq!(game.history()[0].pos, 255);
    assert_eq!(game.history()[0].flipped, 0);
    assert_eq!(game.history()[0].player, Player::White);
    assert!(game.history()[1].is_pass());
}

#[test]
fn a_pass_hands_the_turn_to_a_player_who_can_move() {
    // Black A1, white B1 and nothing else: white cannot move, black can.
    let mut board = Board::empty();
    board.place(Player::Black, 0);
    board.place(Player::White, 1);
    let mut game = GameState::from_board(board, Player::White);
    assert!(!game.has_moves());
    assert_eq!(game.mobility(Player::Black), 1);
    assert_eq!(game.mobility(Player::White), 0);
    assert!(game.pass());
    assert_eq!(game.current_player(), Player::Black);
    assert!(game.has_moves());
    assert!(!game.is_game_over());
    assert!(game.make_move(2).is_some());
    // Now neither can move: two passes end the game.
    assert!(game.pass());
    assert!(!game.is_game_over());
    assert!(game.pass());
    assert!(game.is_game_over());
}

#[test]
fn passing_is_refused_while_a_move_is_left() {
    let mut game = GameState::new();
    assert!(!game.pass());
    assert_eq!(game.current_player(), Player::Black);
    assert_eq!(game.move_count(), 0);
    assert_eq!(*game.board(), Board::new());
}

#[test]
fn undo_without_history_changes_nothing() {
    let mut game = GameState::new();
    assert!(game.undo().is_none());
    assert_eq!(*game.board(), Board::new());
    assert_eq!(game.current_player(), Player::Black);
    let mut game = GameState::from_board(Board::empty(), Player::White);
    assert!(game.undo().is_none());
    assert_eq!(game.current_player(), Player::White);
}

#[test]
fn a_move_that_is_undone_leaves_the_game_as_it_was() {
    let mut game = GameState::new();
    play_first_moves(&mut game, 12);
    let moves = game.legal_moves();
    for m in moves.iter() {
        let board = *game.board();
        let player = game.current_player();
        let count = game.move_count();
        let made = game.make_move(m.pos).unwrap();
        assert_eq!(made, *m);
        assert_ne!(*game.board(), board);
        assert_eq!(game.current_player(), player.opponent());
        let entry = game.undo().unwrap();
        assert_eq!(entry.pos, m.pos);
        assert_eq!(entry.flipped, m.flipped);
        assert_eq!(entry.player, player);
        assert_eq!(*game.board(), board);
        assert_eq!(game.current_player(), player);
        assert_eq!(game.move_count(), count);
        assert!(!game.is_game_over());
    }
}

#[test]
fn a_pass_that_is_undone_leaves_the_game_as_it_was() {
    let board = Board { black: u64::MAX & !0xFF, white: 0x01 };
    let mut game = GameState::from_board(board, Player::White);
    assert!(game.pass());
    assert!(game.pass());
    assert!(game.is_game_over());
    let entry = game.undo().unwrap();
    assert!(entry.is_pass());
    assert_eq!(entry.player, Player::Black);
    assert!(!game.is_game_over());
    assert_eq!(game.current_player(), Player::Black);
    let entry = game.undo().unwrap();
    assert_eq!(entry.player, Player::White);
    assert_eq!(game.current_player(), Player::White);
    assert_eq!(game.move_count(), 0);
    assert_eq!(*game.board(), board);
}

#[test]
fn make_move_applies_the_flips_it_returns() {
    let mut game = GameState::new();
    let before = *game.board();
    let flips = calculate_flips(&before, Player::Black, 19);
    let m = game.make_move(19).unwrap();
    assert_eq!(m.flipped, flips);
    assert_eq!(game.board().black, before.black | (1u64 << 19) | flips);
    assert_eq!(game.board().white, before.white & !flips);
    assert_eq!(game.last_move().unwrap().flipped, flips);
    assert!(!game.is_legal(19));
    assert!(game.make_move(64).is_none());
    assert!(game.make_move(255).is_none());
}

#[test]
fn legal_queries_follow_the_player_to_move() {
    let mut game = GameState::new();
    assert_eq!(game.legal_moves_bitboard(), (1 << 19) | (1 << 26) | (1 << 37) | (1 << 44));
    assert_eq!(game.count_legal_moves(), 4);
    assert_eq!(game.legal_moves().len(), 4);
    assert!(game.is_legal(19));
    assert!(!game.is_legal(18));
    game.make_move(19);
    assert_eq!(game.legal_moves_bitboard(), (1 << 18) | (1 << 20) | (1 << 34));
    assert_eq!(game.count_legal_moves(), 3);
    assert_eq!(game.mobility(Player::White), 3);
}

#[test]
fn clone_at_move_replays_the_recorded_plies() {
    let mut game = GameState::new();
    play_first_moves(&mut game, 20);
    let history: Vec<_> = game.history().to_vec();
    assert_eq!(history.len(), 20);
    for k in 0..=history.len() {
        let mut replayed = GameState::new();
        for entry in &history[..k] {
            if entry.is_pass() {
                assert!(replayed.pass());
            } else {
                assert!(replayed.make_move(entry.pos).is_some());
            }
        }
        let clone = game.clone_at_move(k);
        assert_eq!(*clone.board(), *replayed.board());
        assert_eq!(clone.current_player(), replayed.current_player());
        assert_eq!(clone.move_count(), k);
        assert_eq!(game.board_at_move(k), *replayed.board());
    }
    let whole = game.clone_at_move(1000);
    assert_eq!(*whole.board(), *game.board());
    assert_eq!(whole.move_count(), 20);
    assert_eq!(game.board_at_move(0), Board::new());
}

#[test]
fn a_clone_does_not_follow_the_game_it_came_from() {
    let mut game = GameState::new();
    game.make_move(19);
    let copy = game.clone();
    game.make_move(18);
    assert_eq!(copy.move_count(), 1);
    assert_eq!(copy.current_player(), Player::White);
    assert_eq!(game.move_count(), 2);
    assert_ne!(*copy.board(), *game.board());
}

#[test]
fn a_whole_game_ends_and_records_at_most_64_plies() {
    let mut game = GameState::new();
    play_first_moves(&mut game, 200);
    assert!(game.is_game_over());
    assert!(game.move_count() <= 64);
    let (black, white) = game.counts();
    assert_eq!(black + white + game.empty_count(), 64);
    let result = game.result().unwrap();
    assert_eq!(result.counts(), (black, white));
    assert_eq!(game.board().black & game.board().white, 0);
}

#[test]
fn plies_beyond_the_64th_are_played_but_not_recorded() {
    // Neither player can move: every pass succeeds, 64 of them are recorded.
    let board = Board { black: u64::MAX & !0xFF, white: 0x01 };
    let mut game = GameState::from_board(board, Player::White);
    for _ in 0..70 {
        assert!(game.pass());
    }
    assert_eq!(game.move_count(), 64);
    assert_eq!(game.history().len(), 64);
    assert_eq!(game.current_player(), Player::White);
    assert!(game.is_game_over());
}

#[test]
fn advance_makes_the_passes_that_are_forced() {
    // A move is left: nothing happens.
    let mut game = GameState::new();
    assert_eq!(game.advance(), Advance::Next);
    assert_eq!(game.move_count(), 0);
    assert_eq!(game.current_player(), Player::Black);

    // White cannot move, black can: white passes.
    let mut board = Board::empty();
    board.place(Player::Black, 0);
    board.place(Player::White, 1);
    let mut game = GameState::from_board(board, Player::White);
    assert_eq!(game.advance(), Advance::Passed);
    assert_eq!(game.current_player(), Player::Black);
    assert_eq!(game.move_count(), 1);
    assert!(!game.is_game_over());

    // After black's move no one can move: both pass and the game is over.
    assert!(game.make_move(2).is_some());
    assert_eq!(game.advance(), Advance::Over);
    assert!(game.is_game_over());
    assert_eq!(game.move_count(), 4);
    assert_eq!(game.result(), Some(GameResult::Win(Player::Black, 3, 0)));

    // A game that is over stays as it is.
    assert_eq!(game.advance(), Advance::Over);
    assert_eq!(game.move_count(), 4);
    let full = Board { black: 0xFFFF_FFFF_0000_0000, white: 0x0000_0000_FFFF_FFFF };
    let mut game = GameState::from_board(full, Player::Black);
    assert_eq!(game.advance(), Advance::Over);
    assert_eq!(game.move_count(), 0);
}
