use othello_core::record::{format_compact, format_game_record};
use othello_core::{Board, GameState, Player};

#[test]
fn the_record_of_a_game_in_progress() {
    let mut game = GameState::new();
    game.make_move(19); // D3
    game.make_move(18); // C3
    game.make_move(17); // B3
    let text = format_game_record(&game, "Two Player", Some(Player::Black), "2024-01-31");
    let (black, white) = game.counts();
    let expected = format!(
        "[Othello Game Record]\nDate: 2024-01-31\nMode: Two Player\nPlayer: Black\n\nMoves:\n 1. D3 C3\n 2. B3 \n\nFinal: \u{25CF} {} - \u{25CB} {}\n",
        black, white
    );
    assert_eq!(text, expected);
    assert_eq!(format_compact(&game), "D3 C3 B3");
}

#[test]
fn the_record_of_a_new_game() {
    let game = GameState::new();
    let text = format_game_record(&game, "vs CPU", None, "");
    assert_eq!(
        text,
        "[Othello Game Record]\nDate: \nMode: vs CPU\n\nMoves:\n\nFinal: \u{25CF} 2 - \u{25CB} 2\n"
    );
    assert_eq!(format_compact(&game), "");
}

#[test]
fn the_record_of_a_finished_game_names_the_result() {
    let draw = Board { black: 0xFFFF_FFFF_0000_0000, white: 0x0000_0000_FFFF_FFFF };
    let game = GameState::from_board(draw, Player::Black);
    let text = format_game_record(&game, "m", Some(Player::White), "d");
    assert_eq!(
        text,
        "[Othello Game Record]\nDate: d\nMode: m\nPlayer: White\nResult: Draw 32-32\n\nMoves:\n\nFinal: \u{25CF} 32 - \u{25CB} 32\n"
    );

    let won = Board { black: u64::MAX & !0xFF, white: 0xFF };
    let game = GameState::from_board(won, Player::Black);
    let text = format_game_record(&game, "m", None, "d");
    assert!(text.contains("Result: Black wins 56-8\n"));
    assert!(text.ends_with("\nFinal: \u{25CF} 56 - \u{25CB} 8\n"));

    let lost = Board { black: 0x7, white: u64::MAX & !0x7 };
    let game = GameState::from_board(lost, Player::Black);
    let text = format_game_record(&game, "m", None, "d");
    assert!(text.contains("Result: White wins 3-61\n"));
}

#[test]
fn passes_are_written_as_two_dashes() {
    let mut board = Board::empty();
    board.place(Player::Black, 0);
    board.place(Player::White, 1);
    let mut game = GameState::from_board(board, Player::White);
    assert!(game.pass());
    assert!(game.make_move(2).is_some());
    assert!(game.pass());
    assert_eq!(format_compact(&game), "-- C1 --");
    let text = format_game_record(&game, "m", None, "d");
    assert!(text.contains("\nMoves:\n 1. -- C1\n 2. -- \n\nFinal: \u{25CF} 3 - \u{25CB} 0\n"));
}

#[test]
fn pairs_from_the_tenth_on_are_not_padded() {
    let mut game = GameState::new();
    for _ in 0..21 {
        match game.legal_moves().get(0) {
            Some(m) => {
                game.make_move(m.pos);
            }
            None => {
                assert!(game.pass());
            }
        }
    }
    assert_eq!(game.move_count(), 21);
    let text = format_game_record(&game, "m", None, "d");
    let lines: Vec<&str> = text.lines().collect();
    let first = lines.iter().position(|l| *l == "Moves:").unwrap() + 1;
    assert!(lines[first].starts_with(" 1. "));
    assert!(lines[first + 8].starts_with(" 9. "));
    assert!(lines[first + 9].starts_with("10. "));
    assert!(lines[first + 10].starts_with("11. "));
    // The last pair holds one ply and ends in a blank.
    assert_eq!(lines[first + 10].len(), "11. D3 ".len());
    assert!(lines[first + 10].ends_with(' '));
    assert_eq!(lines[first + 11], "");
    let compact = format_compact(&game);
    assert_eq!(compact.split(' ').count(), 21);
    for (token, entry) in compact.split(' ').zip(game.history()) {
        if entry.is_pass() {
            assert_eq!(token, "--");
        } else {
            let name = othello_core::pos_to_algebraic(entry.pos);
            assert_eq!(token.as_bytes(), &name);
        }
    }
}
