use othello_core::moves::{
    calculate_flips, count_moves, game_has_moves, generate_moves, is_legal_move,
    legal_moves_bitboard,
};
use othello_core::{algebraic_to_pos, pos, Board, Move, MoveList, Player, Position};

#[test]
fn test_starting_moves() {
    let board = Board::new();
    let moves = generate_moves(&board, Player::Black);

    // Black has exactly 4 opening moves
    assert_eq!(moves.len(), 4);

    // Valid opening moves: D3, C4, F5, E6
    let legal_positions: Vec<Position> = moves.iter().map(|m| m.pos).collect();
    assert!(legal_positions.contains(&pos(2, 3))); // D3
    assert!(legal_positions.contains(&pos(3, 2))); // C4
    assert!(legal_positions.contains(&pos(4, 5))); // F5
    assert!(legal_positions.contains(&pos(5, 4))); // E6
}

#[test]
fn test_flip_calculation() {
    let board = Board::new();

    // D3 flips D4 (one white disc)
    let flipped = calculate_flips(&board, Player::Black, pos(2, 3));
    assert_eq!(flipped.count_ones(), 1);
    assert!((flipped & (1u64 << pos(3, 3))) != 0); // D4 is flipped
}

#[test]
fn test_no_moves_on_occupied() {
    let board = Board::new();

    // Can't play on D4 (occupied by white)
    assert_eq!(calculate_flips(&board, Player::Black, pos(3, 3)), 0);

    // Can't play on E4 (occupied by black)
    assert_eq!(calculate_flips(&board, Player::White, pos(3, 4)), 0);
}

#[test]
fn test_multiple_direction_flip() {
    // Create a position where a move flips in multiple directions
    let mut board = Board::empty();

    // Set up: Black at A1, White at B1, B2
    board.place(Player::Black, pos(0, 0)); // A1
    board.place(Player::Black, pos(2, 2)); // C3
    board.place(Player::White, pos(1, 1)); // B2

    // C1 should flip B2 (diagonal)
    let flipped = calculate_flips(&board, Player::Black, pos(0, 2));
    assert_eq!(flipped, 0); // B2 is not between A1 and C1 diagonally

    // A3 would flip B2 diagonally
    let flipped = calculate_flips(&board, Player::Black, pos(2, 0));
    assert_eq!(flipped, 0); // Not on the right diagonal
}

#[test]
fn test_legal_moves_bitboard() {
    let board = Board::new();
    let legal = legal_moves_bitboard(&board, Player::Black);

    // Should have exactly 4 bits set
    assert_eq!(legal.count_ones(), 4);

    // Check specific positions
    assert!((legal & (1u64 << pos(2, 3))) != 0); // D3
    assert!((legal & (1u64 << pos(3, 2))) != 0); // C4
    assert!((legal & (1u64 << pos(4, 5))) != 0); // F5
    assert!((legal & (1u64 << pos(5, 4))) != 0); // E6
}

#[test]
fn test_is_legal_move() {
    let board = Board::new();

    assert!(is_legal_move(&board, Player::Black, pos(2, 3))); // D3
    assert!(!is_legal_move(&board, Player::Black, pos(0, 0))); // A1 - no flips
    assert!(!is_legal_move(&board, Player::Black, pos(3, 3))); // D4 - occupied
}

#[test]
fn test_move_list() {
    let mut list = MoveList::new();
    assert!(list.is_empty());

    list.push(Move::new(0, 1));
    list.push(Move::new(1, 2));

    assert_eq!(list.len(), 2);
    assert_eq!(list.get(0).unwrap().pos, 0);
    assert_eq!(list.get(1).unwrap().pos, 1);
    assert!(list.get(2).is_none());
}

#[test]
fn opening_moves_are_d3_c4_f5_e6_in_rising_order() {
    let board = Board::new();
    let moves = generate_moves(&board, Player::Black);
    let squares: Vec<Position> = moves.iter().map(|m| m.pos).collect();
    assert_eq!(
        squares,
        vec![
            algebraic_to_pos(b"D3").unwrap(),
            algebraic_to_pos(b"C4").unwrap(),
            algebraic_to_pos(b"F5").unwrap(),
            algebraic_to_pos(b"E6").unwrap(),
        ]
    );
    assert_eq!(squares, vec![19, 26, 37, 44]);
    assert_eq!(count_moves(&board, Player::Black), 4);
    assert_eq!(count_moves(&board, Player::White), 4);
}

#[test]
fn d3_on_the_opening_board_flips_d4_alone() {
    let board = Board::new();
    let d3 = algebraic_to_pos(b"D3").unwrap();
    let d4 = algebraic_to_pos(b"D4").unwrap();
    assert_eq!(calculate_flips(&board, Player::Black, d3), 1u64 << d4);
}

#[test]
fn legality_is_a_flip_set_that_is_not_empty() {
    let mut board = Board::new();
    board.place(Player::White, 19);
    board.place(Player::Black, 44);
    for player in [Player::Black, Player::White] {
        let mask = legal_moves_bitboard(&board, player);
        let mut count = 0;
        for p in 0u8..64 {
            let flips = calculate_flips(&board, player, p);
            assert_eq!(is_legal_move(&board, player, p), flips != 0);
            assert_eq!(mask & (1u64 << p) != 0, flips != 0);
            if flips != 0 {
                assert!(board.is_empty(p));
                assert_eq!(flips & board.get(player.opponent()), flips);
                count += 1;
            }
        }
        assert_eq!(count_moves(&board, player), count);
        assert_eq!(generate_moves(&board, player).len() as u32, count);
        assert_eq!(generate_moves(&board, player).as_bitboard(), mask);
    }
}

#[test]
fn squares_off_the_board_are_never_legal() {
    let board = Board::new();
    assert_eq!(calculate_flips(&board, Player::Black, 64), 0);
    assert_eq!(calculate_flips(&board, Player::Black, 255), 0);
    assert!(!is_legal_move(&board, Player::Black, 64));
    assert!(!is_legal_move(&board, Player::White, 200));
}

#[test]
fn captures_do_not_wrap_round_the_edges() {
    // White on A2, black on H1: from B2 the walk to the left ends at the edge.
    let mut board = Board::empty();
    board.place(Player::White, 8);
    board.place(Player::Black, 7);
    assert_eq!(calculate_flips(&board, Player::Black, 9), 0);

    // White on H1, black on A2: from G1 the walk to the right ends at the edge.
    let mut board = Board::empty();
    board.place(Player::White, 7);
    board.place(Player::Black, 8);
    assert_eq!(calculate_flips(&board, Player::Black, 6), 0);
    assert_eq!(count_moves(&board, Player::Black), 0);

    // White on H2, black on A4: the diagonal from G1 leaves the board after H2.
    let mut board = Board::empty();
    board.place(Player::White, 15);
    board.place(Player::Black, 24);
    assert_eq!(calculate_flips(&board, Player::Black, 6), 0);
}

#[test]
fn captures_run_along_edges_and_into_corners() {
    // A1 black, B1..G1 white: H1 turns the six between.
    let mut board = Board::empty();
    board.place(Player::Black, 0);
    for c in 1..7 {
        board.place(Player::White, c);
    }
    assert_eq!(calculate_flips(&board, Player::Black, 7), 0b0111_1110);

    // The long diagonal from A1 to H8.
    let mut board = Board::empty();
    board.place(Player::Black, 63);
    for k in 1..7u8 {
        board.place(Player::White, k * 9);
    }
    let expected: u64 = (1..7u8).map(|k| 1u64 << (k * 9)).sum();
    assert_eq!(calculate_flips(&board, Player::Black, 0), expected);

    // File H from the top to the bottom.
    let mut board = Board::empty();
    board.place(Player::White, 7);
    for r in 1..7u8 {
        board.place(Player::Black, r * 8 + 7);
    }
    let expected: u64 = (1..7u8).map(|r| 1u64 << (r * 8 + 7)).sum();
    assert_eq!(calculate_flips(&board, Player::White, 63), expected);
}

#[test]
fn a_move_captures_in_several_directions_at_once() {
    // Black to play D4 between white discs, closed by black in three directions.
    let mut board = Board::empty();
    board.place(Player::White, pos(3, 4)); // E4
    board.place(Player::Black, pos(3, 5)); // F4
    board.place(Player::White, pos(4, 3)); // D5
    board.place(Player::Black, pos(5, 3)); // D6
    board.place(Player::White, pos(2, 2)); // C3
    board.place(Player::Black, pos(1, 1)); // B2
    board.place(Player::White, pos(3, 2)); // C4, open to the left
    let flips = calculate_flips(&board, Player::Black, pos(3, 3));
    assert_eq!(
        flips,
        (1u64 << pos(3, 4)) | (1u64 << pos(4, 3)) | (1u64 << pos(2, 2))
    );
}

#[test]
fn a_run_that_ends_on_a_vacant_square_captures_nothing() {
    let mut board = Board::empty();
    board.place(Player::White, 1);
    board.place(Player::White, 2);
    assert_eq!(calculate_flips(&board, Player::Black, 0), 0);
    assert!(!game_has_moves(&board));
    board.place(Player::Black, 3);
    assert_eq!(calculate_flips(&board, Player::Black, 0), 0b110);
    assert!(game_has_moves(&board));
}

#[test]
fn move_reports_what_it_holds() {
    let m = Move::new(19, 1u64 << 27);
    assert_eq!(m.pos, 19);
    assert_eq!(m.flipped, 1u64 << 27);
    assert!(m.is_valid());
    assert_eq!(m.flip_count(), 1);
    assert!(!Move::new(0, 0).is_valid());
    assert_eq!(Move::new(0, 0b1011).flip_count(), 3);
}

#[test]
fn move_list_holds_at_most_32_moves() {
    let mut list = MoveList::new();
    for i in 0..40u8 {
        list.push(Move::new(i, 1));
    }
    assert_eq!(list.len(), 32);
    assert_eq!(list.get(31).unwrap().pos, 31);
    assert!(list.get(32).is_none());
    assert_eq!(list.as_bitboard(), 0xFFFF_FFFF);
    let copy = list.clone();
    assert_eq!(copy.len(), 32);
    assert_eq!(copy.get(5), list.get(5));
    assert!(MoveList::default().is_empty());
}

#[test]
fn generated_moves_carry_their_flips() {
    let board = Board::new();
    let moves = generate_moves(&board, Player::White);
    assert_eq!(moves.len(), 4);
    for m in moves.iter() {
        assert!(m.is_valid());
        assert_eq!(m.flipped, calculate_flips(&board, Player::White, m.pos));
    }
}
