use othello_core::{Board, OpeningBook, Player};

#[test]
fn test_rotate_board() {
    let mut board = Board::empty();
    board.place(Player::Black, 0); // A1

    let rotated = OpeningBook::rotate_board(&board);
    // A1 rotated 90 CW -> H1
    assert!((rotated.black & (1u64 << 7)) != 0);
}

#[test]
fn test_mirror_board() {
    let mut board = Board::empty();
    board.place(Player::Black, 0); // A1

    let mirrored = OpeningBook::mirror_board(&board);
    // A1 mirrored -> H1
    assert!((mirrored.black & (1u64 << 7)) != 0);
}

#[test]
fn test_normalized_hash() {
    let mut board1 = Board::empty();
    board1.place(Player::Black, 0); // A1

    let mut board2 = Board::empty();
    board2.place(Player::Black, 7); // H1 (mirror of A1)

    // Both should normalize to the same hash
    let h1 = OpeningBook::normalized_hash(&board1);
    let h2 = OpeningBook::normalized_hash(&board2);
    assert_eq!(h1, h2);
}

#[test]
fn test_lookup_starting_position() {
    let board = Board::new();
    // Starting position may or may not be in book
    let _result = OpeningBook::lookup(&board);
    // Just verify it doesn't crash
}

fn sample_board() -> Board {
    let mut board = Board::new();
    board.place(Player::Black, 0);
    board.place(Player::White, 1);
    board.place(Player::Black, 19);
    board.place(Player::White, 62);
    board.place(Player::White, 15);
    board
}

#[test]
fn a_quarter_turn_moves_each_square_to_its_place() {
    let mut board = Board::empty();
    board.place(Player::Black, 0); // A1
    board.place(Player::White, 1); // B1
    board.place(Player::White, 8); // A2
    let rotated = OpeningBook::rotate_board(&board);
    assert_eq!(rotated.black, 1u64 << 7); // H1
    assert_eq!(rotated.white, (1u64 << 15) | (1u64 << 6)); // H2 and G1
    let mirrored = OpeningBook::mirror_board(&board);
    assert_eq!(mirrored.black, 1u64 << 7); // H1
    assert_eq!(mirrored.white, (1u64 << 6) | (1u64 << 15)); // G1 and H2
}

#[test]
fn four_quarter_turns_and_two_mirrors_give_the_board_back() {
    let board = sample_board();
    let mut turned = board;
    for _ in 0..4 {
        assert_eq!(turned.count(Player::Black), board.count(Player::Black));
        assert_eq!(turned.count(Player::White), board.count(Player::White));
        turned = OpeningBook::rotate_board(&turned);
    }
    assert_eq!(turned, board);
    assert_ne!(OpeningBook::rotate_board(&board), board);
    let mirrored = OpeningBook::mirror_board(&board);
    assert_ne!(mirrored, board);
    assert_eq!(OpeningBook::mirror_board(&mirrored), board);
}

#[test]
fn all_eight_images_share_one_canonical_hash() {
    let board = sample_board();
    let hash = OpeningBook::normalized_hash(&board);
    let mut least = u64::MAX;
    let mut turned = board;
    for _ in 0..4 {
        assert_eq!(OpeningBook::normalized_hash(&turned), hash);
        let mirrored = OpeningBook::mirror_board(&turned);
        assert_eq!(OpeningBook::normalized_hash(&mirrored), hash);
        least = least.min(turned.hash()).min(mirrored.hash());
        turned = OpeningBook::rotate_board(&turned);
    }
    assert_eq!(hash, least);
}

#[test]
fn the_book_answers_a_known_position_and_its_images() {
    // A position whose hash is the one the book holds, and the least among
    // those of its eight images.
    let board = Board { black: 0x1000_0000_0000_0000, white: 0x4818_0000_0000_0000 };
    assert_eq!(board.hash(), 0x1818_0000_0000_0000);
    assert_eq!(OpeningBook::normalized_hash(&board), 0x1818_0000_0000_0000);
    let mut turned = board;
    for _ in 0..4 {
        assert_eq!(OpeningBook::lookup(&turned), Some(19));
        assert_eq!(OpeningBook::lookup(&OpeningBook::mirror_board(&turned)), Some(19));
        turned = OpeningBook::rotate_board(&turned);
    }
}

#[test]
fn the_book_does_not_know_most_positions() {
    let board = Board { black: 0, white: 0x0000_0000_0000_1818 };
    assert_eq!(OpeningBook::normalized_hash(&board), 0x0000_0000_0000_1818);
    assert_eq!(OpeningBook::lookup(&board), None);
    assert_eq!(OpeningBook::lookup(&Board::new()), None);
    assert_eq!(OpeningBook::lookup(&Board::empty()), None);
}
