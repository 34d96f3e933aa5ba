use othello_core::{pos, Board, Player};

#[test]
fn test_starting_position() {
    let board = Board::new();
    assert_eq!(board.count(Player::Black), 2);
    assert_eq!(board.count(Player::White), 2);
    assert_eq!(board.empty_count(), 60);

    // Check specific positions
    assert!(board.has_disc(Player::Black, pos(3, 4))); // E4
    assert!(board.has_disc(Player::Black, pos(4, 3))); // D5
    assert!(board.has_disc(Player::White, pos(3, 3))); // D4
    assert!(board.has_disc(Player::White, pos(4, 4))); // E5
}

#[test]
fn test_place_and_remove() {
    let mut board = Board::empty();
    assert!(board.is_empty(0));

    board.place(Player::Black, 0);
    assert!(board.has_disc(Player::Black, 0));
    assert!(!board.is_empty(0));

    board.remove(Player::Black, 0);
    assert!(board.is_empty(0));
}

#[test]
fn test_flip() {
    let mut board = Board::empty();
    board.place(Player::Black, 0);
    board.place(Player::Black, 1);
    board.place(Player::Black, 2);

    let to_flip = (1u64 << 1) | (1u64 << 2);
    board.flip(Player::Black, to_flip);

    assert!(board.has_disc(Player::Black, 0));
    assert!(board.has_disc(Player::White, 1));
    assert!(board.has_disc(Player::White, 2));
}

#[test]
fn test_iter_bits() {
    let bits = 0b1010_0101u64;
    let positions: Vec<_> = Board::iter_bits(bits).collect();
    assert_eq!(positions, vec![0, 2, 5, 7]);
}

#[test]
fn test_get_disc() {
    let board = Board::new();
    assert_eq!(board.get_disc(pos(3, 3)), Some(Player::White)); // D4
    assert_eq!(board.get_disc(pos(3, 4)), Some(Player::Black)); // E4
    assert_eq!(board.get_disc(pos(0, 0)), None); // A1 empty
}

#[test]
fn opponent_is_an_involution() {
    assert_eq!(Player::Black.opponent(), Player::White);
    assert_eq!(Player::White.opponent(), Player::Black);
    assert_eq!(Player::Black.opponent().opponent(), Player::Black);
}

#[test]
fn default_board_is_the_opening() {
    assert_eq!(Board::default(), Board::new());
    assert_eq!(Board::new().black, (1u64 << 28) | (1u64 << 35));
    assert_eq!(Board::new().white, (1u64 << 27) | (1u64 << 36));
}

#[test]
fn get_and_get_mut_reach_the_same_set() {
    let mut board = Board::new();
    assert_eq!(board.get(Player::Black), board.black);
    assert_eq!(board.get(Player::White), board.white);
    *board.get_mut(Player::White) |= 1u64 << 63;
    assert!(board.has_disc(Player::White, 63));
    assert_eq!(board.get(Player::Black), Board::new().black);
}

#[test]
fn occupancy_queries_agree() {
    let board = Board::new();
    assert!(board.is_occupied(27));
    assert!(!board.is_occupied(0));
    assert_eq!(board.occupied(), board.black | board.white);
    assert_eq!(board.empty_squares(), !(board.black | board.white));
    assert_eq!(board.occupied() & board.empty_squares(), 0);
    assert!(!board.is_full());
    let full = Board { black: 0xFFFF_FFFF_0000_0000, white: 0x0000_0000_FFFF_FFFF };
    assert!(full.is_full());
    assert_eq!(full.empty_count(), 0);
}

#[test]
fn flip_keeps_the_two_sets_apart() {
    let mut board = Board::new();
    board.flip(Player::White, 1u64 << 27);
    assert_eq!(board.black & board.white, 0);
    assert!(board.has_disc(Player::Black, 27));
    assert!(!board.has_disc(Player::White, 27));
    assert_eq!(board.count(Player::Black), 3);
    assert_eq!(board.count(Player::White), 1);
}

#[test]
fn hash_combines_both_sets() {
    let board = Board { black: 3, white: 5 };
    assert_eq!(board.hash(), 3u64.wrapping_mul(0x9e3779b97f4a7c15) ^ 5);
    let swapped = Board { black: 5, white: 3 };
    assert_ne!(board.hash(), swapped.hash());
    assert_eq!(Board::empty().hash(), 0);
}

#[test]
fn lowest_bit_pos_finds_the_first_square() {
    assert_eq!(Board::lowest_bit_pos(0), None);
    assert_eq!(Board::lowest_bit_pos(1), Some(0));
    assert_eq!(Board::lowest_bit_pos(0b1010_0000), Some(5));
    assert_eq!(Board::lowest_bit_pos(1u64 << 63), Some(63));
}

#[test]
fn bit_iterator_visits_each_square_once() {
    let mut it = Board::iter_bits(u64::MAX);
    let mut seen = 0u64;
    let mut count = 0;
    while let Some(p) = it.next() {
        assert_eq!(seen & (1u64 << p), 0);
        seen |= 1u64 << p;
        count += 1;
    }
    assert_eq!(count, 64);
    assert_eq!(seen, u64::MAX);
    assert_eq!(it.next(), None);
    assert!(Board::iter_bits(0).collect().is_empty());
}

#[test]
fn bit_iterator_restarts_from_a_copy() {
    let it = Board::iter_bits(0b110);
    let mut first = it;
    assert_eq!(first.next(), Some(1));
    let mut second = it;
    assert_eq!(second.next(), Some(1));
    assert_eq!(second.next(), Some(2));
    assert_eq!(second.next(), None);
}
