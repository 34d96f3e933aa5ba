//! Othello rules engine and search-based opponent.

pub mod bits;
pub mod board;
pub mod moves;
pub mod game;
pub mod eval;
pub mod opening;
pub mod ai;
pub mod menu;
pub mod what_if;
pub mod storage;
pub mod record;
pub mod help;

pub use board::{Board, Player, BitIter};
pub use moves::{Move, MoveList};
pub use game::{GameState, GameResult, HistoryEntry};
pub use eval::evaluate;
pub use ai::{Difficulty, find_best_move};
pub use opening::OpeningBook;

use vstd::prelude::*;

verus! {

/// A square of the board, `row * 8 + col`, in `0..64`; row 0 is rank 1, column
/// 0 is file A.
pub type Position = u8;

/// The square at `row`, `col`.
pub open spec fn square(row: int, col: int) -> int {
    row * 8 + col
}

/// The square of the file letter `file` and the rank digit `rank`, where both
/// are valid; the letter may be in either case.
pub open spec fn parse_square(file: u8, rank: u8) -> Option<int> {
    if 0x31 <= rank <= 0x38 {
        if 0x41 <= file <= 0x48 {
            Some(square(rank - 0x31, file - 0x41))
        } else if 0x61 <= file <= 0x68 {
            Some(square(rank - 0x31, file - 0x61))
        } else {
            None
        }
    } else {
        None
    }
}

/// The square that two bytes name; nothing for any other length.
pub open spec fn parse_algebraic(s: Seq<u8>) -> Option<int> {
    if s.len() == 2 {
        parse_square(s[0], s[1])
    } else {
        None
    }
}

/// The two bytes that name square `pos`: file letter, then rank digit.
pub open spec fn algebraic_of(pos: int) -> Seq<u8> {
    seq![(0x41 + pos % 8) as u8, (0x31 + pos / 8) as u8]
}

/// The square at `row`, `col`.
pub fn pos(row: u8, col: u8) -> (p: Position)
    requires
        row < 8,
        col < 8,
    ensures
        p as int == square(row as int, col as int),
        p < 64,
{
    row * 8 + col
}

/// The row and the column of `pos`.
pub fn pos_to_rc(pos: Position) -> (rc: (u8, u8))
    ensures
        rc.0 == pos / 8,
        rc.1 == pos % 8,
        square(rc.0 as int, rc.1 as int) == pos,
{
    (pos / 8, pos % 8)
}

/// The name of `pos`: the file letter from `A`, then the rank digit from `1`.
pub fn pos_to_algebraic(pos: Position) -> (r: [u8; 2])
    ensures
        r@ == algebraic_of(pos as int),
{
    let (row, col) = pos_to_rc(pos);
    let r = [0x41u8 + col, 0x31u8 + row];
    assert(r@ =~= algebraic_of(pos as int));
    r
}

/// The square that `s` names: exactly two bytes, a file letter `A` to `H` in
/// either case and a rank digit `1` to `8`.
pub fn algebraic_to_pos(s: &[u8]) -> (r: Option<Position>)
    ensures
        match parse_algebraic(s@) {
            Some(p) => r == Some(p as u8) && p < 64,
            None => r is None,
        },
{
    if s.len() != 2 {
        return None;
    }
    let file = s[0];
    let rank = s[1];
    if rank < 0x31 || rank > 0x38 {
        return None;
    }
    let col = if 0x41 <= file && file <= 0x48 {
        file - 0x41
    } else if 0x61 <= file && file <= 0x68 {
        file - 0x61
    } else {
        return None;
    };
    Some((rank - 0x31) * 8 + col)
}

/// Every square's name reads back as that square.
pub proof fn lemma_algebraic_round_trip(pos: int)
    requires
        0 <= pos < 64,
    ensures
        parse_algebraic(algebraic_of(pos)) == Some(pos),
{
}

} // verus!
