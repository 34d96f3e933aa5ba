//! The opening book: known positions, found again under every rotation and
//! reflection of the board.

use vstd::prelude::*;
use crate::bits::{bit, single, mask_where, lemma_ops, lemma_single, lemma_ext, lemma_consts, lemma_mask_where, test_bit};
use crate::board::Board;
use crate::Position;

verus! {

/// Where a quarter turn clockwise takes square `p`: its column becomes the
/// row, and its row, counted from the far side, the column.
pub open spec fn rotate_sq(p: int) -> int {
    (p % 8) * 8 + (7 - p / 8)
}

/// The square that a quarter turn clockwise takes to `q`.
pub open spec fn unrotate_sq(q: int) -> int {
    (7 - q % 8) * 8 + q / 8
}

/// Where the mirror that swaps left and right takes square `p`.
pub open spec fn mirror_sq(p: int) -> int {
    (p / 8) * 8 + (7 - p % 8)
}

/// The set `m` after a quarter turn clockwise.
pub open spec fn rotated_mask(m: u64) -> u64 {
    mask_where(|q: int| bit(m, unrotate_sq(q)))
}

/// The set `m` with left and right swapped.
pub open spec fn mirrored_mask(m: u64) -> u64 {
    mask_where(|q: int| bit(m, mirror_sq(q)))
}

/// The board after a quarter turn clockwise.
pub open spec fn rotated(b: Board) -> Board {
    Board { black: rotated_mask(b.black), white: rotated_mask(b.white) }
}

/// The board with left and right swapped.
pub open spec fn mirrored(b: Board) -> Board {
    Board { black: mirrored_mask(b.black), white: mirrored_mask(b.white) }
}

/// The smaller of two hashes.
pub open spec fn least(a: u64, b: u64) -> u64 {
    if b < a {
        b
    } else {
        a
    }
}

/// The smaller of the hashes of a board and of its mirror image.
pub open spec fn pair_hash(b: Board) -> u64 {
    least(b.hash_of(), mirrored(b).hash_of())
}

/// The least hash among the eight images of a board: its four rotations and
/// the mirror image of each.
pub open spec fn canonical_hash(b: Board) -> u64 {
    least(
        least(pair_hash(b), pair_hash(rotated(b))),
        least(pair_hash(rotated(rotated(b))), pair_hash(rotated(rotated(rotated(b))))),
    )
}

/// Whether `b` is one of the eight images of `a`.
pub open spec fn symmetric(a: Board, b: Board) -> bool {
    ||| b == a
    ||| b == rotated(a)
    ||| b == rotated(rotated(a))
    ||| b == rotated(rotated(rotated(a)))
    ||| b == mirrored(a)
    ||| b == mirrored(rotated(a))
    ||| b == mirrored(rotated(rotated(a)))
    ||| b == mirrored(rotated(rotated(rotated(a))))
}

/// The known positions, each with the move to play: the canonical hash, then
/// the square.
pub open spec fn book() -> Seq<(u64, Position)> {
    seq![(0x1818_0000_0000_0000u64, 19u8)]
}

/// The move of the first of the entries below `n` whose hash is `hash`.
pub open spec fn book_find(entries: Seq<(u64, Position)>, hash: u64, n: int) -> Option<Position>
    decreases n,
{
    if n <= 0 || n > entries.len() {
        None
    } else {
        match book_find(entries, hash, n - 1) {
            Some(p) => Some(p),
            None => if entries[n - 1].0 == hash {
                Some(entries[n - 1].1)
            } else {
                None
            },
        }
    }
}

/// The move that the book holds for `b`, if it knows the position.
pub open spec fn book_move(b: Board) -> Option<Position> {
    book_find(book(), canonical_hash(b), book().len() as int)
}

/// The bits of a rotated and of a mirrored set.
pub proof fn lemma_turned_bits(m: u64)
    ensures
        forall|q: int|
            #[trigger] bit(rotated_mask(m), q) == (0 <= q < 64 && bit(m, unrotate_sq(q))),
        forall|q: int| #[trigger] bit(mirrored_mask(m), q) == (0 <= q < 64 && bit(m, mirror_sq(q))),
        forall|p: int| 0 <= p < 64 ==> bit(rotated_mask(m), #[trigger] rotate_sq(p)) == bit(m, p),
{
    lemma_mask_where(|q: int| bit(m, unrotate_sq(q)));
    lemma_mask_where(|q: int| bit(m, mirror_sq(q)));
    assert forall|p: int| 0 <= p < 64 implies bit(rotated_mask(m), #[trigger] rotate_sq(p)) == bit(
        m,
        p,
    ) by {
        lemma_square_turns(p);
        lemma_square_turns(rotate_sq(p));
        lemma_square_known(unrotate_sq(rotate_sq(p)), p);
    }
}

/// Where the turns and the mirror take the rows and columns of a square.
pub proof fn lemma_square_turns(q: int)
    requires
        0 <= q < 64,
    ensures
        0 <= unrotate_sq(q) < 64,
        unrotate_sq(q) / 8 == 7 - q % 8,
        unrotate_sq(q) % 8 == q / 8,
        0 <= rotate_sq(q) < 64,
        rotate_sq(q) / 8 == q % 8,
        rotate_sq(q) % 8 == 7 - q / 8,
        0 <= mirror_sq(q) < 64,
        mirror_sq(q) / 8 == q / 8,
        mirror_sq(q) % 8 == 7 - q % 8,
{
}

/// A square is known by its row and column.
proof fn lemma_square_known(p: int, q: int)
    requires
        p / 8 == q / 8,
        p % 8 == q % 8,
    ensures
        p == q,
{
}

/// Four quarter turns bring every set back.
pub proof fn lemma_four_turns(m: u64)
    ensures
        rotated_mask(rotated_mask(rotated_mask(rotated_mask(m)))) == m,
{
    let r1 = rotated_mask(m);
    let r2 = rotated_mask(r1);
    let r3 = rotated_mask(r2);
    let r4 = rotated_mask(r3);
    lemma_turned_bits(m);
    lemma_turned_bits(r1);
    lemma_turned_bits(r2);
    lemma_turned_bits(r3);
    assert forall|q: int| 0 <= q < 64 implies bit(r4, q) == bit(m, q) by {
        let a = unrotate_sq(q);
        let b = unrotate_sq(a);
        let c = unrotate_sq(b);
        lemma_square_turns(q);
        lemma_square_turns(a);
        lemma_square_turns(b);
        lemma_square_turns(c);
        lemma_square_known(unrotate_sq(c), q);
        assert(bit(r4, q) == bit(r3, a));
        assert(bit(r3, a) == bit(r2, b));
        assert(bit(r2, b) == bit(r1, c));
        assert(bit(r1, c) == bit(m, unrotate_sq(c)));
    }
    lemma_ext(r4, m);
}

/// Two reflections bring every set back.
pub proof fn lemma_two_mirrors(m: u64)
    ensures
        mirrored_mask(mirrored_mask(m)) == m,
{
    let f = mirrored_mask(m);
    lemma_turned_bits(m);
    lemma_turned_bits(f);
    assert forall|q: int| 0 <= q < 64 implies bit(mirrored_mask(f), q) == bit(m, q) by {
        lemma_square_turns(q);
        lemma_square_turns(mirror_sq(q));
        lemma_square_known(mirror_sq(mirror_sq(q)), q);
        assert(bit(mirrored_mask(f), q) == bit(f, mirror_sq(q)));
        assert(bit(f, mirror_sq(q)) == bit(m, mirror_sq(mirror_sq(q))));
    }
    lemma_ext(mirrored_mask(f), m);
}

/// A quarter turn after a reflection is the reflection after three quarter
/// turns.
pub proof fn lemma_turn_of_mirror(m: u64)
    ensures
        rotated_mask(mirrored_mask(m)) == mirrored_mask(rotated_mask(rotated_mask(rotated_mask(m)))),
{
    let r1 = rotated_mask(m);
    let r2 = rotated_mask(r1);
    let r3 = rotated_mask(r2);
    let f = mirrored_mask(m);
    lemma_turned_bits(m);
    lemma_turned_bits(r1);
    lemma_turned_bits(r2);
    lemma_turned_bits(r3);
    lemma_turned_bits(f);
    let x = rotated_mask(f);
    let y = mirrored_mask(r3);
    assert forall|q: int| 0 <= q < 64 implies bit(x, q) == bit(y, q) by {
        let u = unrotate_sq(q);
        let s = mirror_sq(q);
        let a = unrotate_sq(s);
        let b = unrotate_sq(a);
        lemma_square_turns(q);
        lemma_square_turns(u);
        lemma_square_turns(s);
        lemma_square_turns(a);
        lemma_square_turns(b);
        lemma_square_known(unrotate_sq(b), mirror_sq(u));
        assert(bit(x, q) == bit(f, u));
        assert(bit(f, u) == bit(m, mirror_sq(u)));
        assert(bit(y, q) == bit(r3, s));
        assert(bit(r3, s) == bit(r2, a));
        assert(bit(r2, a) == bit(r1, b));
        assert(bit(r1, b) == bit(m, unrotate_sq(b)));
    }
    lemma_ext(x, y);
}

/// The same for boards: four quarter turns, and two reflections, bring every
/// board back; a quarter turn after a reflection is the reflection after three
/// quarter turns.
pub proof fn lemma_board_symmetries(b: Board)
    ensures
        rotated(rotated(rotated(rotated(b)))) == b,
        mirrored(mirrored(b)) == b,
        rotated(mirrored(b)) == mirrored(rotated(rotated(rotated(b)))),
{
    lemma_four_turns(b.black);
    lemma_four_turns(b.white);
    lemma_two_mirrors(b.black);
    lemma_two_mirrors(b.white);
    lemma_turn_of_mirror(b.black);
    lemma_turn_of_mirror(b.white);
}

/// A quarter turn and a reflection leave the canonical hash as it is.
pub proof fn lemma_canonical_step(b: Board)
    ensures
        canonical_hash(rotated(b)) == canonical_hash(b),
        canonical_hash(mirrored(b)) == canonical_hash(b),
{
    let r1 = rotated(b);
    let r2 = rotated(r1);
    let r3 = rotated(r2);
    lemma_board_symmetries(b);
    lemma_board_symmetries(r1);
    lemma_board_symmetries(r2);
    lemma_board_symmetries(r3);
    let f = mirrored(b);
    // The rotations of the mirror image are the mirror images of the rotations,
    // taken the other way round.
    assert(rotated(f) == mirrored(r3));
    lemma_board_symmetries(mirrored(r3));
    assert(rotated(mirrored(r3)) == mirrored(rotated(rotated(rotated(r3)))));
    assert(rotated(r3) == b);
    assert(rotated(rotated(rotated(r3))) == r2);
    assert(rotated(rotated(f)) == mirrored(r2));
    lemma_board_symmetries(mirrored(r2));
    assert(rotated(rotated(rotated(r2))) == r1);
    assert(rotated(rotated(rotated(f))) == mirrored(r1));
    lemma_board_symmetries(f);
}

/// Any two of the eight images of a board have the same canonical hash.
pub proof fn lemma_canonical_symmetric(a: Board, b: Board)
    requires
        symmetric(a, b),
    ensures
        canonical_hash(a) == canonical_hash(b),
{
    let r1 = rotated(a);
    let r2 = rotated(r1);
    let r3 = rotated(r2);
    lemma_canonical_step(a);
    lemma_canonical_step(r1);
    lemma_canonical_step(r2);
    lemma_canonical_step(r3);
}

/// The opening book.
#[derive(Debug, Clone, Copy)]
pub struct OpeningBook;

impl OpeningBook {
    /// The move that the book holds for `board` or for one of its images.
    pub fn lookup(board: &Board) -> (r: Option<Position>)
        ensures
            r == book_move(*board),
    {
        let hash = Self::normalized_hash(board);
        let entries = Self::entries();
        find_entry(entries.as_slice(), hash)
    }

    /// The entries of the book.
    fn entries() -> (r: [(u64, Position); 1])
        ensures
            r@ == book(),
    {
        let r = [(0x1818_0000_0000_0000u64, 19u8)];
        assert(r@ =~= book());
        r
    }

    /// The least hash among the eight images of `board`.
    pub fn normalized_hash(board: &Board) -> (r: u64)
        ensures
            r == canonical_hash(*board),
    {
        let mut min_hash = board.hash();
        let mut b = *board;
        let mut turns: u8 = 0;
        while turns < 4
            invariant
                turns <= 4,
                turns == 0 ==> b == *board && min_hash == board.hash_of(),
                turns == 1 ==> b == rotated(*board) && min_hash == pair_hash(*board),
                turns == 2 ==> b == rotated(rotated(*board)) && min_hash == least(
                    pair_hash(*board),
                    pair_hash(rotated(*board)),
                ),
                turns == 3 ==> b == rotated(rotated(rotated(*board))) && min_hash == least(
                    least(pair_hash(*board), pair_hash(rotated(*board))),
                    pair_hash(rotated(rotated(*board))),
                ),
                turns == 4 ==> min_hash == canonical_hash(*board),
            decreases 4 - turns,
        {
            let h = b.hash();
            if h < min_hash {
                min_hash = h;
            }
            let flipped = Self::mirror_board(&b);
            let mh = flipped.hash();
            if mh < min_hash {
                min_hash = mh;
            }
            b = Self::rotate_board(&b);
            turns += 1;
        }
        min_hash
    }

    /// The board after a quarter turn clockwise.
    pub fn rotate_board(board: &Board) -> (r: Board)
        ensures
            r == rotated(*board),
            forall|p: int|
                0 <= p < 64 ==> bit(r.black, #[trigger] rotate_sq(p)) == bit(board.black, p) && bit(
                    r.white,
                    rotate_sq(p),
                ) == bit(board.white, p),
    {
        let mut black: u64 = 0;
        let mut white: u64 = 0;
        let mut old_pos: u8 = 0;
        proof {
            lemma_consts();
        }
        while old_pos < 64
            invariant
                old_pos <= 64,
                forall|q: int|
                    #[trigger] bit(black, q) == (0 <= q < 64 && unrotate_sq(q) < old_pos && bit(
                        board.black,
                        unrotate_sq(q),
                    )),
                forall|q: int|
                    #[trigger] bit(white, q) == (0 <= q < 64 && unrotate_sq(q) < old_pos && bit(
                        board.white,
                        unrotate_sq(q),
                    )),
            decreases 64 - old_pos,
        {
            let row = old_pos / 8;
            let col = old_pos % 8;
            let new_pos = col * 8 + (7 - row);
            proof {
                lemma_single(new_pos as int);
                lemma_ops(black, single(new_pos as int));
                lemma_ops(white, single(new_pos as int));
                assert(unrotate_sq(new_pos as int) == old_pos);
                assert forall|q: int| 0 <= q < 64 && q != new_pos implies unrotate_sq(q)
                    != old_pos by {
                    assert(rotate_sq(unrotate_sq(q)) == q);
                }
            }
            if test_bit(board.black, old_pos) {
                black = black | (1u64 << (new_pos as u64));
            }
            if test_bit(board.white, old_pos) {
                white = white | (1u64 << (new_pos as u64));
            }
            old_pos += 1;
        }
        proof {
            lemma_turned_bits(board.black);
            lemma_turned_bits(board.white);
            lemma_ext(black, rotated_mask(board.black));
            lemma_ext(white, rotated_mask(board.white));
        }
        Board { black, white }
    }

    /// The board with left and right swapped.
    pub fn mirror_board(board: &Board) -> (r: Board)
        ensures
            r == mirrored(*board),
            forall|p: int|
                0 <= p < 64 ==> bit(r.black, #[trigger] mirror_sq(p)) == bit(board.black, p) && bit(
                    r.white,
                    mirror_sq(p),
                ) == bit(board.white, p),
    {
        let mut black: u64 = 0;
        let mut white: u64 = 0;
        let mut old_pos: u8 = 0;
        proof {
            lemma_consts();
        }
        while old_pos < 64
            invariant
                old_pos <= 64,
                forall|q: int|
                    #[trigger] bit(black, q) == (0 <= q < 64 && mirror_sq(q) < old_pos && bit(
                        board.black,
                        mirror_sq(q),
                    )),
                forall|q: int|
                    #[trigger] bit(white, q) == (0 <= q < 64 && mirror_sq(q) < old_pos && bit(
                        board.white,
                        mirror_sq(q),
                    )),
            decreases 64 - old_pos,
        {
            let row = old_pos / 8;
            let col = old_pos % 8;
            let new_pos = row * 8 + (7 - col);
            proof {
                lemma_single(new_pos as int);
                lemma_ops(black, single(new_pos as int));
                lemma_ops(white, single(new_pos as int));
                assert(mirror_sq(new_pos as int) == old_pos);
                assert forall|q: int| 0 <= q < 64 && q != new_pos implies mirror_sq(q)
                    != old_pos by {
                    assert(mirror_sq(mirror_sq(q)) == q);
                }
            }
            if test_bit(board.black, old_pos) {
                black = black | (1u64 << (new_pos as u64));
            }
            if test_bit(board.white, old_pos) {
                white = white | (1u64 << (new_pos as u64));
            }
            old_pos += 1;
        }
        proof {
            lemma_turned_bits(board.black);
            lemma_turned_bits(board.white);
            lemma_ext(black, mirrored_mask(board.black));
            lemma_ext(white, mirrored_mask(board.white));
            assert forall|p: int| 0 <= p < 64 implies bit(
                mirrored_mask(board.black),
                #[trigger] mirror_sq(p),
            ) == bit(board.black, p) && bit(mirrored_mask(board.white), mirror_sq(p)) == bit(
                board.white,
                p,
            ) by {
                lemma_square_turns(p);
                lemma_square_turns(mirror_sq(p));
                lemma_square_known(mirror_sq(mirror_sq(p)), p);
            }
        }
        Board { black, white }
    }
}

/// The move of the first of `entries` whose hash is `hash`.
fn find_entry(entries: &[(u64, Position)], hash: u64) -> (r: Option<Position>)
    ensures
        r == book_find(entries@, hash, entries@.len() as int),
{
    let mut i: usize = 0;
    while i < entries.len()
        invariant
            i <= entries@.len(),
            book_find(entries@, hash, i as int) is None,
        decreases entries@.len() - i,
    {
        let entry = entries[i];
        if entry.0 == hash {
            proof {
                assert(book_find(entries@, hash, i + 1) == Some(entry.1));
                lemma_find_stays(entries@, hash, i + 1, entries@.len() as int);
            }
            return Some(entry.1);
        }
        i += 1;
    }
    None
}

/// Once an entry is found, the entries after it do not change the answer.
proof fn lemma_find_stays(entries: Seq<(u64, Position)>, hash: u64, n: int, m: int)
    requires
        0 <= n <= m <= entries.len(),
        book_find(entries, hash, n) is Some,
    ensures
        book_find(entries, hash, m) == book_find(entries, hash, n),
    decreases m - n,
{
    if n < m {
        lemma_find_stays(entries, hash, n, m - 1);
    }
}

} // verus!
