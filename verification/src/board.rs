//! The board: one 64-bit set of squares for each player.

use vstd::prelude::*;
use crate::bits::{bit, single, popcount, count_bits, lemma_test, lemma_single, lemma_ops, lemma_consts};
use crate::Position;

verus! {

broadcast use vstd::std_specs::bits::axiom_u64_trailing_zeros;

/// The multiplier that spreads the first player's set over the hash.
pub const HASH_MULTIPLIER: u64 = 0x9e3779b97f4a7c15;

/// One of the two sides.
#[derive(Debug, Clone, Copy, PartialEq, Eq, Structural)]
pub enum Player {
    Black,
    White,
}

impl Player {
    /// The other side.
    pub open spec fn other(self) -> Player {
        match self {
            Player::Black => Player::White,
            Player::White => Player::Black,
        }
    }

    /// The other side.
    pub fn opponent(self) -> (r: Player)
        ensures
            r == self.other(),
            r != self,
            r.other() == self,
    {
        match self {
            Player::Black => Player::White,
            Player::White => Player::Black,
        }
    }
}

/// The discs of both players.
#[derive(Debug, Clone, Copy, PartialEq, Eq, Structural)]
pub struct Board {
    /// Squares that hold a black disc.
    pub black: u64,
    /// Squares that hold a white disc.
    pub white: u64,
}

impl Default for Board {
    fn default() -> (r: Self)
        ensures
            r == Board::start(),
    {
        Self::new()
    }
}

impl Board {
    /// The opening position: black on E4 and D5, white on D4 and E5.
    pub open spec fn start() -> Board {
        Board { black: 0x0000_0008_1000_0000, white: 0x0000_0010_0800_0000 }
    }

    /// The set of squares that `player` holds.
    pub open spec fn discs(self, player: Player) -> u64 {
        match player {
            Player::Black => self.black,
            Player::White => self.white,
        }
    }

    /// Whether `player` has a disc on square `pos`.
    pub open spec fn held_by(self, player: Player, pos: int) -> bool {
        bit(self.discs(player), pos)
    }

    /// Whether square `pos` is on the board and holds no disc.
    pub open spec fn vacant(self, pos: int) -> bool {
        0 <= pos < 64 && !bit(self.black, pos) && !bit(self.white, pos)
    }

    /// No square holds a disc of both players.
    pub open spec fn disjoint(self) -> bool {
        self.black & self.white == 0
    }

    /// The board with the set of `player` replaced by `mask`.
    pub open spec fn with_discs(self, player: Player, mask: u64) -> Board {
        match player {
            Player::Black => Board { black: mask, white: self.white },
            Player::White => Board { black: self.black, white: mask },
        }
    }

    /// The board after `player` has put a disc on `pos`.
    pub open spec fn placed(self, player: Player, pos: int) -> Board {
        self.with_discs(player, self.discs(player) | single(pos))
    }

    /// The board after the disc of `player` on `pos` has been taken off.
    pub open spec fn removed(self, player: Player, pos: int) -> Board {
        self.with_discs(player, self.discs(player) & !single(pos))
    }

    /// The board after the squares of `flipped` have gone from `from` to the other player.
    pub open spec fn flipped(self, from: Player, flipped: u64) -> Board {
        self.with_discs(from, self.discs(from) & !flipped).with_discs(
            from.other(),
            self.discs(from.other()) | flipped,
        )
    }

    /// The hash of the position: the black set times a fixed odd number, modulo
    /// 2^64, combined bit by bit with the white set.
    pub open spec fn hash_of(self) -> u64 {
        (((self.black as nat * HASH_MULTIPLIER as nat) % 0x1_0000_0000_0000_0000) as u64)
            ^ self.white
    }

    /// The opening position.
    pub fn new() -> (r: Self)
        ensures
            r == Board::start(),
            r.black == single(28) | single(35),
            r.white == single(27) | single(36),
            r.disjoint(),
    {
        let black = (1u64 << 28) | (1u64 << 35);
        let white = (1u64 << 27) | (1u64 << 36);
        assert((1u64 << 28) | (1u64 << 35) == 0x0000_0008_1000_0000u64) by (bit_vector);
        assert((1u64 << 27) | (1u64 << 36) == 0x0000_0010_0800_0000u64) by (bit_vector);
        assert(0x0000_0008_1000_0000u64 & 0x0000_0010_0800_0000u64 == 0) by (bit_vector);
        Self { black, white }
    }

    /// The board without any disc.
    pub fn empty() -> (r: Self)
        ensures
            r.black == 0,
            r.white == 0,
    {
        Self { black: 0, white: 0 }
    }

    /// The set of squares that `player` holds.
    pub fn get(&self, player: Player) -> (r: u64)
        ensures
            r == self.discs(player),
    {
        match player {
            Player::Black => self.black,
            Player::White => self.white,
        }
    }

    /// The set of `player`, to be changed in place.
    pub fn get_mut(&mut self, player: Player) -> (r: &mut u64)
        ensures
            *r == old(self).discs(player),
            *final(self) == old(self).with_discs(player, *final(r)),
    {
        match player {
            Player::Black => &mut self.black,
            Player::White => &mut self.white,
        }
    }

    /// Whether `player` has a disc on `pos`.
    pub fn has_disc(&self, player: Player, pos: Position) -> (r: bool)
        requires
            pos < 64,
        ensures
            r == self.held_by(player, pos as int),
    {
        proof {
            lemma_test(self.discs(player), pos as int);
        }
        (self.get(player) & (1u64 << pos)) != 0
    }

    /// Whether `pos` holds no disc.
    pub fn is_empty(&self, pos: Position) -> (r: bool)
        requires
            pos < 64,
        ensures
            r == self.vacant(pos as int),
    {
        proof {
            lemma_test(self.black | self.white, pos as int);
            lemma_ops(self.black, self.white);
        }
        ((self.black | self.white) & (1u64 << pos)) == 0
    }

    /// Whether `pos` holds a disc.
    pub fn is_occupied(&self, pos: Position) -> (r: bool)
        requires
            pos < 64,
        ensures
            r == !self.vacant(pos as int),
    {
        proof {
            lemma_test(self.black | self.white, pos as int);
            lemma_ops(self.black, self.white);
        }
        ((self.black | self.white) & (1u64 << pos)) != 0
    }

    /// The player whose disc is on `pos`; black where both sets hold the square.
    pub fn get_disc(&self, pos: Position) -> (r: Option<Player>)
        requires
            pos < 64,
        ensures
            r == (if self.held_by(Player::Black, pos as int) {
                Some(Player::Black)
            } else if self.held_by(Player::White, pos as int) {
                Some(Player::White)
            } else {
                None
            }),
            r is None == self.vacant(pos as int),
    {
        proof {
            lemma_test(self.black, pos as int);
            lemma_test(self.white, pos as int);
        }
        let mask = 1u64 << pos;
        if (self.black & mask) != 0 {
            Some(Player::Black)
        } else if (self.white & mask) != 0 {
            Some(Player::White)
        } else {
            None
        }
    }

    /// Puts a disc of `player` on `pos`.
    pub fn place(&mut self, player: Player, pos: Position)
        requires
            pos < 64,
        ensures
            *final(self) == old(self).placed(player, pos as int),
            forall|q: int|
                #[trigger] final(self).held_by(player, q) == (old(self).held_by(player, q) || q
                    == pos),
            final(self).discs(player.other()) == old(self).discs(player.other()),
            old(self).disjoint() && !old(self).held_by(player.other(), pos as int) ==> final(self).disjoint(),
    {
        proof {
            lemma_ops(self.discs(player), single(pos as int));
            lemma_single(pos as int);
            let a = self.discs(player);
            let b = self.discs(player.other());
            let spot = single(pos as int);
            lemma_test(b, pos as int);
            assert(a & b == 0 && b & spot == 0 ==> (a | spot) & b == 0 && b & (a | spot) == 0)
                by (bit_vector);
            assert(a & b == b & a) by (bit_vector);
        }
        match player {
            Player::Black => {
                self.black = self.black | (1u64 << pos);
            },
            Player::White => {
                self.white = self.white | (1u64 << pos);
            },
        }
    }

    /// Takes the disc of `player` off `pos`.
    pub fn remove(&mut self, player: Player, pos: Position)
        requires
            pos < 64,
        ensures
            *final(self) == old(self).removed(player, pos as int),
            forall|q: int|
                #[trigger] final(self).held_by(player, q) == (old(self).held_by(player, q) && q
                    != pos),
            final(self).discs(player.other()) == old(self).discs(player.other()),
            old(self).disjoint() ==> final(self).disjoint(),
    {
        proof {
            lemma_ops(self.discs(player), !single(pos as int));
            lemma_ops(single(pos as int), 0);
            lemma_single(pos as int);
            let a = self.discs(player);
            let b = self.discs(player.other());
            let spot = single(pos as int);
            assert(a & b == 0 ==> (a & !spot) & b == 0 && b & (a & !spot) == 0) by (bit_vector);
            assert(a & b == b & a) by (bit_vector);
        }
        match player {
            Player::Black => {
                self.black = self.black & !(1u64 << pos);
            },
            Player::White => {
                self.white = self.white & !(1u64 << pos);
            },
        }
    }

    /// Hands the squares of `flipped` from `from` to the other player, both sets
    /// at once.
    pub fn flip(&mut self, from: Player, flipped: u64)
        ensures
            *final(self) == old(self).flipped(from, flipped),
            forall|q: int|
                #[trigger] final(self).held_by(from, q) == (old(self).held_by(from, q) && !bit(
                    flipped,
                    q,
                )),
            forall|q: int|
                #[trigger] final(self).held_by(from.other(), q) == (old(self).held_by(
                    from.other(),
                    q,
                ) || bit(flipped, q)),
            old(self).disjoint() ==> final(self).disjoint(),
    {
        proof {
            lemma_ops(self.discs(from), !flipped);
            lemma_ops(flipped, 0);
            lemma_ops(self.discs(from.other()), flipped);
            let a = self.discs(from);
            let b = self.discs(from.other());
            assert(a & b == 0 ==> (a & !flipped) & (b | flipped) == 0) by (bit_vector);
            assert(b & a == 0 ==> (b | flipped) & (a & !flipped) == 0) by (bit_vector);
        }
        match from {
            Player::Black => {
                self.black = self.black & !flipped;
                self.white = self.white | flipped;
            },
            Player::White => {
                self.white = self.white & !flipped;
                self.black = self.black | flipped;
            },
        }
    }

    /// How many discs `player` has.
    pub fn count(&self, player: Player) -> (r: u32)
        ensures
            r == popcount(self.discs(player)),
            r <= 64,
    {
        count_bits(self.get(player))
    }

    /// How many squares hold no disc.
    pub fn empty_count(&self) -> (r: u32)
        ensures
            r == popcount(!(self.black | self.white)),
            r <= 64,
    {
        count_bits(!(self.black | self.white))
    }

    /// The squares that hold no disc.
    pub fn empty_squares(&self) -> (r: u64)
        ensures
            r == !(self.black | self.white),
            forall|q: int| #[trigger] bit(r, q) == self.vacant(q),
    {
        proof {
            lemma_ops(self.black, self.white);
            lemma_ops(self.black | self.white, 0);
        }
        !(self.black | self.white)
    }

    /// The squares that hold a disc.
    pub fn occupied(&self) -> (r: u64)
        ensures
            r == self.black | self.white,
            forall|q: int| #[trigger] bit(r, q) == (0 <= q < 64 && !self.vacant(q)),
    {
        proof {
            lemma_ops(self.black, self.white);
        }
        self.black | self.white
    }

    /// A hash of the position, the same for the same two sets.
    pub fn hash(&self) -> (r: u64)
        ensures
            r == self.hash_of(),
    {
        self.black.wrapping_mul(HASH_MULTIPLIER) ^ self.white
    }

    /// Whether every square holds a disc.
    pub fn is_full(&self) -> (r: bool)
        ensures
            r == (self.black | self.white == u64::MAX),
            r == (forall|q: int| 0 <= q < 64 ==> !self.vacant(q)),
    {
        proof {
            lemma_ops(self.black, self.white);
            lemma_consts();
            let occ = self.black | self.white;
            if forall|q: int| 0 <= q < 64 ==> !self.vacant(q) {
                assert forall|i: int| 0 <= i < 64 implies bit(occ, i) == bit(u64::MAX, i) by {
                    assert(!self.vacant(i));
                }
                crate::bits::lemma_ext(occ, u64::MAX);
            }
            if occ == u64::MAX {
                assert forall|q: int| 0 <= q < 64 implies !self.vacant(q) by {
                    assert(bit(occ, q));
                }
            }
        }
        (self.black | self.white) == u64::MAX
    }

    /// The lowest square of `bits`, if it has one.
    pub fn lowest_bit_pos(bits: u64) -> (r: Option<Position>)
        ensures
            bits == 0 <==> r is None,
            r matches Some(p) ==> p < 64 && bit(bits, p as int) && forall|j: int|
                0 <= j < p ==> !bit(bits, j),
    {
        if bits == 0 {
            None
        } else {
            let t = bits.trailing_zeros();
            assert forall|j: int| 0 <= j < t implies !bit(bits, j) by {
                assert((bits >> (j as u64)) & 1u64 == 0u64);
            }
            Some(t as Position)
        }
    }

    /// The squares of `bits`, one after the other from the lowest.
    pub fn iter_bits(bits: u64) -> (r: BitIter)
        ensures
            r.bits == bits,
    {
        BitIter { bits }
    }
}

/// Walks over the squares of a set, lowest first; each call of `next` hands out
/// one square and drops it from the set.
#[derive(Debug, Clone, Copy)]
pub struct BitIter {
    /// The squares still to come.
    pub bits: u64,
}

impl BitIter {
    /// The next square, or `None` when none is left.
    pub fn next(&mut self) -> (r: Option<Position>)
        ensures
            old(self).bits == 0 <==> r is None,
            r is None ==> final(self).bits == 0,
            r matches Some(p) ==> {
                &&& p < 64
                &&& bit(old(self).bits, p as int)
                &&& forall|j: int| 0 <= j < p ==> !bit(old(self).bits, j)
                &&& final(self).bits == old(self).bits & !single(p as int)
                &&& forall|j: int|
                    #[trigger] bit(final(self).bits, j) == (bit(old(self).bits, j) && j != p)
            },
    {
        match Board::lowest_bit_pos(self.bits) {
            None => None,
            Some(p) => {
                proof {
                    lemma_ops(self.bits, !single(p as int));
                    lemma_ops(single(p as int), 0);
                    lemma_single(p as int);
                }
                self.bits = self.bits & !(1u64 << p);
                Some(p)
            },
        }
    }

    /// All the squares that are left, in rising order.
    pub fn collect(self) -> (r: Vec<Position>)
        ensures
            forall|k: int| 0 <= k < r.len() ==> bit(self.bits, #[trigger] r[k] as int),
            forall|q: int| bit(self.bits, q) ==> exists|k: int| 0 <= k < r.len() && r[k] == q,
            forall|k: int, l: int| 0 <= k < l < r.len() ==> r[k] < r[l],
    {
        let mut it = self;
        let mut out: Vec<Position> = Vec::new();
        let ghost mut floor: int = 0;
        loop
            invariant
                0 <= floor <= 64,
                forall|j: int| #[trigger] bit(it.bits, j) == (bit(self.bits, j) && j >= floor),
                forall|k: int| 0 <= k < out.len() ==> bit(self.bits, #[trigger] out[k] as int),
                forall|k: int| 0 <= k < out.len() ==> (#[trigger] out[k]) < floor,
                forall|q: int|
                    bit(self.bits, q) && q < floor ==> exists|k: int|
                        0 <= k < out.len() && out[k] == q,
                forall|k: int, l: int| 0 <= k < l < out.len() ==> out[k] < out[l],
            ensures
                it.bits == 0,
                forall|k: int| 0 <= k < out.len() ==> bit(self.bits, #[trigger] out[k] as int),
                forall|q: int|
                    bit(self.bits, q) && q < floor ==> exists|k: int|
                        0 <= k < out.len() && out[k] == q,
                forall|j: int| #[trigger] bit(it.bits, j) == (bit(self.bits, j) && j >= floor),
                forall|k: int, l: int| 0 <= k < l < out.len() ==> out[k] < out[l],
            decreases popcount(it.bits),
        {
            let ghost before = it.bits;
            let ghost prev = out@;
            match it.next() {
                None => {
                    break ;
                },
                Some(p) => {
                    out.push(p);
                    proof {
                        assert(bit(before, p as int));
                        crate::bits::lemma_count_gain(it.bits, before, p as int, 64);
                        assert forall|q: int|
                            bit(self.bits, q) && q < p + 1 implies exists|k: int|
                            0 <= k < out.len() && out[k] == q by {
                            if q < floor {
                                let k = choose|k: int| 0 <= k < prev.len() && prev[k] == q;
                                assert(out[k] == q);
                            } else {
                                assert(bit(before, q));
                                assert(q == p);
                                assert(out[out.len() - 1] == q);
                            }
                        }
                        floor = p + 1;
                    }
                },
            }
        }
        proof {
            lemma_consts();
            assert forall|q: int| bit(self.bits, q) implies exists|k: int|
                0 <= k < out.len() && out[k] == q by {
                assert(!bit(it.bits, q));
            }
        }
        out
    }
}

/// On a board without a square of two discs, no square is held by both
/// players, whichever of them is named first.
pub proof fn lemma_disjoint(board: Board, player: Player)
    requires
        board.disjoint(),
    ensures
        board.discs(player) & board.discs(player.other()) == 0,
        forall|q: int|
            #[trigger] bit(board.discs(player), q) ==> !bit(board.discs(player.other()), q),
{
    let x = board.black;
    let y = board.white;
    assert(x & y == y & x) by (bit_vector);
    lemma_ops(board.discs(player), board.discs(player.other()));
    lemma_consts();
    assert forall|q: int| #[trigger] bit(board.discs(player), q) implies !bit(
        board.discs(player.other()),
        q,
    ) by {
        assert(!bit(board.discs(player) & board.discs(player.other()), q));
    }
}

} // verus!
