//! Legal moves, and the discs that each of them turns.

use vstd::prelude::*;
use crate::bits::{bit, single, mask_where, popcount, count_below, lemma_test, lemma_single, lemma_ops, lemma_consts, lemma_mask_where, lemma_mask_where_unique, lemma_ext, lemma_count_gain, lemma_count_gap, lemma_count_bound, lemma_popcount_zero};
use crate::board::{Board, Player};
use crate::Position;

verus! {

/// Every square but those of the A file.
pub const NOT_A_FILE: u64 = 0xfefe_fefe_fefe_fefe;

/// Every square but those of the H file.
pub const NOT_H_FILE: u64 = 0x7f7f_7f7f_7f7f_7f7f;

/// Most moves that a list holds.
pub const MAX_LIST: usize = 32;

/// One of the eight directions: a step of at most one row and one column, not
/// both zero.
pub open spec fn is_direction(dr: int, dc: int) -> bool {
    -1 <= dr <= 1 && -1 <= dc <= 1 && !(dr == 0 && dc == 0)
}

/// `k` steps along one coordinate of a direction.
pub open spec fn scaled(k: int, d: int) -> int {
    if d > 0 {
        k
    } else if d < 0 {
        -k
    } else {
        0
    }
}

/// Whether `k` steps from `pos` in direction (`dr`, `dc`) stay on the board.
pub open spec fn ray_on(pos: int, dr: int, dc: int, k: int) -> bool {
    0 <= pos / 8 + scaled(k, dr) < 8 && 0 <= pos % 8 + scaled(k, dc) < 8
}

/// The square `k` steps from `pos` in direction (`dr`, `dc`).
pub open spec fn ray_sq(pos: int, dr: int, dc: int, k: int) -> int {
    (pos / 8 + scaled(k, dr)) * 8 + (pos % 8 + scaled(k, dc))
}

/// The `n`-th square from `pos` in the direction is the first that `opp` does
/// not hold, it lies on the board, and `own` holds it.
pub open spec fn run_end(own: u64, opp: u64, pos: int, dr: int, dc: int, n: int) -> bool {
    &&& 1 <= n
    &&& ray_on(pos, dr, dc, n)
    &&& bit(own, ray_sq(pos, dr, dc, n))
    &&& !bit(opp, ray_sq(pos, dr, dc, n))
    &&& forall|j: int| 1 <= j < n ==> bit(opp, #[trigger] ray_sq(pos, dr, dc, j))
}

/// Square `q` lies on the ray from `pos` in the direction, strictly between
/// `pos` and the disc of `own` that closes a run of discs of `opp`.
pub open spec fn captured_along(own: u64, opp: u64, pos: int, dr: int, dc: int, q: int) -> bool {
    exists|k: int, n: int|
        1 <= k < n && #[trigger] run_end(own, opp, pos, dr, dc, n) && q == #[trigger] ray_sq(
            pos,
            dr,
            dc,
            k,
        )
}

/// A disc of `player` put on `pos` turns the disc on `q`: `pos` is vacant, and
/// in one of the eight directions `q` is captured.
pub open spec fn captures(board: Board, player: Player, pos: int, q: int) -> bool {
    let own = board.discs(player);
    let opp = board.discs(player.other());
    board.vacant(pos) && (captured_along(own, opp, pos, 0, 1, q) || captured_along(
        own,
        opp,
        pos,
        0,
        -1,
        q,
    ) || captured_along(own, opp, pos, 1, 0, q) || captured_along(own, opp, pos, -1, 0, q)
        || captured_along(own, opp, pos, 1, 1, q) || captured_along(own, opp, pos, 1, -1, q)
        || captured_along(own, opp, pos, -1, 1, q) || captured_along(own, opp, pos, -1, -1, q))
}

/// The set of discs that a disc of `player` put on `pos` turns.
pub open spec fn flips(board: Board, player: Player, pos: int) -> u64 {
    mask_where(|q: int| captures(board, player, pos, q))
}

/// Whether `player` may put a disc on `pos`: the disc turns at least one other.
pub open spec fn legal(board: Board, player: Player, pos: int) -> bool {
    flips(board, player, pos) != 0
}

/// A single square that is masked and shifted by `s` places lands `s` places
/// on where the mask holds it and the board has room, and vanishes elsewhere.
proof fn lemma_shift_single_bv(p: u64, s: u64, mask: u64)
    by (bit_vector)
    requires
        p < 64,
        s < 64,
    ensures
        ((1u64 << p) & mask) << s == (if ((mask >> p) & 1 == 1) && p + s < 64 {
            1u64 << ((p + s) as u64)
        } else {
            0
        }),
        ((1u64 << p) & mask) >> s == (if ((mask >> p) & 1 == 1) && p >= s {
            1u64 << ((p - s) as u64)
        } else {
            0
        }),
        (0u64 & mask) << s == 0,
        (0u64 & mask) >> s == 0,
        0u64 & mask == 0,
        mask | 0u64 == mask,
{
}

/// The file masks leave out the squares of their file and no others.
proof fn lemma_file_masks_bv(p: u64)
    by (bit_vector)
    requires
        p < 64,
    ensures
        ((0xfefe_fefe_fefe_fefeu64 >> p) & 1 == 1) == (p % 8 != 0),
        ((0x7f7f_7f7f_7f7f_7f7fu64 >> p) & 1 == 1) == (p % 8 != 7),
        (0xffff_ffff_ffff_ffffu64 >> p) & 1 == 1,
{
}

/// Moves every square of `bits` one step in the direction; squares that would
/// leave the board are dropped.
pub(crate) fn shift(bits: u64, dr: i8, dc: i8) -> (r: u64)
    requires
        is_direction(dr as int, dc as int),
    ensures
        bits == 0 ==> r == 0,
        forall|p: int|
            0 <= p < 64 && bits == #[trigger] single(p) ==> r == (if ray_on(
                p,
                dr as int,
                dc as int,
                1,
            ) {
                single(ray_sq(p, dr as int, dc as int, 1))
            } else {
                0
            }),
{
    let mask = if dc > 0 {
        NOT_H_FILE
    } else if dc < 0 {
        NOT_A_FILE
    } else {
        u64::MAX
    };
    let masked = bits & mask;
    let d: i8 = dr * 8 + dc;
    if d > 0 {
        let s: u64 = d as u64;
        proof {
            lemma_shift_single_bv(0, s, mask);
            assert forall|p: int| 0 <= p < 64 && bits == #[trigger] single(p) implies (masked << s)
                == (if ray_on(p, dr as int, dc as int, 1) {
                single(ray_sq(p, dr as int, dc as int, 1))
            } else {
                0
            }) by {
                lemma_shift_single_bv(p as u64, s, mask);
                lemma_file_masks_bv(p as u64);
            }
        }
        masked << s
    } else {
        let s: u64 = (-d) as u64;
        proof {
            lemma_shift_single_bv(0, s, mask);
            assert forall|p: int| 0 <= p < 64 && bits == #[trigger] single(p) implies (masked >> s)
                == (if ray_on(p, dr as int, dc as int, 1) {
                single(ray_sq(p, dr as int, dc as int, 1))
            } else {
                0
            }) by {
                lemma_shift_single_bv(p as u64, s, mask);
                lemma_file_masks_bv(p as u64);
            }
        }
        masked >> s
    }
}

/// The discs of `opp` that a disc of `own` on `pos` captures in one direction.
fn flips_toward(own: u64, opp: u64, pos: Position, dr: i8, dc: i8) -> (r: u64)
    requires
        pos < 64,
        is_direction(dr as int, dc as int),
    ensures
        forall|q: int|
            #[trigger] bit(r, q) == captured_along(own, opp, pos as int, dr as int, dc as int, q),
{
    let ghost p = pos as int;
    let ghost r0 = dr as int;
    let ghost c0 = dc as int;
    let mut candidates: u64 = 0;
    let start: u64 = 1u64 << (pos as u64);
    assert(start == single(p));
    let mut current: u64 = shift(start, dr, dc);
    let ghost mut k: int = 1;
    proof {
        lemma_consts();
    }
    while (current & opp) != 0
        invariant
            1 <= k <= 8,
            0 <= p < 64,
            is_direction(r0, c0),
            r0 == dr as int,
            c0 == dc as int,
            current == (if ray_on(p, r0, c0, k) {
                single(ray_sq(p, r0, c0, k))
            } else {
                0
            }),
            forall|j: int| 1 <= j < k ==> bit(opp, #[trigger] ray_sq(p, r0, c0, j)),
            forall|q: int|
                #[trigger] bit(candidates, q) == (exists|j: int|
                    1 <= j < k && q == #[trigger] ray_sq(p, r0, c0, j)),
        decreases 8 - k,
    {
        proof {
            lemma_shift_single_bv(0, 0, opp);
            assert(ray_on(p, r0, c0, k));
            let s = ray_sq(p, r0, c0, k);
            lemma_test(opp, s);
            lemma_ops(candidates, current);
            lemma_single(s);
            assert(ray_on(s, r0, c0, 1) == ray_on(p, r0, c0, k + 1));
            assert(ray_on(s, r0, c0, 1) ==> ray_sq(s, r0, c0, 1) == ray_sq(p, r0, c0, k + 1));
        }
        let ghost before = candidates;
        candidates = candidates | current;
        current = shift(current, dr, dc);
        proof {
            let s = ray_sq(p, r0, c0, k);
            assert forall|q: int|
                #[trigger] bit(candidates, q) == (exists|j: int|
                    1 <= j < k + 1 && q == #[trigger] ray_sq(p, r0, c0, j)) by {
                if bit(candidates, q) {
                    if bit(before, q) {
                        let j = choose|j: int| 1 <= j < k && q == #[trigger] ray_sq(p, r0, c0, j);
                        assert(1 <= j < k + 1 && q == ray_sq(p, r0, c0, j));
                    } else {
                        assert(q == s);
                        assert(1 <= k < k + 1 && q == ray_sq(p, r0, c0, k));
                    }
                }
                if exists|j: int| 1 <= j < k + 1 && q == #[trigger] ray_sq(p, r0, c0, j) {
                    let j = choose|j: int| 1 <= j < k + 1 && q == #[trigger] ray_sq(p, r0, c0, j);
                    if j < k {
                        assert(bit(before, q));
                    } else {
                        assert(q == s);
                    }
                }
            }
            k = k + 1;
        }
    }
    proof {
        lemma_shift_single_bv(0, 0, own);
        lemma_shift_single_bv(0, 0, opp);
        if ray_on(p, r0, c0, k) {
            lemma_test(opp, ray_sq(p, r0, c0, k));
            lemma_test(own, ray_sq(p, r0, c0, k));
        }
    }
    if (current & own) != 0 {
        proof {
            assert(run_end(own, opp, p, r0, c0, k));
            assert forall|q: int|
                #[trigger] bit(candidates, q) == captured_along(own, opp, p, r0, c0, q) by {
                if bit(candidates, q) {
                    let j = choose|j: int| 1 <= j < k && q == #[trigger] ray_sq(p, r0, c0, j);
                    assert(1 <= j < k && run_end(own, opp, p, r0, c0, k) && q == ray_sq(
                        p,
                        r0,
                        c0,
                        j,
                    ));
                }
                if captured_along(own, opp, p, r0, c0, q) {
                    let (j, n) = choose|j: int, n: int|
                        1 <= j < n && #[trigger] run_end(own, opp, p, r0, c0, n) && q
                            == #[trigger] ray_sq(p, r0, c0, j);
                    lemma_run_end_unique(own, opp, p, r0, c0, n, k);
                    assert(1 <= j < k && q == ray_sq(p, r0, c0, j));
                }
            }
        }
        candidates
    } else {
        proof {
            assert forall|q: int| !captured_along(own, opp, p, r0, c0, q) by {
                if captured_along(own, opp, p, r0, c0, q) {
                    let (j, n) = choose|j: int, n: int|
                        1 <= j < n && #[trigger] run_end(own, opp, p, r0, c0, n) && q
                            == #[trigger] ray_sq(p, r0, c0, j);
                    if n < k {
                        assert(bit(opp, ray_sq(p, r0, c0, n)));
                    } else if n > k {
                        assert(ray_on(p, r0, c0, k));
                        assert(bit(opp, ray_sq(p, r0, c0, k)));
                    }
                }
            }
        }
        0
    }
}

/// A run has one end: the first square that `opp` does not hold.
proof fn lemma_run_end_unique(own: u64, opp: u64, pos: int, dr: int, dc: int, n: int, m: int)
    requires
        run_end(own, opp, pos, dr, dc, n),
        1 <= m,
        ray_on(pos, dr, dc, m) ==> !bit(opp, ray_sq(pos, dr, dc, m)),
        forall|j: int| 1 <= j < m ==> bit(opp, #[trigger] ray_sq(pos, dr, dc, j)),
        0 <= pos < 64,
        is_direction(dr, dc),
    ensures
        n == m,
{
    if n < m {
        assert(bit(opp, ray_sq(pos, dr, dc, n)));
    } else if n > m {
        assert(ray_on(pos, dr, dc, m));
        assert(bit(opp, ray_sq(pos, dr, dc, m)));
    }
}

/// The bits of `flips`: the squares that the move captures.
pub proof fn lemma_flips(board: Board, player: Player, pos: int)
    ensures
        forall|q: int| #[trigger] bit(flips(board, player, pos), q) == captures(board, player, pos, q),
        !board.vacant(pos) ==> flips(board, player, pos) == 0,
{
    let pred = |q: int| captures(board, player, pos, q);
    lemma_mask_where(pred);
    assert forall|q: int| #[trigger]
        bit(flips(board, player, pos), q) == captures(board, player, pos, q) by {
        assert(bit(mask_where(pred), q) == (0 <= q < 64 && pred(q)));
        if captures(board, player, pos, q) {
            lemma_captures_on_board(board, player, pos, q);
        }
    }
    if !board.vacant(pos) {
        lemma_consts();
        lemma_ext(flips(board, player, pos), 0);
    }
}

/// What is captured is a square of the board that the opponent holds.
pub proof fn lemma_captures_on_board(board: Board, player: Player, pos: int, q: int)
    requires
        captures(board, player, pos, q),
    ensures
        0 <= q < 64,
        q != pos,
        board.held_by(player.other(), q),
{
    let own = board.discs(player);
    let opp = board.discs(player.other());
    assert forall|dr: int, dc: int|
        is_direction(dr, dc) && captured_along(own, opp, pos, dr, dc, q) implies bit(opp, q) && q
        != pos by {
        let (j, n) = choose|j: int, n: int|
            1 <= j < n && #[trigger] run_end(own, opp, pos, dr, dc, n) && q == #[trigger] ray_sq(
                pos,
                dr,
                dc,
                j,
            );
        assert(bit(opp, ray_sq(pos, dr, dc, j)));
        assert(ray_on(pos, dr, dc, j));
    }
    assert(is_direction(0, 1) && is_direction(0, -1) && is_direction(1, 0) && is_direction(-1, 0));
    assert(is_direction(1, 1) && is_direction(1, -1) && is_direction(-1, 1) && is_direction(
        -1,
        -1,
    ));
}

/// The discs that a disc of `player` put on `pos` would turn: none where `pos`
/// is off the board, holds a disc, or captures in no direction.
pub fn calculate_flips(board: &Board, player: Player, pos: Position) -> (r: u64)
    ensures
        r == flips(*board, player, pos as int),
        forall|q: int| #[trigger] bit(r, q) == captures(*board, player, pos as int, q),
        !board.vacant(pos as int) ==> r == 0,
{
    proof {
        lemma_flips(*board, player, pos as int);
    }
    if pos >= 64 {
        return 0;
    }
    if board.is_occupied(pos) {
        return 0;
    }
    let own = board.get(player);
    let opp = board.get(player.opponent());
    let east = flips_toward(own, opp, pos, 0, 1);
    let west = flips_toward(own, opp, pos, 0, -1);
    let south = flips_toward(own, opp, pos, 1, 0);
    let north = flips_toward(own, opp, pos, -1, 0);
    let south_east = flips_toward(own, opp, pos, 1, 1);
    let south_west = flips_toward(own, opp, pos, 1, -1);
    let north_east = flips_toward(own, opp, pos, -1, 1);
    let north_west = flips_toward(own, opp, pos, -1, -1);
    let a = east | west;
    let b = south | north;
    let c = south_east | south_west;
    let d = north_east | north_west;
    let ab = a | b;
    let cd = c | d;
    let flipped = ab | cd;
    proof {
        lemma_ops(east, west);
        lemma_ops(south, north);
        lemma_ops(south_east, south_west);
        lemma_ops(north_east, north_west);
        lemma_ops(a, b);
        lemma_ops(c, d);
        lemma_ops(ab, cd);
        assert forall|q: int| 0 <= q < 64 implies bit(flipped, q) == captures(
            *board,
            player,
            pos as int,
            q,
        ) by {
            assert(bit(flipped, q) == (bit(ab, q) || bit(cd, q)));
            assert(bit(ab, q) == (bit(a, q) || bit(b, q)));
            assert(bit(cd, q) == (bit(c, q) || bit(d, q)));
            assert(bit(a, q) == (bit(east, q) || bit(west, q)));
            assert(bit(b, q) == (bit(south, q) || bit(north, q)));
            assert(bit(c, q) == (bit(south_east, q) || bit(south_west, q)));
            assert(bit(d, q) == (bit(north_east, q) || bit(north_west, q)));
        }
        lemma_mask_where_unique(flipped, |q: int| captures(*board, player, pos as int, q));
    }
    flipped
}

/// A disc put on a square, with the set of discs that it turns.
#[derive(Debug, Clone, Copy, PartialEq, Eq, Structural)]
pub struct Move {
    /// The square on which the disc is put.
    pub pos: Position,
    /// The discs that are turned.
    pub flipped: u64,
}

impl Move {
    /// The move to `pos` that turns `flipped`.
    pub fn new(pos: Position, flipped: u64) -> (r: Self)
        ensures
            r.pos == pos,
            r.flipped == flipped,
    {
        Self { pos, flipped }
    }

    /// Whether the move turns at least one disc.
    pub fn is_valid(&self) -> (r: bool)
        ensures
            r == (self.flipped != 0),
    {
        self.flipped != 0
    }

    /// How many discs the move turns.
    pub fn flip_count(&self) -> (r: u32)
        ensures
            r == popcount(self.flipped),
            r <= 64,
    {
        crate::bits::count_bits(self.flipped)
    }
}

/// The move of `player` to `pos` on `board`.
pub open spec fn move_at(board: Board, player: Player, pos: int) -> Move {
    Move { pos: pos as u8, flipped: flips(board, player, pos) }
}

/// The legal moves of `player` on squares below `n`, lowest square first, as
/// far as a list holds them.
pub open spec fn legal_upto(board: Board, player: Player, n: int) -> Seq<Move>
    decreases n,
{
    if n <= 0 {
        Seq::empty()
    } else {
        let before = legal_upto(board, player, n - 1);
        if legal(board, player, n - 1) && before.len() < MAX_LIST {
            before.push(move_at(board, player, n - 1))
        } else {
            before
        }
    }
}

/// The legal moves of `player`, lowest square first; the first 32 where there
/// are more.
pub open spec fn legal_moves(board: Board, player: Player) -> Seq<Move> {
    legal_upto(board, player, 64)
}

/// The set of squares on which `player` may put a disc.
pub open spec fn legal_mask(board: Board, player: Player) -> u64 {
    mask_where(|q: int| legal(board, player, q))
}

/// Whether `player` has a legal move.
pub open spec fn can_move(board: Board, player: Player) -> bool {
    legal_mask(board, player) != 0
}

/// Squares that are not vacant add no move.
pub proof fn lemma_legal_gap(board: Board, player: Player, lo: int, hi: int)
    requires
        0 <= lo <= hi,
        forall|j: int| lo <= j < hi ==> !board.vacant(j),
    ensures
        legal_upto(board, player, hi) == legal_upto(board, player, lo),
    decreases hi - lo,
{
    if lo < hi {
        lemma_legal_gap(board, player, lo, hi - 1);
        lemma_flips(board, player, hi - 1);
    }
}

/// What `legal_upto` holds: legal moves on rising squares below `n`, each with
/// its flips, and every legal square below `n` while the list is not full.
pub proof fn lemma_legal_upto(board: Board, player: Player, n: int)
    requires
        0 <= n <= 64,
    ensures
        legal_upto(board, player, n).len() <= MAX_LIST,
        legal_upto(board, player, n).len() <= n,
        forall|i: int|
            0 <= i < legal_upto(board, player, n).len() ==> {
                let m = #[trigger] legal_upto(board, player, n)[i];
                &&& m.pos < n
                &&& legal(board, player, m.pos as int)
                &&& m == move_at(board, player, m.pos as int)
            },
        forall|i: int, j: int|
            0 <= i < j < legal_upto(board, player, n).len() ==> legal_upto(board, player, n)[i].pos
                < legal_upto(board, player, n)[j].pos,
        forall|q: int|
            0 <= q < n && legal(board, player, q) && legal_upto(board, player, n).len() < MAX_LIST
                ==> exists|i: int|
                0 <= i < legal_upto(board, player, n).len() && #[trigger] legal_upto(
                    board,
                    player,
                    n,
                )[i].pos == q,
        legal_upto(board, player, n).len() == 0 <==> forall|q: int|
            0 <= q < n ==> !legal(board, player, q),
    decreases n,
{
    if n > 0 {
        lemma_legal_upto(board, player, n - 1);
        let before = legal_upto(board, player, n - 1);
        let now = legal_upto(board, player, n);
        assert forall|q: int|
            0 <= q < n && legal(board, player, q) && now.len() < MAX_LIST implies exists|i: int|
            0 <= i < now.len() && #[trigger] now[i].pos == q by {
            if q < n - 1 {
                let i = choose|i: int| 0 <= i < before.len() && #[trigger] before[i].pos == q;
                assert(now[i].pos == q);
            } else {
                assert(now[now.len() - 1].pos == q);
            }
        }
        if now.len() == 0 {
            assert forall|q: int| 0 <= q < n implies !legal(board, player, q) by {
                if q < n - 1 {
                }
            }
        }
        if forall|q: int| 0 <= q < n ==> !legal(board, player, q) {
            assert(!legal(board, player, n - 1));
            assert(forall|q: int| 0 <= q < n - 1 ==> !legal(board, player, q));
        }
    }
}

/// The bits of `legal_mask`, and how the three ways to ask for a move agree.
pub proof fn lemma_legal_mask(board: Board, player: Player)
    ensures
        forall|q: int| #[trigger] bit(legal_mask(board, player), q) == legal(board, player, q),
        can_move(board, player) <==> exists|q: int| 0 <= q < 64 && legal(board, player, q),
        can_move(board, player) <==> legal_moves(board, player).len() > 0,
        can_move(board, player) <==> popcount(legal_mask(board, player)) > 0,
{
    let pred = |q: int| legal(board, player, q);
    lemma_mask_where(pred);
    assert forall|q: int| #[trigger] bit(legal_mask(board, player), q) == legal(board, player, q) by {
        assert(bit(mask_where(pred), q) == (0 <= q < 64 && pred(q)));
        lemma_flips(board, player, q);
    }
    lemma_popcount_zero(legal_mask(board, player));
    lemma_legal_upto(board, player, 64);
    lemma_consts();
    if can_move(board, player) {
        if forall|q: int| 0 <= q < 64 ==> !legal(board, player, q) {
            lemma_ext(legal_mask(board, player), 0);
        }
    } else {
        assert forall|q: int| 0 <= q < 64 implies !legal(board, player, q) by {
            assert(!bit(legal_mask(board, player), q));
        }
    }
}

/// The list of legal moves holds as many moves as there are legal squares, up
/// to 32; with no more than 32 legal squares it holds every one of them.
pub proof fn lemma_legal_complete(board: Board, player: Player, n: int)
    requires
        0 <= n <= 64,
    ensures
        legal_upto(board, player, n).len() == (if count_below(legal_mask(board, player), n)
            < MAX_LIST {
            count_below(legal_mask(board, player), n)
        } else {
            MAX_LIST as nat
        }),
        count_below(legal_mask(board, player), n) <= MAX_LIST ==> forall|q: int|
            0 <= q < n && legal(board, player, q) ==> exists|i: int|
                0 <= i < legal_upto(board, player, n).len() && #[trigger] legal_upto(
                    board,
                    player,
                    n,
                )[i].pos == q,
    decreases n,
{
    lemma_legal_mask(board, player);
    if n > 0 {
        lemma_legal_complete(board, player, n - 1);
        lemma_legal_upto(board, player, n - 1);
        let before = legal_upto(board, player, n - 1);
        let now = legal_upto(board, player, n);
        assert(bit(legal_mask(board, player), n - 1) == legal(board, player, n - 1));
        if count_below(legal_mask(board, player), n) <= MAX_LIST {
            assert forall|q: int| 0 <= q < n && legal(board, player, q) implies exists|i: int|
                0 <= i < now.len() && #[trigger] now[i].pos == q by {
                if q < n - 1 {
                    let i = choose|i: int| 0 <= i < before.len() && #[trigger] before[i].pos == q;
                    assert(now[i].pos == q);
                } else {
                    assert(now[now.len() - 1].pos == q);
                }
            }
        }
    }
}

/// A list of moves, at most 32 of them, in the order in which they were added.
#[derive(Debug)]
pub struct MoveList {
    moves: [Move; 32],
    len: usize,
}

impl View for MoveList {
    type V = Seq<Move>;

    closed spec fn view(&self) -> Seq<Move> {
        self.moves@.take(self.len as int)
    }
}

impl Clone for MoveList {
    fn clone(&self) -> (r: Self)
        ensures
            r@ == self@,
    {
        proof {
            use_type_invariant(self);
        }
        MoveList { moves: self.moves, len: self.len }
    }
}

impl Default for MoveList {
    fn default() -> (r: Self)
        ensures
            r@ == Seq::<Move>::empty(),
    {
        Self::new()
    }
}

impl MoveList {
    /// The list holds at most 32 moves.
    #[verifier::type_invariant]
    spec fn bounded(self) -> bool {
        self.len <= MAX_LIST
    }

    /// The list without moves.
    pub fn new() -> (r: Self)
        ensures
            r@ == Seq::<Move>::empty(),
    {
        MoveList { moves: [Move { pos: 0, flipped: 0 };32], len: 0 }
    }

    /// Adds `m` at the end; a list of 32 moves stays as it is.
    pub fn push(&mut self, m: Move)
        ensures
            final(self)@ == (if old(self)@.len() < MAX_LIST {
                old(self)@.push(m)
            } else {
                old(self)@
            }),
    {
        proof {
            use_type_invariant(&*self);
        }
        if self.len < MAX_LIST {
            self.moves[self.len] = m;
            self.len += 1;
        }
    }

    /// How many moves the list holds.
    pub fn len(&self) -> (r: usize)
        ensures
            r == self@.len(),
            r <= MAX_LIST,
    {
        proof {
            use_type_invariant(self);
        }
        self.len
    }

    /// Whether the list holds no move.
    pub fn is_empty(&self) -> (r: bool)
        ensures
            r == (self@.len() == 0),
    {
        proof {
            use_type_invariant(self);
        }
        self.len == 0
    }

    /// The move at `index`, if the list is that long.
    pub fn get(&self, index: usize) -> (r: Option<&Move>)
        ensures
            r == (if index < self@.len() {
                Some(&self@[index as int])
            } else {
                None
            }),
    {
        proof {
            use_type_invariant(self);
        }
        if index < self.len {
            Some(&self.moves[index])
        } else {
            None
        }
    }

    /// The moves in order.
    pub fn iter(&self) -> (r: core::slice::Iter<'_, Move>)
        ensures
            vstd::std_specs::slice::into_iter_elts(r) == self@,
    {
        proof {
            use_type_invariant(self);
        }
        let all = self.moves.as_slice();
        let part = vstd::slice::slice_subrange(all, 0, self.len);
        part.iter()
    }

    /// The squares of the moves as a set; a move to a square off the board adds
    /// nothing.
    pub fn as_bitboard(&self) -> (r: u64)
        ensures
            forall|q: int|
                #[trigger] bit(r, q) == (0 <= q < 64 && exists|i: int|
                    0 <= i < self@.len() && #[trigger] self@[i].pos == q),
    {
        let mut bits: u64 = 0;
        let mut i: usize = 0;
        proof {
            lemma_consts();
            use_type_invariant(self);
        }
        while i < self.len
            invariant
                i <= self.len <= MAX_LIST,
                forall|q: int|
                    #[trigger] bit(bits, q) == (0 <= q < 64 && exists|k: int|
                        0 <= k < i && #[trigger] self@[k].pos == q),
            decreases self.len - i,
        {
            let m = self.moves[i];
            assert(m == self@[i as int]);
            let ghost before = bits;
            if m.pos < 64 {
                proof {
                    lemma_ops(bits, single(m.pos as int));
                    lemma_single(m.pos as int);
                }
                bits = bits | (1u64 << (m.pos as u64));
            }
            proof {
                assert forall|q: int|
                    #[trigger] bit(bits, q) == (0 <= q < 64 && exists|k: int|
                        0 <= k < i + 1 && #[trigger] self@[k].pos == q) by {
                    if bit(bits, q) {
                        if bit(before, q) {
                            let k = choose|k: int| 0 <= k < i && #[trigger] self@[k].pos == q;
                            assert(0 <= k < i + 1 && self@[k].pos == q);
                        } else {
                            assert(self@[i as int].pos == q);
                        }
                    }
                    if 0 <= q < 64 && exists|k: int| 0 <= k < i + 1 && #[trigger] self@[k].pos == q {
                        let k = choose|k: int| 0 <= k < i + 1 && #[trigger] self@[k].pos == q;
                        if k < i {
                            assert(bit(before, q));
                        }
                    }
                }
            }
            i += 1;
        }
        bits
    }
}

/// The legal moves of `player`, lowest square first.
pub fn generate_moves(board: &Board, player: Player) -> (r: MoveList)
    ensures
        r@ == legal_moves(*board, player),
        r@.len() == 0 <==> !can_move(*board, player),
{
    let mut moves = MoveList::new();
    let mut it = Board::iter_bits(board.empty_squares());
    let ghost mut floor: int = 0;
    loop
        invariant
            0 <= floor <= 64,
            forall|j: int| #[trigger] bit(it.bits, j) == (board.vacant(j) && j >= floor),
            moves@ == legal_upto(*board, player, floor),
        ensures
            moves@ == legal_upto(*board, player, 64),
        decreases popcount(it.bits),
    {
        let ghost before = it.bits;
        match it.next() {
            None => {
                proof {
                    lemma_consts();
                    assert forall|j: int| floor <= j < 64 implies !board.vacant(j) by {
                        assert(!bit(it.bits, j));
                    }
                    lemma_legal_gap(*board, player, floor, 64);
                }
                break ;
            },
            Some(pos) => {
                proof {
                    assert(bit(before, pos as int));
                    lemma_count_gain(it.bits, before, pos as int, 64);
                    assert forall|j: int| floor <= j < pos implies !board.vacant(j) by {
                        assert(!bit(before, j));
                    }
                    lemma_legal_gap(*board, player, floor, pos as int);
                    lemma_legal_upto(*board, player, pos as int);
                }
                let flipped = calculate_flips(board, player, pos);
                if flipped != 0 {
                    moves.push(Move::new(pos, flipped));
                }
                proof {
                    floor = pos + 1;
                }
            },
        }
    }
    proof {
        lemma_legal_mask(*board, player);
    }
    moves
}

/// How many squares `player` may put a disc on; no list is built.
pub fn count_moves(board: &Board, player: Player) -> (r: u32)
    ensures
        r == popcount(legal_mask(*board, player)),
        r <= 64,
        r == 0 <==> !can_move(*board, player),
{
    let mut count: u32 = 0;
    let mut it = Board::iter_bits(board.empty_squares());
    let ghost mut floor: int = 0;
    let ghost mask = legal_mask(*board, player);
    proof {
        lemma_legal_mask(*board, player);
    }
    loop
        invariant
            0 <= floor <= 64,
            mask == legal_mask(*board, player),
            forall|q: int| #[trigger] bit(mask, q) == legal(*board, player, q),
            forall|j: int| #[trigger] bit(it.bits, j) == (board.vacant(j) && j >= floor),
            count == count_below(mask, floor),
            count <= floor,
        ensures
            count == popcount(mask),
            count <= 64,
        decreases popcount(it.bits),
    {
        let ghost before = it.bits;
        match it.next() {
            None => {
                proof {
                    lemma_consts();
                    assert forall|j: int| floor <= j < 64 implies !bit(mask, j) by {
                        assert(!bit(it.bits, j));
                        lemma_flips(*board, player, j);
                    }
                    lemma_count_gap(mask, floor, 64);
                }
                break ;
            },
            Some(pos) => {
                proof {
                    assert(bit(before, pos as int));
                    lemma_count_gain(it.bits, before, pos as int, 64);
                    assert forall|j: int| floor <= j < pos implies !bit(mask, j) by {
                        assert(!bit(before, j));
                        lemma_flips(*board, player, j);
                    }
                    lemma_count_gap(mask, floor, pos as int);
                    lemma_count_bound(mask, pos as int);
                }
                if calculate_flips(board, player, pos) != 0 {
                    count += 1;
                }
                proof {
                    floor = pos + 1;
                }
            },
        }
    }
    count
}

/// Whether `player` may put a disc on `pos`.
pub fn is_legal_move(board: &Board, player: Player, pos: Position) -> (r: bool)
    ensures
        r == legal(*board, player, pos as int),
        r == (flips(*board, player, pos as int) != 0),
        r ==> board.vacant(pos as int),
{
    if pos >= 64 {
        proof {
            lemma_flips(*board, player, pos as int);
        }
        return false;
    }
    if board.is_occupied(pos) {
        proof {
            lemma_flips(*board, player, pos as int);
        }
        return false;
    }
    calculate_flips(board, player, pos) != 0
}

/// The set of squares on which `player` may put a disc.
pub fn legal_moves_bitboard(board: &Board, player: Player) -> (r: u64)
    ensures
        r == legal_mask(*board, player),
        forall|q: int| #[trigger] bit(r, q) == legal(*board, player, q),
{
    let mut found: u64 = 0;
    let mut it = Board::iter_bits(board.empty_squares());
    let ghost mut floor: int = 0;
    proof {
        lemma_consts();
        lemma_legal_mask(*board, player);
        assert forall|q: int| #[trigger] bit(found, q) == (q < floor && legal(*board, player, q)) by {
            lemma_flips(*board, player, q);
        }
    }
    loop
        invariant
            0 <= floor <= 64,
            forall|j: int| #[trigger] bit(it.bits, j) == (board.vacant(j) && j >= floor),
            forall|q: int| #[trigger] bit(found, q) == (q < floor && legal(*board, player, q)),
        ensures
            forall|q: int| #[trigger] bit(found, q) == legal(*board, player, q),
        decreases popcount(it.bits),
    {
        let ghost before = it.bits;
        match it.next() {
            None => {
                proof {
                    lemma_consts();
                    assert forall|q: int| #[trigger] bit(found, q) == legal(*board, player, q) by {
                        lemma_flips(*board, player, q);
                        assert(!bit(it.bits, q));
                    }
                }
                break ;
            },
            Some(pos) => {
                proof {
                    assert(bit(before, pos as int));
                    lemma_count_gain(it.bits, before, pos as int, 64);
                }
                let ghost prior = found;
                if calculate_flips(board, player, pos) != 0 {
                    proof {
                        lemma_ops(found, single(pos as int));
                        lemma_single(pos as int);
                    }
                    found = found | (1u64 << (pos as u64));
                }
                proof {
                    assert forall|q: int|
                        #[trigger] bit(found, q) == (q < pos + 1 && legal(*board, player, q)) by {
                        lemma_flips(*board, player, q);
                        if floor <= q < pos {
                            assert(!bit(before, q));
                        }
                        assert(bit(prior, q) == (q < floor && legal(*board, player, q)));
                    }
                    floor = pos + 1;
                }
            },
        }
    }
    proof {
        lemma_ext(found, legal_mask(*board, player));
    }
    found
}

/// Whether either player has a legal move.
pub fn game_has_moves(board: &Board) -> (r: bool)
    ensures
        r == (can_move(*board, Player::Black) || can_move(*board, Player::White)),
{
    count_moves(board, Player::Black) > 0 || count_moves(board, Player::White) > 0
}

} // verus!
