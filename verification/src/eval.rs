//! The static value of a position for one player.

use vstd::prelude::*;
use crate::bits::{bit, single, mask_where, popcount, count_below, count_bits, test_bit, lemma_ops, lemma_single, lemma_consts, lemma_nonzero, lemma_covers, lemma_mask_where, lemma_count_gain, lemma_count_gap, lemma_count_bound, lemma_popcount_zero};
use crate::board::{Board, Player};
use crate::moves::{can_move, legal_mask, count_moves, shift, ray_on, ray_sq};
use crate::Position;

verus! {

/// The value of a position.
pub type Score = i32;

/// The value of a position that is won outright.
pub const SCORE_WIN: Score = 100_000;

/// The value of a position that is lost outright.
pub const SCORE_LOSS: Score = -100_000;

/// The four corners.
pub const CORNER_SQUARES: u64 = 0x8100_0000_0000_0081;

/// The squares of rank 1.
pub const FIRST_RANK: u64 = 0x0000_0000_0000_00ff;

/// The squares of rank 8.
pub const LAST_RANK: u64 = 0xff00_0000_0000_0000;

/// The squares of file A.
pub const FIRST_FILE: u64 = 0x0101_0101_0101_0101;

/// The squares of file H.
pub const LAST_FILE: u64 = 0x8080_8080_8080_8080;

/// Two different squares of the board that touch, by a side or by a corner.
pub open spec fn adjacent(p: int, q: int) -> bool {
    &&& 0 <= p < 64
    &&& 0 <= q < 64
    &&& p != q
    &&& -1 <= q / 8 - p / 8 <= 1
    &&& -1 <= q % 8 - p % 8 <= 1
}

/// Whether square `q` touches a vacant square.
pub open spec fn is_frontier(board: Board, q: int) -> bool {
    exists|n: int| #[trigger] adjacent(q, n) && board.vacant(n)
}

/// The discs of `player` that touch a vacant square.
pub open spec fn frontier_mask(board: Board, player: Player) -> u64 {
    mask_where(|q: int| board.held_by(player, q) && is_frontier(board, q))
}

/// What a corner is worth: 100 to its owner.
pub open spec fn corner_term(own: u64, opp: u64, corner: int) -> int {
    if bit(own, corner) {
        100
    } else if bit(opp, corner) {
        -100
    } else {
        0
    }
}

/// What a square next to a corner costs its owner while the corner is vacant.
pub open spec fn danger_term(own: u64, opp: u64, sq: int, corner: int, weight: int) -> int {
    if bit(own, corner) || bit(opp, corner) {
        0
    } else if bit(own, sq) {
        -weight
    } else if bit(opp, sq) {
        weight
    } else {
        0
    }
}

/// The four corners, 100 each.
pub open spec fn corner_sum(own: u64, opp: u64) -> int {
    corner_term(own, opp, 0) + corner_term(own, opp, 7) + corner_term(own, opp, 56) + corner_term(
        own,
        opp,
        63,
    )
}

/// The squares diagonal to a corner, 25 each, counted while the corner is
/// vacant.
pub open spec fn diagonal_sum(own: u64, opp: u64) -> int {
    danger_term(own, opp, 9, 0, 25) + danger_term(own, opp, 14, 7, 25) + danger_term(
        own,
        opp,
        49,
        56,
        25,
    ) + danger_term(own, opp, 54, 63, 25)
}

/// The squares beside a corner on an edge, 10 each, counted while the corner
/// is vacant.
pub open spec fn beside_sum(own: u64, opp: u64) -> int {
    danger_term(own, opp, 1, 0, 10) + danger_term(own, opp, 8, 0, 10) + danger_term(
        own,
        opp,
        6,
        7,
        10,
    ) + danger_term(own, opp, 15, 7, 10) + danger_term(own, opp, 48, 56, 10) + danger_term(
        own,
        opp,
        57,
        56,
        10,
    ) + danger_term(own, opp, 55, 63, 10) + danger_term(own, opp, 62, 63, 10)
}

/// The squares next to the corners.
pub open spec fn danger_sum(own: u64, opp: u64) -> int {
    diagonal_sum(own, opp) + beside_sum(own, opp)
}

/// Corners and the squares next to them, for `player`.
pub open spec fn corners_value(board: Board, player: Player) -> int {
    corner_sum(board.discs(player), board.discs(player.other())) + danger_sum(
        board.discs(player),
        board.discs(player.other()),
    )
}

/// Three for each legal move that `player` has more than the opponent.
pub open spec fn mobility_value(board: Board, player: Player) -> int {
    (popcount(legal_mask(board, player)) - popcount(legal_mask(board, player.other()))) * 3
}

/// One for each frontier disc that the opponent has more than `player`.
pub open spec fn frontier_value(board: Board, player: Player) -> int {
    popcount(frontier_mask(board, player.other())) - popcount(frontier_mask(board, player))
}

/// How much a disc counts with `empty` vacant squares left.
pub open spec fn disc_weight(empty: int) -> int {
    if empty > 44 {
        0
    } else if empty > 20 {
        1
    } else if empty > 10 {
        2
    } else {
        5
    }
}

/// The discs that `player` has more than the opponent, weighted by the phase
/// of the game.
pub open spec fn disc_value(board: Board, player: Player) -> int {
    (popcount(board.discs(player)) - popcount(board.discs(player.other()))) * disc_weight(
        popcount(!(board.black | board.white)) as int,
    )
}

/// The discs of `own` on `edge` where the edge is full and `own` holds one of
/// its two corners; none otherwise.
pub open spec fn edge_part(own: u64, occupied: u64, edge: u64, c1: int, c2: int) -> u64 {
    if occupied & edge == edge && (bit(own, c1) || bit(own, c2)) {
        own & edge
    } else {
        0
    }
}

/// The discs of `player` that count as stable: those in a corner, and those on
/// a full edge of which `player` holds a corner.
pub open spec fn stable_mask(board: Board, player: Player) -> u64 {
    let own = board.discs(player);
    let occ = board.black | board.white;
    (own & CORNER_SQUARES) | edge_part(own, occ, FIRST_RANK, 0, 7) | edge_part(
        own,
        occ,
        LAST_RANK,
        56,
        63,
    ) | edge_part(own, occ, FIRST_FILE, 0, 56) | edge_part(own, occ, LAST_FILE, 7, 63)
}

/// Ten for each stable disc that `player` has more than the opponent.
pub open spec fn stability_value(board: Board, player: Player) -> int {
    (popcount(stable_mask(board, player)) - popcount(stable_mask(board, player.other()))) * 10
}

/// Whether neither player has a legal move.
pub open spec fn terminal(board: Board) -> bool {
    !can_move(board, Player::Black) && !can_move(board, Player::White)
}

/// The value of a finished game: a win, less 100 for each disc of the loser; a
/// loss, plus 100 for each own disc; nothing for a draw.
pub open spec fn terminal_value(board: Board, player: Player) -> int {
    let own = popcount(board.discs(player));
    let opp = popcount(board.discs(player.other()));
    if own > opp {
        SCORE_WIN - opp * 100
    } else if opp > own {
        SCORE_LOSS + own * 100
    } else {
        0
    }
}

/// The value of a position in which a move is left: the sum of its features.
pub open spec fn heuristic_value(board: Board, player: Player) -> int {
    corners_value(board, player) + mobility_value(board, player) + frontier_value(board, player)
        + disc_value(board, player) + stability_value(board, player)
}

/// The value of `board` for `player`.
pub open spec fn evaluation(board: Board, player: Player) -> int {
    if terminal(board) {
        terminal_value(board, player)
    } else {
        heuristic_value(board, player)
    }
}

/// Corners and mobility alone.
pub open spec fn quick_value(board: Board, player: Player) -> int {
    corner_sum(board.discs(player), board.discs(player.other())) + mobility_value(board, player)
}

/// How far the corners and the squares next to them can count.
proof fn lemma_corner_bounds(own: u64, opp: u64)
    ensures
        -400 <= corner_sum(own, opp) <= 400,
        -100 <= diagonal_sum(own, opp) <= 100,
        -80 <= beside_sum(own, opp) <= 80,
{
}

/// How far mobility, frontier, discs and stability can count.
proof fn lemma_feature_bounds(board: Board, player: Player)
    ensures
        -192 <= mobility_value(board, player) <= 192,
        -64 <= frontier_value(board, player) <= 64,
        -320 <= disc_value(board, player) <= 320,
        -640 <= stability_value(board, player) <= 640,
{
    lemma_popcount_zero(board.discs(player));
    lemma_popcount_zero(board.discs(player.other()));
    lemma_popcount_zero(legal_mask(board, player));
    lemma_popcount_zero(legal_mask(board, player.other()));
    lemma_popcount_zero(frontier_mask(board, player));
    lemma_popcount_zero(frontier_mask(board, player.other()));
    lemma_popcount_zero(stable_mask(board, player));
    lemma_popcount_zero(stable_mask(board, player.other()));
}

/// The value of a position in which a move is left lies strictly between a
/// loss and a win; that of a finished game may reach either.
pub proof fn lemma_evaluation_bounds(board: Board, player: Player)
    ensures
        SCORE_LOSS <= evaluation(board, player) <= SCORE_WIN,
        -2000 < heuristic_value(board, player) < 2000,
        !terminal(board) ==> SCORE_LOSS < evaluation(board, player) < SCORE_WIN,
{
    lemma_corner_bounds(board.discs(player), board.discs(player.other()));
    lemma_feature_bounds(board, player);
    lemma_popcount_zero(board.discs(player));
    lemma_popcount_zero(board.discs(player.other()));
}

/// Whether `q` is the square one step from `p` in the direction (`dr`, `dc`).
pub open spec fn steps_to(p: int, dr: int, dc: int, q: int) -> bool {
    ray_on(p, dr, dc, 1) && q == ray_sq(p, dr, dc, 1)
}

/// The row and the column of the square one step from `p`.
proof fn lemma_step_square(p: int, dr: int, dc: int)
    requires
        0 <= p < 64,
        ray_on(p, dr, dc, 1),
    ensures
        0 <= ray_sq(p, dr, dc, 1) < 64,
        ray_sq(p, dr, dc, 1) / 8 == p / 8 + crate::moves::scaled(1, dr),
        ray_sq(p, dr, dc, 1) % 8 == p % 8 + crate::moves::scaled(1, dc),
{
}

/// The squares that touch a square are those one step from it in one of the
/// eight directions.
proof fn lemma_adjacent(p: int, q: int)
    requires
        0 <= p < 64,
    ensures
        adjacent(p, q) == (steps_to(p, 0, 1, q) || steps_to(p, 0, -1, q) || steps_to(p, 1, 0, q)
            || steps_to(p, -1, 0, q) || steps_to(p, 1, 1, q) || steps_to(p, 1, -1, q) || steps_to(
            p,
            -1,
            1,
            q,
        ) || steps_to(p, -1, -1, q)),
{
    if ray_on(p, 0, 1, 1) {
        lemma_step_square(p, 0, 1);
    }
    if ray_on(p, 0, -1, 1) {
        lemma_step_square(p, 0, -1);
    }
    if ray_on(p, 1, 0, 1) {
        lemma_step_square(p, 1, 0);
    }
    if ray_on(p, -1, 0, 1) {
        lemma_step_square(p, -1, 0);
    }
    if ray_on(p, 1, 1, 1) {
        lemma_step_square(p, 1, 1);
    }
    if ray_on(p, 1, -1, 1) {
        lemma_step_square(p, 1, -1);
    }
    if ray_on(p, -1, 1, 1) {
        lemma_step_square(p, -1, 1);
    }
    if ray_on(p, -1, -1, 1) {
        lemma_step_square(p, -1, -1);
    }
    if adjacent(p, q) {
        let dr = q / 8 - p / 8;
        let dc = q % 8 - p % 8;
        assert(steps_to(p, dr, dc, q));
    }
}

/// The bits of a single square moved one step: the square it lands on, or none
/// where it leaves the board.
proof fn lemma_step_bits(p: int, dr: int, dc: int, moved: u64)
    requires
        0 <= p < 64,
        moved == (if ray_on(p, dr, dc, 1) {
            single(ray_sq(p, dr, dc, 1))
        } else {
            0
        }),
        -1 <= dr <= 1,
        -1 <= dc <= 1,
    ensures
        forall|q: int| #[trigger] bit(moved, q) == steps_to(p, dr, dc, q),
{
    lemma_consts();
    if ray_on(p, dr, dc, 1) {
        lemma_single(ray_sq(p, dr, dc, 1));
    }
}

/// The squares that touch `pos`.
pub fn neighbor_mask(pos: Position) -> (r: u64)
    requires
        pos < 64,
    ensures
        forall|q: int| #[trigger] bit(r, q) == adjacent(pos as int, q),
{
    let spot: u64 = 1u64 << (pos as u64);
    let ghost p = pos as int;
    assert(spot == single(p));
    let e = shift(spot, 0, 1);
    let w = shift(spot, 0, -1);
    let s = shift(spot, 1, 0);
    let n = shift(spot, -1, 0);
    let se = shift(spot, 1, 1);
    let sw = shift(spot, 1, -1);
    let ne = shift(spot, -1, 1);
    let nw = shift(spot, -1, -1);
    let a = e | w;
    let b = s | n;
    let c = se | sw;
    let d = ne | nw;
    let ab = a | b;
    let cd = c | d;
    let mask = ab | cd;
    proof {
        lemma_step_bits(p, 0, 1, e);
        lemma_step_bits(p, 0, -1, w);
        lemma_step_bits(p, 1, 0, s);
        lemma_step_bits(p, -1, 0, n);
        lemma_step_bits(p, 1, 1, se);
        lemma_step_bits(p, 1, -1, sw);
        lemma_step_bits(p, -1, 1, ne);
        lemma_step_bits(p, -1, -1, nw);
        lemma_ops(e, w);
        lemma_ops(s, n);
        lemma_ops(se, sw);
        lemma_ops(ne, nw);
        lemma_ops(a, b);
        lemma_ops(c, d);
        lemma_ops(ab, cd);
        assert forall|q: int| #[trigger] bit(mask, q) == adjacent(p, q) by {
            lemma_adjacent(p, q);
            assert(bit(mask, q) == (bit(ab, q) || bit(cd, q)));
            assert(bit(ab, q) == (bit(a, q) || bit(b, q)));
            assert(bit(cd, q) == (bit(c, q) || bit(d, q)));
            assert(bit(a, q) == (bit(e, q) || bit(w, q)));
            assert(bit(b, q) == (bit(s, q) || bit(n, q)));
            assert(bit(c, q) == (bit(se, q) || bit(sw, q)));
            assert(bit(d, q) == (bit(ne, q) || bit(nw, q)));
        }
    }
    mask
}

/// How many discs of `player` touch a vacant square.
pub fn count_frontier(board: &Board, player: Player) -> (r: u32)
    ensures
        r == popcount(frontier_mask(*board, player)),
        r <= 64,
{
    let own = board.get(player);
    let empty = board.empty_squares();
    let mut frontier: u32 = 0;
    let mut it = Board::iter_bits(own);
    let ghost mut floor: int = 0;
    let ghost mask = frontier_mask(*board, player);
    proof {
        lemma_mask_where(|q: int| board.held_by(player, q) && is_frontier(*board, q));
    }
    loop
        invariant
            0 <= floor <= 64,
            own == board.discs(player),
            mask == frontier_mask(*board, player),
            forall|q: int| #[trigger] bit(empty, q) == board.vacant(q),
            forall|q: int|
                #[trigger] bit(mask, q) == (0 <= q < 64 && board.held_by(player, q) && is_frontier(
                    *board,
                    q,
                )),
            forall|j: int| #[trigger] bit(it.bits, j) == (bit(own, j) && j >= floor),
            frontier == count_below(mask, floor),
            frontier <= floor,
        ensures
            frontier == popcount(mask),
            frontier <= 64,
        decreases popcount(it.bits),
    {
        let ghost before = it.bits;
        match it.next() {
            None => {
                proof {
                    lemma_consts();
                    assert forall|j: int| floor <= j < 64 implies !bit(mask, j) by {
                        assert(!bit(it.bits, j));
                    }
                    lemma_count_gap(mask, floor, 64);
                }
                break ;
            },
            Some(pos) => {
                proof {
                    assert(bit(before, pos as int));
                    lemma_count_gain(it.bits, before, pos as int, 64);
                    assert forall|j: int| floor <= j < pos implies !bit(mask, j) by {
                        assert(!bit(before, j));
                    }
                    lemma_count_gap(mask, floor, pos as int);
                    lemma_count_bound(mask, pos as int);
                }
                let near = neighbor_mask(pos);
                proof {
                    lemma_ops(near, empty);
                    lemma_nonzero(near & empty);
                    if near & empty != 0 {
                        let n = choose|n: int| bit(near & empty, n);
                        assert(adjacent(pos as int, n) && board.vacant(n));
                    }
                    if is_frontier(*board, pos as int) {
                        let n = choose|n: int| #[trigger]
                            adjacent(pos as int, n) && board.vacant(n);
                        assert(bit(near & empty, n));
                    }
                }
                if (near & empty) != 0 {
                    frontier += 1;
                }
                proof {
                    floor = pos + 1;
                }
            },
        }
    }
    frontier
}

/// The value of corner `corner` for the owner of `own`.
fn corner_points(own: u64, opp: u64, corner: u8) -> (r: Score)
    requires
        corner < 64,
    ensures
        r == corner_term(own, opp, corner as int),
{
    if test_bit(own, corner) {
        100
    } else if test_bit(opp, corner) {
        -100
    } else {
        0
    }
}

/// The value of square `sq` beside `corner` for the owner of `own`.
fn danger_points(own: u64, opp: u64, sq: u8, corner: u8, weight: Score) -> (r: Score)
    requires
        sq < 64,
        corner < 64,
        0 <= weight <= 100,
    ensures
        r == danger_term(own, opp, sq as int, corner as int, weight as int),
        -weight <= r <= weight,
{
    if test_bit(own, corner) || test_bit(opp, corner) {
        0
    } else if test_bit(own, sq) {
        -weight
    } else if test_bit(opp, sq) {
        weight
    } else {
        0
    }
}

/// The value of the four corners for the owner of `own`.
fn corner_total(own: u64, opp: u64) -> (r: Score)
    ensures
        r == corner_sum(own, opp),
        -400 <= r <= 400,
{
    corner_points(own, opp, 0) + corner_points(own, opp, 7) + corner_points(own, opp, 56)
        + corner_points(own, opp, 63)
}

/// The value of the squares diagonal to the corners for the owner of `own`.
fn diagonal_total(own: u64, opp: u64) -> (r: Score)
    ensures
        r == diagonal_sum(own, opp),
        -100 <= r <= 100,
{
    let a = danger_points(own, opp, 9, 0, 25);
    let b = danger_points(own, opp, 14, 7, 25);
    let c = danger_points(own, opp, 49, 56, 25);
    let d = danger_points(own, opp, 54, 63, 25);
    a + b + c + d
}

/// The value of the squares beside the corners for the owner of `own`.
fn beside_total(own: u64, opp: u64) -> (r: Score)
    ensures
        r == beside_sum(own, opp),
        -80 <= r <= 80,
{
    let a = danger_points(own, opp, 1, 0, 10);
    let b = danger_points(own, opp, 8, 0, 10);
    let c = danger_points(own, opp, 6, 7, 10);
    let d = danger_points(own, opp, 15, 7, 10);
    let e = danger_points(own, opp, 48, 56, 10);
    let f = danger_points(own, opp, 57, 56, 10);
    let g = danger_points(own, opp, 55, 63, 10);
    let h = danger_points(own, opp, 62, 63, 10);
    a + b + c + d + e + f + g + h
}

/// Corners, and the squares next to a vacant corner, for `player`.
pub fn evaluate_corners(board: &Board, player: Player) -> (r: Score)
    ensures
        r == corners_value(*board, player),
        -580 <= r <= 580,
{
    let own = board.get(player);
    let opp = board.get(player.opponent());
    corner_total(own, opp) + diagonal_total(own, opp) + beside_total(own, opp)
}

/// Legal moves of `player` less those of the opponent, times three.
pub fn evaluate_mobility(board: &Board, player: Player) -> (r: Score)
    ensures
        r == mobility_value(*board, player),
        -192 <= r <= 192,
{
    let own_moves = count_moves(board, player) as Score;
    let opp_moves = count_moves(board, player.opponent()) as Score;
    (own_moves - opp_moves) * 3
}

/// Frontier discs of the opponent less those of `player`.
pub fn evaluate_frontier(board: &Board, player: Player) -> (r: Score)
    ensures
        r == frontier_value(*board, player),
        -64 <= r <= 64,
{
    let own_frontier = count_frontier(board, player) as Score;
    let opp_frontier = count_frontier(board, player.opponent()) as Score;
    opp_frontier - own_frontier
}

/// Discs of `player` less those of the opponent, weighted by the phase of the
/// game.
pub fn evaluate_disc_count(board: &Board, player: Player) -> (r: Score)
    ensures
        r == disc_value(*board, player),
        -320 <= r <= 320,
{
    let own = board.count(player) as Score;
    let opp = board.count(player.opponent()) as Score;
    let empty = board.empty_count();
    let weight: Score = if empty > 44 {
        0
    } else if empty > 20 {
        1
    } else if empty > 10 {
        2
    } else {
        5
    };
    assert(-64 <= own - opp <= 64);
    assert(-320 <= (own - opp) * weight <= 320) by (nonlinear_arith)
        requires
            -64 <= own - opp <= 64,
            0 <= weight <= 5,
    ;
    (own - opp) * weight
}

/// The discs of `own` on `edge`, where the edge is full and `own` holds one of
/// its corners.
fn stable_on_edge(own: u64, occupied: u64, edge: u64, c1: u8, c2: u8) -> (r: u64)
    requires
        c1 < 64,
        c2 < 64,
    ensures
        r == edge_part(own, occupied, edge, c1 as int, c2 as int),
{
    if (occupied & edge) == edge && (test_bit(own, c1) || test_bit(own, c2)) {
        own & edge
    } else {
        0
    }
}

/// How many discs of `player` count as stable.
pub fn count_stable_discs(board: &Board, player: Player) -> (r: u32)
    ensures
        r == popcount(stable_mask(*board, player)),
        r <= 64,
{
    let own = board.get(player);
    let occupied = board.occupied();
    let mut stable: u64 = own & CORNER_SQUARES;
    stable = stable | stable_on_edge(own, occupied, FIRST_RANK, 0, 7);
    stable = stable | stable_on_edge(own, occupied, LAST_RANK, 56, 63);
    stable = stable | stable_on_edge(own, occupied, FIRST_FILE, 0, 56);
    stable = stable | stable_on_edge(own, occupied, LAST_FILE, 7, 63);
    count_bits(stable)
}

/// Stable discs of `player` less those of the opponent, times ten.
pub fn evaluate_stability(board: &Board, player: Player) -> (r: Score)
    ensures
        r == stability_value(*board, player),
        -640 <= r <= 640,
{
    let own_stable = count_stable_discs(board, player) as Score;
    let opp_stable = count_stable_discs(board, player.opponent()) as Score;
    (own_stable - opp_stable) * 10
}

/// The value of `board` for `player`: that of a finished game where neither
/// player has a legal move, the sum of the features otherwise.
pub fn evaluate(board: &Board, player: Player) -> (r: Score)
    ensures
        r == evaluation(*board, player),
        SCORE_LOSS <= r <= SCORE_WIN,
{
    let own_moves = count_moves(board, player);
    let opp_moves = count_moves(board, player.opponent());
    proof {
        lemma_evaluation_bounds(*board, player);
    }
    if own_moves == 0 && opp_moves == 0 {
        let own = board.count(player) as Score;
        let opp = board.count(player.opponent()) as Score;
        return if own > opp {
            SCORE_WIN - (opp * 100)
        } else if opp > own {
            SCORE_LOSS + (own * 100)
        } else {
            0
        };
    }
    let mut score: Score = 0;
    score = score + evaluate_corners(board, player);
    score = score + evaluate_mobility(board, player);
    score = score + evaluate_frontier(board, player);
    score = score + evaluate_disc_count(board, player);
    score = score + evaluate_stability(board, player);
    score
}

/// A cheaper value: corners and mobility alone.
pub fn quick_evaluate(board: &Board, player: Player) -> (r: Score)
    ensures
        r == quick_value(*board, player),
        -592 <= r <= 592,
{
    let own = board.get(player);
    let opp = board.get(player.opponent());
    let corners = corner_total(own, opp);
    let own_moves = count_moves(board, player) as Score;
    let opp_moves = count_moves(board, player.opponent()) as Score;
    corners + (own_moves - opp_moves) * 3
}

/// Whether square `q` is a corner.
pub open spec fn is_corner(q: int) -> bool {
    q == 0 || q == 7 || q == 56 || q == 63
}

/// Whether every square of rank `row` holds a disc.
pub open spec fn rank_full(board: Board, row: int) -> bool {
    forall|q: int| 0 <= q < 64 && q / 8 == row ==> !board.vacant(q)
}

/// Whether every square of file `col` holds a disc.
pub open spec fn file_full(board: Board, col: int) -> bool {
    forall|q: int| 0 <= q < 64 && q % 8 == col ==> !board.vacant(q)
}

/// Whether the disc on `q` counts as stable for `player`: it is theirs, and it
/// stands in a corner, or on an edge that is full and of which they hold a
/// corner.
pub open spec fn is_stable(board: Board, player: Player, q: int) -> bool {
    &&& board.held_by(player, q)
    &&& {
        ||| is_corner(q)
        ||| q / 8 == 0 && rank_full(board, 0) && (board.held_by(player, 0) || board.held_by(
            player,
            7,
        ))
        ||| q / 8 == 7 && rank_full(board, 7) && (board.held_by(player, 56) || board.held_by(
            player,
            63,
        ))
        ||| q % 8 == 0 && file_full(board, 0) && (board.held_by(player, 0) || board.held_by(
            player,
            56,
        ))
        ||| q % 8 == 7 && file_full(board, 7) && (board.held_by(player, 7) || board.held_by(
            player,
            63,
        ))
    }
}

/// The squares of the corner mask and of the four edge masks.
proof fn lemma_edge_masks_bv(q: u64)
    by (bit_vector)
    requires
        q < 64,
    ensures
        ((0x8100_0000_0000_0081u64 >> q) & 1 == 1) == (q == 0 || q == 7 || q == 56 || q == 63),
        ((0x0000_0000_0000_00ffu64 >> q) & 1 == 1) == (q / 8 == 0),
        ((0xff00_0000_0000_0000u64 >> q) & 1 == 1) == (q / 8 == 7),
        ((0x0101_0101_0101_0101u64 >> q) & 1 == 1) == (q % 8 == 0),
        ((0x8080_8080_8080_8080u64 >> q) & 1 == 1) == (q % 8 == 7),
{
}

/// Which squares the corner mask and the four edge masks hold.
proof fn lemma_edge_bits(q: int)
    ensures
        bit(CORNER_SQUARES, q) == is_corner(q),
        bit(FIRST_RANK, q) == (0 <= q < 64 && q / 8 == 0),
        bit(LAST_RANK, q) == (0 <= q < 64 && q / 8 == 7),
        bit(FIRST_FILE, q) == (0 <= q < 64 && q % 8 == 0),
        bit(LAST_FILE, q) == (0 <= q < 64 && q % 8 == 7),
{
    if 0 <= q < 64 {
        lemma_edge_masks_bv(q as u64);
    }
}

/// The discs that are counted as stable are those in a corner and those on a
/// full edge of which their owner holds a corner.
pub proof fn lemma_stable_mask(board: Board, player: Player)
    ensures
        forall|q: int| #[trigger] bit(stable_mask(board, player), q) == is_stable(board, player, q),
{
    let own = board.discs(player);
    let occ = board.black | board.white;
    let corners = own & CORNER_SQUARES;
    let top = edge_part(own, occ, FIRST_RANK, 0, 7);
    let bottom = edge_part(own, occ, LAST_RANK, 56, 63);
    let left = edge_part(own, occ, FIRST_FILE, 0, 56);
    let right = edge_part(own, occ, LAST_FILE, 7, 63);
    lemma_consts();
    lemma_ops(board.black, board.white);
    lemma_ops(own, CORNER_SQUARES);
    lemma_ops(own, FIRST_RANK);
    lemma_ops(own, LAST_RANK);
    lemma_ops(own, FIRST_FILE);
    lemma_ops(own, LAST_FILE);
    lemma_ops(corners, top);
    lemma_ops(corners | top, bottom);
    lemma_ops(corners | top | bottom, left);
    lemma_ops(corners | top | bottom | left, right);
    lemma_covers(occ, FIRST_RANK);
    lemma_covers(occ, LAST_RANK);
    lemma_covers(occ, FIRST_FILE);
    lemma_covers(occ, LAST_FILE);
    assert((occ & FIRST_RANK == FIRST_RANK) == rank_full(board, 0)) by {
        if rank_full(board, 0) {
            assert forall|i: int| bit(FIRST_RANK, i) implies bit(occ, i) by {
                lemma_edge_bits(i);
                assert(!board.vacant(i));
            }
        }
        if occ & FIRST_RANK == FIRST_RANK {
            assert forall|i: int| 0 <= i < 64 && i / 8 == 0 implies !board.vacant(i) by {
                lemma_edge_bits(i);
                assert(bit(FIRST_RANK, i));
                assert(bit(occ, i));
            }
        }
    }
    assert((occ & LAST_RANK == LAST_RANK) == rank_full(board, 7)) by {
        if rank_full(board, 7) {
            assert forall|i: int| bit(LAST_RANK, i) implies bit(occ, i) by {
                lemma_edge_bits(i);
                assert(!board.vacant(i));
            }
        }
        if occ & LAST_RANK == LAST_RANK {
            assert forall|i: int| 0 <= i < 64 && i / 8 == 7 implies !board.vacant(i) by {
                lemma_edge_bits(i);
                assert(bit(LAST_RANK, i));
                assert(bit(occ, i));
            }
        }
    }
    assert((occ & FIRST_FILE == FIRST_FILE) == file_full(board, 0)) by {
        if file_full(board, 0) {
            assert forall|i: int| bit(FIRST_FILE, i) implies bit(occ, i) by {
                lemma_edge_bits(i);
                assert(!board.vacant(i));
            }
        }
        if occ & FIRST_FILE == FIRST_FILE {
            assert forall|i: int| 0 <= i < 64 && i % 8 == 0 implies !board.vacant(i) by {
                lemma_edge_bits(i);
                assert(bit(FIRST_FILE, i));
                assert(bit(occ, i));
            }
        }
    }
    assert((occ & LAST_FILE == LAST_FILE) == file_full(board, 7)) by {
        if file_full(board, 7) {
            assert forall|i: int| bit(LAST_FILE, i) implies bit(occ, i) by {
                lemma_edge_bits(i);
                assert(!board.vacant(i));
            }
        }
        if occ & LAST_FILE == LAST_FILE {
            assert forall|i: int| 0 <= i < 64 && i % 8 == 7 implies !board.vacant(i) by {
                lemma_edge_bits(i);
                assert(bit(LAST_FILE, i));
                assert(bit(occ, i));
            }
        }
    }
    assert forall|q: int| #[trigger]
        bit(stable_mask(board, player), q) == is_stable(board, player, q) by {
        lemma_edge_bits(q);
        if 0 <= q < 64 {
            assert(bit(stable_mask(board, player), q) == (bit(corners, q) || bit(top, q) || bit(
                bottom,
                q,
            ) || bit(left, q) || bit(right, q)));
        }
    }
}

/// On sets without a common square, what a corner or a square next to one is
/// worth to the owner of one set, it costs the owner of the other.
proof fn lemma_term_opposite(own: u64, opp: u64, sq: int, corner: int, weight: int)
    requires
        forall|q: int| #[trigger] bit(own, q) ==> !bit(opp, q),
    ensures
        corner_term(opp, own, corner) == -corner_term(own, opp, corner),
        danger_term(opp, own, sq, corner, weight) == -danger_term(own, opp, sq, corner, weight),
{
}

/// The same for the sums over the corners and over the squares next to them.
proof fn lemma_corners_opposite(own: u64, opp: u64)
    requires
        forall|q: int| #[trigger] bit(own, q) ==> !bit(opp, q),
    ensures
        corner_sum(opp, own) == -corner_sum(own, opp),
        diagonal_sum(opp, own) == -diagonal_sum(own, opp),
        beside_sum(opp, own) == -beside_sum(own, opp),
{
    lemma_term_opposite(own, opp, 9, 0, 25);
    lemma_term_opposite(own, opp, 14, 7, 25);
    lemma_term_opposite(own, opp, 49, 56, 25);
    lemma_term_opposite(own, opp, 54, 63, 25);
    lemma_term_opposite(own, opp, 1, 0, 10);
    lemma_term_opposite(own, opp, 8, 0, 10);
    lemma_term_opposite(own, opp, 6, 7, 10);
    lemma_term_opposite(own, opp, 15, 7, 10);
    lemma_term_opposite(own, opp, 48, 56, 10);
    lemma_term_opposite(own, opp, 57, 56, 10);
    lemma_term_opposite(own, opp, 55, 63, 10);
    lemma_term_opposite(own, opp, 62, 63, 10);
}

/// What the discs are worth to one player, they cost the other.
proof fn lemma_discs_opposite(board: Board, player: Player)
    ensures
        disc_value(board, player.other()) == -disc_value(board, player),
        terminal_value(board, player.other()) == -terminal_value(board, player),
{
    assert(player.other().other() == player);
    let w = disc_weight(popcount(!(board.black | board.white)) as int);
    let d = popcount(board.discs(player)) - popcount(board.discs(player.other()));
    assert((-d) * w == -(d * w)) by (nonlinear_arith);
}

/// What a position is worth to one player, it costs the other, on a board
/// without a square of two discs.
pub proof fn lemma_evaluation_opposite(board: Board, player: Player)
    requires
        board.disjoint(),
    ensures
        evaluation(board, player.other()) == -evaluation(board, player),
{
    assert(player.other().other() == player);
    crate::board::lemma_disjoint(board, player);
    lemma_corners_opposite(board.discs(player), board.discs(player.other()));
    lemma_discs_opposite(board, player);
}

} // verus!
