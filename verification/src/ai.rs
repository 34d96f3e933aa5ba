//! The computer opponent: move ordering, depth-limited search with pruning,
//! and the exact solver for the last squares.

use vstd::prelude::*;
use crate::bits::{bit, popcount, lemma_count_gain, lemma_ops, lemma_popcount_zero};
use crate::board::{Board, Player};
use crate::eval::{evaluate, evaluation, lemma_evaluation_bounds, Score, SCORE_LOSS, SCORE_WIN};
use crate::game::{board_after, lemma_board_after};
use crate::moves::{Move, MoveList, MAX_LIST, can_move, legal, legal_mask, legal_moves, flips, count_moves, generate_moves, lemma_legal_upto, lemma_legal_mask};
use crate::opening::{OpeningBook, book_move};
use crate::Position;

verus! {

/// How strong the computer plays.
#[derive(Debug, Clone, Copy, PartialEq, Eq, Structural)]
pub enum Difficulty {
    Easy,
    Medium,
    Hard,
    Expert,
}

impl Difficulty {
    /// How many plies the search looks ahead.
    pub open spec fn plies(self) -> nat {
        match self {
            Difficulty::Easy => 2,
            Difficulty::Medium => 4,
            Difficulty::Hard => 6,
            Difficulty::Expert => 8,
        }
    }

    /// Whether the last squares are solved exactly.
    pub open spec fn solves_endgame(self) -> bool {
        self == Difficulty::Hard || self == Difficulty::Expert
    }

    /// Whether the opening book is consulted.
    pub open spec fn reads_book(self) -> bool {
        self == Difficulty::Expert
    }

    /// The number of vacant squares from which the game is solved exactly.
    pub open spec fn solver_threshold(self) -> nat {
        match self {
            Difficulty::Easy => 0,
            Difficulty::Medium => 0,
            Difficulty::Hard => 12,
            Difficulty::Expert => 14,
        }
    }

    /// How many plies the search looks ahead.
    pub fn depth(&self) -> (r: u8)
        ensures
            r == self.plies(),
            r >= 2,
    {
        match self {
            Difficulty::Easy => 2,
            Difficulty::Medium => 4,
            Difficulty::Hard => 6,
            Difficulty::Expert => 8,
        }
    }

    /// Whether the last squares are solved exactly.
    pub fn use_endgame_solver(&self) -> (r: bool)
        ensures
            r == self.solves_endgame(),
    {
        match self {
            Difficulty::Easy => false,
            Difficulty::Medium => false,
            Difficulty::Hard => true,
            Difficulty::Expert => true,
        }
    }

    /// Whether the opening book is consulted.
    pub fn use_opening_book(&self) -> (r: bool)
        ensures
            r == self.reads_book(),
    {
        match self {
            Difficulty::Expert => true,
            _ => false,
        }
    }

    /// The number of vacant squares from which the game is solved exactly.
    pub fn endgame_threshold(&self) -> (r: u32)
        ensures
            r == self.solver_threshold(),
    {
        match self {
            Difficulty::Easy => 0,
            Difficulty::Medium => 0,
            Difficulty::Hard => 12,
            Difficulty::Expert => 14,
        }
    }
}

/// The board after `player` has put a disc on `pos` and turned `flipped`.
pub open spec fn applied(board: Board, player: Player, pos: int, flipped: u64) -> Board {
    board.placed(player, pos).flipped(player.other(), flipped)
}

/// The board after `player` has put a disc on `pos` and turned `flipped`.
pub fn apply_move(board: &Board, player: Player, pos: Position, flipped: u64) -> (r: Board)
    requires
        pos < 64,
    ensures
        r == applied(*board, player, pos as int, flipped),
{
    let mut new_board = *board;
    new_board.place(player, pos);
    new_board.flip(player.opponent(), flipped);
    new_board
}

/// What the square of a move adds to its rank: a corner 1000, a square
/// diagonal to a corner -500, a square beside a corner on an edge -200, any
/// other edge square 100.
pub open spec fn square_bonus(pos: int) -> int {
    if pos == 0 || pos == 7 || pos == 56 || pos == 63 {
        1000
    } else if pos == 9 || pos == 14 || pos == 49 || pos == 54 {
        -500
    } else if pos == 1 || pos == 6 || pos == 8 || pos == 15 || pos == 48 || pos == 55 || pos == 57
        || pos == 62 {
        -200
    } else if pos < 8 || pos >= 56 || pos % 8 == 0 || pos % 8 == 7 {
        100
    } else {
        0
    }
}

/// The rank of a move in the ordering: the bonus of its square, five for each
/// disc it turns, less three for each move it leaves the opponent.
pub open spec fn order_score(board: Board, player: Player, m: Move) -> int {
    square_bonus(m.pos as int) + popcount(m.flipped) * 5 - popcount(
        legal_mask(applied(board, player, m.pos as int, m.flipped), player.other()),
    ) * 3
}

/// Index `j` stands among the first `n` places of `order`.
pub open spec fn occurs(order: Seq<usize>, n: int, j: int) -> bool {
    exists|i: int| 0 <= i < n && #[trigger] order[i] == j
}

/// `order` lists the indices below `n`, each once, and leaves the others in
/// place.
pub open spec fn is_permutation(order: Seq<usize>, n: int) -> bool {
    &&& order.len() == MAX_LIST
    &&& 0 <= n <= MAX_LIST
    &&& forall|i: int| 0 <= i < n ==> 0 <= #[trigger] order[i] < n
    &&& forall|i: int| n <= i < MAX_LIST ==> #[trigger] order[i] == i
    &&& forall|j: int| 0 <= j < n ==> #[trigger] occurs(order, n, j)
}

/// `order` lists the moves, each once, from the highest rank down.
pub open spec fn is_ordering(order: Seq<usize>, board: Board, player: Player, moves: Seq<Move>) -> bool {
    &&& is_permutation(order, moves.len() as int)
    &&& forall|i: int, j: int|
        0 <= i < j < moves.len() ==> order_score(board, player, moves[#[trigger] order[i] as int])
            >= order_score(board, player, moves[#[trigger] order[j] as int])
}

/// The rank of `m` in the ordering.
fn rank_move(board: &Board, player: Player, m: &Move) -> (r: i32)
    requires
        m.pos < 64,
    ensures
        r == order_score(*board, player, *m),
        -1000 <= r <= 2000,
{
    let new_board = apply_move(board, player, m.pos, m.flipped);
    let pos = m.pos;
    let mut score: i32 = 0;
    if pos == 0 || pos == 7 || pos == 56 || pos == 63 {
        score = score + 1000;
    } else if pos == 9 || pos == 14 || pos == 49 || pos == 54 {
        score = score - 500;
    } else if pos == 1 || pos == 6 || pos == 8 || pos == 15 || pos == 48 || pos == 55 || pos == 57
        || pos == 62 {
        score = score - 200;
    } else if pos < 8 || pos >= 56 || pos % 8 == 0 || pos % 8 == 7 {
        score = score + 100;
    }
    score = score + (m.flip_count() as i32) * 5;
    let opp_mobility = count_moves(&new_board, player.opponent()) as i32;
    score = score - opp_mobility * 3;
    score
}

/// The ranks of `moves`, in their order.
pub open spec fn ranks_of(board: Board, player: Player, moves: Seq<Move>) -> Seq<int> {
    Seq::new(moves.len(), |k: int| order_score(board, player, moves[k]))
}

/// `order` with the entries of the places `a` and `b` exchanged.
pub open spec fn swapped(order: Seq<usize>, a: int, b: int) -> Seq<usize> {
    order.update(a, order[b]).update(b, order[a])
}

/// `order` after the places from `b` on have been held against place `a`, one
/// after the other: an entry of strictly higher rank changes places with the
/// entry that stands at `a` then.
pub open spec fn sift(order: Seq<usize>, ranks: Seq<int>, a: int, b: int) -> Seq<usize>
    decreases ranks.len() - b,
{
    if b >= ranks.len() || b <= a || a < 0 {
        order
    } else {
        let next = if ranks[order[b] as int] > ranks[order[a] as int] {
            swapped(order, a, b)
        } else {
            order
        };
        sift(next, ranks, a, b + 1)
    }
}

/// `order` after every place from `a` on has been filled in turn by holding
/// all later places against it.
pub open spec fn sorted_from(order: Seq<usize>, ranks: Seq<int>, a: int) -> Seq<usize>
    decreases ranks.len() - a,
{
    if a >= ranks.len() || a < 0 {
        order
    } else {
        sorted_from(sift(order, ranks, a, a + 1), ranks, a + 1)
    }
}

/// Every index in its own place.
pub open spec fn identity_order() -> Seq<usize> {
    Seq::new(MAX_LIST as nat, |i: int| i as usize)
}

/// The order in which the moves are searched: from the highest rank down,
/// moves of equal rank as the exchange of places leaves them.
pub open spec fn ordering_of(board: Board, player: Player, moves: Seq<Move>) -> Seq<usize> {
    sorted_from(identity_order(), ranks_of(board, player, moves), 0)
}

/// The first `a` places of `order` are in order: none of their entries has a
/// lower rank than an entry that stands after it.
pub open spec fn sorted_before(order: Seq<usize>, ranks: Seq<int>, a: int) -> bool {
    forall|x: int, y: int|
        0 <= x < a && x < y < ranks.len() ==> ranks[#[trigger] order[x] as int] >= ranks[
            #[trigger] order[y] as int
        ]
}

/// Holding the later places against place `a` keeps a permutation, keeps what
/// is in order before `a`, and leaves at `a` an entry that no later one beats.
pub proof fn lemma_sift(order: Seq<usize>, ranks: Seq<int>, a: int, b: int)
    requires
        is_permutation(order, ranks.len() as int),
        0 <= a < b <= ranks.len(),
        sorted_before(order, ranks, a),
        forall|y: int| a < y < b ==> ranks[order[a] as int] >= ranks[#[trigger] order[y] as int],
    ensures
        is_permutation(sift(order, ranks, a, b), ranks.len() as int),
        sorted_before(sift(order, ranks, a, b), ranks, a + 1),
    decreases ranks.len() - b,
{
    let n = ranks.len() as int;
    if b >= n {
        assert forall|x: int, y: int| 0 <= x < a + 1 && x < y < n implies ranks[
            #[trigger] order[x] as int
        ] >= ranks[#[trigger] order[y] as int] by {
            if x < a {
            } else {
            }
        }
    } else {
        let next = if ranks[order[b] as int] > ranks[order[a] as int] {
            swapped(order, a, b)
        } else {
            order
        };
        if next != order {
            assert forall|j: int| 0 <= j < n implies #[trigger] occurs(next, n, j) by {
                assert(occurs(order, n, j));
                let i0 = choose|i: int| 0 <= i < n && #[trigger] order[i] == j;
                if i0 == a {
                    assert(next[b] == j);
                } else if i0 == b {
                    assert(next[a] == j);
                } else {
                    assert(next[i0] == j);
                }
            }
            assert forall|x: int, y: int| 0 <= x < a && x < y < n implies ranks[
                #[trigger] next[x] as int
            ] >= ranks[#[trigger] next[y] as int] by {
                assert(next[x] == order[x]);
                if y == a {
                    assert(ranks[order[x] as int] >= ranks[order[b] as int]);
                } else if y == b {
                    assert(ranks[order[x] as int] >= ranks[order[a] as int]);
                } else {
                    assert(next[y] == order[y]);
                }
            }
            assert forall|y: int| a < y < b + 1 implies ranks[next[a] as int] >= ranks[
                #[trigger] next[y] as int
            ] by {
                if y < b {
                    assert(next[y] == order[y]);
                    assert(ranks[order[a] as int] >= ranks[order[y] as int]);
                }
            }
        }
        lemma_sift(next, ranks, a, b + 1);
    }
}

/// Filling every place from `a` on in turn keeps a permutation and leaves the
/// whole in order.
pub proof fn lemma_sorted_from(order: Seq<usize>, ranks: Seq<int>, a: int)
    requires
        is_permutation(order, ranks.len() as int),
        0 <= a <= ranks.len(),
        sorted_before(order, ranks, a),
    ensures
        is_permutation(sorted_from(order, ranks, a), ranks.len() as int),
        sorted_before(sorted_from(order, ranks, a), ranks, ranks.len() as int),
    decreases ranks.len() - a,
{
    let n = ranks.len() as int;
    if a >= n {
        assert forall|x: int, y: int| 0 <= x < n && x < y < n implies ranks[
            #[trigger] order[x] as int
        ] >= ranks[#[trigger] order[y] as int] by {
        }
    } else {
        lemma_sift(order, ranks, a, a + 1);
        lemma_sorted_from(sift(order, ranks, a, a + 1), ranks, a + 1);
    }
}

/// The order in which the moves are searched lists each of them once, from
/// the highest rank down.
pub proof fn lemma_ordering_of(board: Board, player: Player, moves: Seq<Move>)
    requires
        moves.len() <= MAX_LIST,
    ensures
        is_ordering(ordering_of(board, player, moves), board, player, moves),
{
    let ranks = ranks_of(board, player, moves);
    let start = identity_order();
    let n = moves.len() as int;
    assert(is_permutation(start, n)) by {
        assert forall|j: int| 0 <= j < n implies #[trigger] occurs(start, n, j) by {
            assert(start[j] == j);
        }
    }
    lemma_sorted_from(start, ranks, 0);
    let order = ordering_of(board, player, moves);
    assert forall|i: int, j: int| 0 <= i < j < moves.len() implies order_score(
        board,
        player,
        moves[#[trigger] order[i] as int],
    ) >= order_score(board, player, moves[#[trigger] order[j] as int]) by {
        assert(ranks[order[i] as int] >= ranks[order[j] as int]);
    }
}

/// The indices of `moves` in the order in which they are searched: from the
/// highest rank down; beyond the moves, each index stands in its own place.
pub fn order_moves(board: &Board, player: Player, moves: &MoveList) -> (r: [usize; 32])
    requires
        forall|i: int| 0 <= i < moves@.len() ==> (#[trigger] moves@[i]).pos < 64,
    ensures
        r@ == ordering_of(*board, player, moves@),
        is_ordering(r@, *board, player, moves@),
{
    let n = moves.len();
    let mut indices: [usize; 32] = [0usize;32];
    let mut scores: [Score; 32] = [0i32;32];
    let mut i: usize = 0;
    while i < 32
        invariant
            i <= 32,
            n == moves@.len(),
            n <= 32,
            forall|k: int| 0 <= k < i ==> #[trigger] indices@[k] == k,
            forall|k: int|
                0 <= k < i && k < n ==> #[trigger] scores@[k] == order_score(
                    *board,
                    player,
                    moves@[k],
                ),
            forall|k: int| 0 <= k < moves@.len() ==> (#[trigger] moves@[k]).pos < 64,
        decreases 32 - i,
    {
        indices[i] = i;
        if i < n {
            match moves.get(i) {
                Some(m) => {
                    scores[i] = rank_move(board, player, m);
                },
                None => {},
            }
        }
        i += 1;
    }
    let ghost ranks = ranks_of(*board, player, moves@);
    let ghost target = ordering_of(*board, player, moves@);
    assert(indices@ =~= identity_order());
    let mut a: usize = 0;
    while a < n
        invariant
            a <= n,
            n == moves@.len(),
            n <= 32,
            n == ranks.len(),
            forall|k: int| 0 <= k < n ==> 0 <= #[trigger] indices@[k] < n,
            forall|k: int| 0 <= k < n ==> #[trigger] scores@[k] == ranks[k],
            sorted_from(indices@, ranks, a as int) == target,
        decreases n - a,
    {
        let mut b: usize = a + 1;
        while b < n
            invariant
                a < n,
                a < b <= n,
                n == moves@.len(),
                n <= 32,
                n == ranks.len(),
                forall|k: int| 0 <= k < n ==> 0 <= #[trigger] indices@[k] < n,
                forall|k: int| 0 <= k < n ==> #[trigger] scores@[k] == ranks[k],
                sorted_from(sift(indices@, ranks, a as int, b as int), ranks, a + 1) == target,
            decreases n - b,
        {
            let ia = indices[a];
            let ib = indices[b];
            let ghost before = indices@;
            if scores[ib] > scores[ia] {
                indices[a] = ib;
                indices[b] = ia;
                assert(indices@ =~= swapped(before, a as int, b as int));
            }
            b += 1;
        }
        a += 1;
    }
    proof {
        lemma_ordering_of(*board, player, moves@);
    }
    indices
}

/// The player whose turn it is at a node of the search: the root player at a
/// maximizing node, the opponent at a minimizing one.
pub open spec fn mover(player: Player, maximizing: bool) -> Player {
    if maximizing {
        player
    } else {
        player.other()
    }
}

/// One where `player` cannot move, zero where they can.
pub open spec fn stuck(board: Board, player: Player) -> nat {
    if can_move(board, player) {
        0
    } else {
        1
    }
}

/// The value of `board` for `player` by exhaustive search to `depth` plies:
/// the static value at depth zero and where neither player can move; else the
/// best of the values of the moves of the player to move, the highest for
/// `player`, the lowest for the opponent. A player without a move passes, and
/// the pass costs no depth.
pub open spec fn minimax(board: Board, player: Player, depth: nat, maximizing: bool) -> int
    decreases depth, stuck(board, mover(player, maximizing)), 0nat,
{
    let current = mover(player, maximizing);
    if depth == 0 {
        evaluation(board, player)
    } else if can_move(board, current) {
        best_child(
            board,
            player,
            (depth - 1) as nat,
            maximizing,
            legal_moves(board, current).len(),
        )
    } else if can_move(board, current.other()) {
        minimax(board, player, depth, !maximizing)
    } else {
        evaluation(board, player)
    }
}

/// The value, searched `depth` plies further, of the position after the
/// `i`-th legal move of the player to move.
pub open spec fn child_value(
    board: Board,
    player: Player,
    depth: nat,
    maximizing: bool,
    i: int,
) -> int
    decreases depth, 2nat, 0nat,
{
    let current = mover(player, maximizing);
    minimax(
        board_after(board, current, legal_moves(board, current)[i].pos as int),
        player,
        depth,
        !maximizing,
    )
}

/// The best of the values of the first `n` legal moves of the player to move:
/// the highest at a maximizing node, starting from a loss; the lowest at a
/// minimizing node, starting from a win.
pub open spec fn best_child(
    board: Board,
    player: Player,
    depth: nat,
    maximizing: bool,
    n: nat,
) -> int
    decreases depth, 3nat, n,
{
    if n == 0 {
        if maximizing {
            SCORE_LOSS as int
        } else {
            SCORE_WIN as int
        }
    } else {
        let rest = best_child(board, player, depth, maximizing, (n - 1) as nat);
        let value = child_value(board, player, depth, maximizing, n - 1);
        if maximizing {
            if value > rest {
                value
            } else {
                rest
            }
        } else {
            if value < rest {
                value
            } else {
                rest
            }
        }
    }
}

/// What a search with the window from `alpha` to `beta` tells of the true
/// value `v`: a result inside the window is the value; a result at or below
/// `alpha` is no less than the value; a result at or above `beta` is no more.
pub open spec fn within_window(r: int, alpha: int, beta: int, v: int) -> bool {
    &&& r <= alpha ==> v <= r
    &&& r >= beta ==> v >= r
    &&& alpha < r < beta ==> v == r
}

/// The value of the move that stands at place `i` of `order`.
pub open spec fn seen_value(
    board: Board,
    player: Player,
    depth: nat,
    maximizing: bool,
    order: Seq<usize>,
    i: int,
) -> int {
    child_value(board, player, depth, maximizing, order[i] as int)
}

/// The best value bounds every move's value, and is the start value or the
/// value of one of the moves.
pub proof fn lemma_best_child(board: Board, player: Player, depth: nat, maximizing: bool, n: nat)
    ensures
        maximizing ==> {
            let best = best_child(board, player, depth, maximizing, n);
            &&& best >= SCORE_LOSS
            &&& forall|i: int|
                0 <= i < n ==> #[trigger] child_value(board, player, depth, maximizing, i) <= best
            &&& best == SCORE_LOSS || exists|i: int|
                0 <= i < n && #[trigger] child_value(board, player, depth, maximizing, i) == best
        },
        !maximizing ==> {
            let best = best_child(board, player, depth, maximizing, n);
            &&& best <= SCORE_WIN
            &&& forall|i: int|
                0 <= i < n ==> #[trigger] child_value(board, player, depth, maximizing, i) >= best
            &&& best == SCORE_WIN || exists|i: int|
                0 <= i < n && #[trigger] child_value(board, player, depth, maximizing, i) == best
        },
    decreases n,
{
    if n > 0 {
        lemma_best_child(board, player, depth, maximizing, (n - 1) as nat);
        let rest = best_child(board, player, depth, maximizing, (n - 1) as nat);
        let best = best_child(board, player, depth, maximizing, n);
        let value = child_value(board, player, depth, maximizing, n - 1);
        if best != rest {
            assert(child_value(board, player, depth, maximizing, n - 1) == best);
        } else if maximizing && rest != SCORE_LOSS {
            let i = choose|i: int|
                0 <= i < n - 1 && #[trigger] child_value(board, player, depth, maximizing, i)
                    == rest;
            assert(child_value(board, player, depth, maximizing, i) == best);
        } else if !maximizing && rest != SCORE_WIN {
            let i = choose|i: int|
                0 <= i < n - 1 && #[trigger] child_value(board, player, depth, maximizing, i)
                    == rest;
            assert(child_value(board, player, depth, maximizing, i) == best);
        }
    }
}

/// Every value of the exhaustive search lies between a loss and a win.
pub proof fn lemma_minimax_bounds(board: Board, player: Player, depth: nat, maximizing: bool)
    ensures
        SCORE_LOSS <= minimax(board, player, depth, maximizing) <= SCORE_WIN,
    decreases depth, stuck(board, mover(player, maximizing)), 0nat,
{
    let current = mover(player, maximizing);
    lemma_evaluation_bounds(board, player);
    if depth == 0 {
    } else if can_move(board, current) {
        lemma_best_bounds(
            board,
            player,
            (depth - 1) as nat,
            maximizing,
            legal_moves(board, current).len(),
        );
    } else if can_move(board, current.other()) {
        lemma_minimax_bounds(board, player, depth, !maximizing);
    }
}

/// The best of the first `n` moves lies between a loss and a win.
pub proof fn lemma_best_bounds(board: Board, player: Player, depth: nat, maximizing: bool, n: nat)
    ensures
        SCORE_LOSS <= best_child(board, player, depth, maximizing, n) <= SCORE_WIN,
    decreases depth, 3nat, n,
{
    if n > 0 {
        lemma_best_bounds(board, player, depth, maximizing, (n - 1) as nat);
        let current = mover(player, maximizing);
        lemma_minimax_bounds(
            board_after(board, current, legal_moves(board, current)[n - 1].pos as int),
            player,
            depth,
            !maximizing,
        );
        assert(child_value(board, player, depth, maximizing, n - 1) == minimax(
            board_after(board, current, legal_moves(board, current)[n - 1].pos as int),
            player,
            depth,
            !maximizing,
        ));
    }
}

/// The moves of a list of legal moves: each on the board, legal, and with the
/// discs that it turns.
pub proof fn lemma_legal_list(board: Board, player: Player)
    ensures
        legal_moves(board, player).len() <= MAX_LIST,
        legal_moves(board, player).len() > 0 <==> can_move(board, player),
        forall|i: int|
            0 <= i < legal_moves(board, player).len() ==> {
                let m = #[trigger] legal_moves(board, player)[i];
                &&& m.pos < 64
                &&& legal(board, player, m.pos as int)
                &&& m.flipped == flips(board, player, m.pos as int)
                &&& applied(board, player, m.pos as int, m.flipped) == board_after(
                    board,
                    player,
                    m.pos as int,
                )
            },
{
    lemma_legal_upto(board, player, 64);
    lemma_legal_mask(board, player);
}

/// What the search with the window from `alpha` to `beta` returns: the static
/// value at depth zero and where neither player can move; the result for the
/// other player, at the same depth, where the player to move must pass; else
/// the result of going through the moves in their search order.
pub open spec fn pruned(
    board: Board,
    player: Player,
    depth: nat,
    alpha: int,
    beta: int,
    maximizing: bool,
) -> int
    decreases depth, stuck(board, mover(player, maximizing)), 0nat,
{
    let current = mover(player, maximizing);
    if depth == 0 {
        evaluation(board, player)
    } else if can_move(board, current) {
        scan(
            board,
            player,
            (depth - 1) as nat,
            alpha,
            beta,
            maximizing,
            0,
            if maximizing {
                SCORE_LOSS as int
            } else {
                SCORE_WIN as int
            },
        )
    } else if can_move(board, current.other()) {
        pruned(board, player, depth, alpha, beta, !maximizing)
    } else {
        evaluation(board, player)
    }
}

/// What the search returns for the position after the move at place `k` of the
/// search order.
pub open spec fn pruned_child(
    board: Board,
    player: Player,
    depth: nat,
    alpha: int,
    beta: int,
    maximizing: bool,
    k: int,
) -> int
    decreases depth, 2nat, 0nat,
{
    let current = mover(player, maximizing);
    let moves = legal_moves(board, current);
    let i = ordering_of(board, current, moves)[k] as int;
    pruned(board_after(board, current, moves[i].pos as int), player, depth, alpha, beta, !maximizing)
}

/// What going through the moves from place `k` of the search order on returns,
/// with `best` the best result so far. At a maximizing node each result raises
/// `best` and `alpha` where it is higher, and the moves that are left are
/// dropped once `beta` is no more than `alpha`; at a minimizing node each result
/// lowers `best` and `beta` where it is lower, with the same rule.
pub open spec fn scan(
    board: Board,
    player: Player,
    depth: nat,
    alpha: int,
    beta: int,
    maximizing: bool,
    k: nat,
    best: int,
) -> int
    decreases depth, 3nat, legal_moves(board, mover(player, maximizing)).len() - k,
{
    let n = legal_moves(board, mover(player, maximizing)).len();
    if k >= n {
        best
    } else {
        let v = pruned_child(board, player, depth, alpha, beta, maximizing, k as int);
        if maximizing {
            let raised = if v > best {
                v
            } else {
                best
            };
            let floor = if v > alpha {
                v
            } else {
                alpha
            };
            if beta <= floor {
                raised
            } else {
                scan(board, player, depth, floor, beta, maximizing, k + 1, raised)
            }
        } else {
            let lowered = if v < best {
                v
            } else {
                best
            };
            let ceiling = if v < beta {
                v
            } else {
                beta
            };
            if ceiling <= alpha {
                lowered
            } else {
                scan(board, player, depth, alpha, ceiling, maximizing, k + 1, lowered)
            }
        }
    }
}

/// The search order of the player to move at a node.
pub open spec fn node_order(board: Board, player: Player, maximizing: bool) -> Seq<usize> {
    ordering_of(
        board,
        mover(player, maximizing),
        legal_moves(board, mover(player, maximizing)),
    )
}

/// `whole` is the best of `values`: the highest at a maximizing node, the
/// lowest at a minimizing one, counted from a loss or from a win.
pub open spec fn is_best(values: Seq<int>, whole: int, maximizing: bool) -> bool {
    if maximizing {
        &&& whole >= SCORE_LOSS
        &&& forall|i: int| 0 <= i < values.len() ==> #[trigger] values[i] <= whole
        &&& whole == SCORE_LOSS || exists|i: int|
            0 <= i < values.len() && #[trigger] values[i] == whole
    } else {
        &&& whole <= SCORE_WIN
        &&& forall|i: int| 0 <= i < values.len() ==> #[trigger] values[i] >= whole
        &&& whole == SCORE_WIN || exists|i: int|
            0 <= i < values.len() && #[trigger] values[i] == whole
    }
}

/// What holds while moves with the true values `values` are gone through with
/// the window from `a0` to `b0`, before the move at place `k`: the window has
/// not closed; the bound that moves follows the best result; no move so far is
/// worth more (at a maximizing node; less, at a minimizing one) than the best
/// result; and a best result inside the window is reached by one of them.
pub open spec fn window_state(
    values: Seq<int>,
    a0: int,
    b0: int,
    alpha: int,
    beta: int,
    maximizing: bool,
    k: nat,
    best: int,
) -> bool {
    &&& k <= values.len()
    &&& SCORE_LOSS <= best <= SCORE_WIN
    &&& alpha < beta
    &&& if maximizing {
        &&& beta == b0
        &&& k == 0 ==> alpha == a0 && best == SCORE_LOSS
        &&& k >= 1 ==> alpha == (if a0 > best {
            a0
        } else {
            best
        })
        &&& forall|i: int| 0 <= i < k ==> #[trigger] values[i] <= best
        &&& best > a0 && k >= 1 ==> exists|i: int| 0 <= i < k && #[trigger] values[i] >= best
    } else {
        &&& alpha == a0
        &&& k == 0 ==> beta == b0 && best == SCORE_WIN
        &&& k >= 1 ==> beta == (if b0 < best {
            b0
        } else {
            best
        })
        &&& forall|i: int| 0 <= i < k ==> #[trigger] values[i] >= best
        &&& best < b0 && k >= 1 ==> exists|i: int| 0 <= i < k && #[trigger] values[i] <= best
    }
}

/// The best result after `v`: the higher of the two at a maximizing node, the
/// lower at a minimizing one.
pub open spec fn improved(best: int, v: int, maximizing: bool) -> int {
    if maximizing {
        if v > best {
            v
        } else {
            best
        }
    } else {
        if v < best {
            v
        } else {
            best
        }
    }
}

/// When every move has been gone through, the best result is sound for the
/// window with which the node was entered.
pub proof fn lemma_window_end(
    values: Seq<int>,
    whole: int,
    a0: int,
    b0: int,
    alpha: int,
    beta: int,
    maximizing: bool,
    best: int,
)
    requires
        a0 < b0,
        is_best(values, whole, maximizing),
        window_state(values, a0, b0, alpha, beta, maximizing, values.len(), best),
    ensures
        within_window(best, a0, b0, whole),
{
    let k = values.len();
    if maximizing {
        if best > a0 && k >= 1 {
            let i = choose|i: int| 0 <= i < k && #[trigger] values[i] >= best;
            assert(values[i] <= whole);
        }
        if whole != SCORE_LOSS {
            let j = choose|j: int| 0 <= j < values.len() && #[trigger] values[j] == whole;
            assert(values[j] <= best);
        }
    } else {
        if best < b0 && k >= 1 {
            let i = choose|i: int| 0 <= i < k && #[trigger] values[i] <= best;
            assert(values[i] >= whole);
        }
        if whole != SCORE_WIN {
            let j = choose|j: int| 0 <= j < values.len() && #[trigger] values[j] == whole;
            assert(values[j] >= best);
        }
    }
}

/// One more move, whose result `v` is sound for the window in force: either
/// the window closes and the best result is sound for the window with which the
/// node was entered, or the state holds again before the next move.
pub proof fn lemma_window_step(
    values: Seq<int>,
    whole: int,
    a0: int,
    b0: int,
    alpha: int,
    beta: int,
    maximizing: bool,
    k: nat,
    best: int,
    v: int,
)
    requires
        a0 < b0,
        k < values.len(),
        is_best(values, whole, maximizing),
        window_state(values, a0, b0, alpha, beta, maximizing, k, best),
        SCORE_LOSS <= v <= SCORE_WIN,
        within_window(v, alpha, beta, values[k as int]),
    ensures
        maximizing ==> {
            let floor = if v > alpha {
                v
            } else {
                alpha
            };
            if beta <= floor {
                within_window(improved(best, v, maximizing), a0, b0, whole)
            } else {
                window_state(
                    values,
                    a0,
                    b0,
                    floor,
                    beta,
                    maximizing,
                    k + 1,
                    improved(best, v, maximizing),
                )
            }
        },
        !maximizing ==> {
            let ceiling = if v < beta {
                v
            } else {
                beta
            };
            if ceiling <= alpha {
                within_window(improved(best, v, maximizing), a0, b0, whole)
            } else {
                window_state(
                    values,
                    a0,
                    b0,
                    alpha,
                    ceiling,
                    maximizing,
                    k + 1,
                    improved(best, v, maximizing),
                )
            }
        },
{
    let seen = values[k as int];
    let next = improved(best, v, maximizing);
    if maximizing {
        assert(seen <= whole);
        let floor = if v > alpha {
            v
        } else {
            alpha
        };
        if beta <= floor {
            if v < best {
                let w = choose|w: int| 0 <= w < k && #[trigger] values[w] >= best;
                assert(values[w] <= whole);
            }
        } else {
            assert forall|i: int| 0 <= i < k + 1 implies #[trigger] values[i] <= next by {
                if i < k {
                    assert(values[i] <= best);
                }
            }
            if next > a0 {
                if v > alpha {
                    assert(values[k as int] >= next);
                } else {
                    let w = choose|w: int| 0 <= w < k && #[trigger] values[w] >= best;
                    assert(values[w] >= next);
                }
            }
        }
    } else {
        assert(seen >= whole);
        let ceiling = if v < beta {
            v
        } else {
            beta
        };
        if ceiling <= alpha {
            if v > best {
                let w = choose|w: int| 0 <= w < k && #[trigger] values[w] <= best;
                assert(values[w] >= whole);
            }
        } else {
            assert forall|i: int| 0 <= i < k + 1 implies #[trigger] values[i] >= next by {
                if i < k {
                    assert(values[i] >= best);
                }
            }
            if next < b0 {
                if v < beta {
                    assert(values[k as int] <= next);
                } else {
                    let w = choose|w: int| 0 <= w < k && #[trigger] values[w] <= best;
                    assert(values[w] <= next);
                }
            }
        }
    }
}

/// The values of the moves of a node, in their search order.
pub open spec fn seen_values(board: Board, player: Player, depth: nat, maximizing: bool) -> Seq<
    int,
> {
    Seq::new(
        legal_moves(board, mover(player, maximizing)).len(),
        |i: int|
            seen_value(
                board,
                player,
                depth,
                maximizing,
                node_order(board, player, maximizing),
                i,
            ),
    )
}

/// The value of a node is the best of the values of its moves, in whatever
/// order they are taken.
pub proof fn lemma_seen_best(board: Board, player: Player, depth: nat, maximizing: bool)
    ensures
        is_best(
            seen_values(board, player, depth, maximizing),
            best_child(
                board,
                player,
                depth,
                maximizing,
                legal_moves(board, mover(player, maximizing)).len(),
            ),
            maximizing,
        ),
{
    let current = mover(player, maximizing);
    let moves = legal_moves(board, current);
    let n = moves.len();
    let order = node_order(board, player, maximizing);
    let values = seen_values(board, player, depth, maximizing);
    let whole = best_child(board, player, depth, maximizing, n);
    lemma_legal_list(board, current);
    lemma_ordering_of(board, current, moves);
    lemma_best_child(board, player, depth, maximizing, n);
    assert forall|i: int| 0 <= i < n implies (maximizing ==> #[trigger] values[i] <= whole) && (
    !maximizing ==> values[i] >= whole) by {
        assert(values[i] == child_value(board, player, depth, maximizing, order[i] as int));
    }
    if maximizing && whole != SCORE_LOSS || !maximizing && whole != SCORE_WIN {
        let j = choose|j: int|
            0 <= j < n && #[trigger] child_value(board, player, depth, maximizing, j) == whole;
        assert(occurs(order, n as int, j));
        let i = choose|i: int| 0 <= i < n && #[trigger] order[i] == j;
        assert(values[i] == whole);
    }
}

/// Every result of the search lies between a loss and a win, whatever the
/// window.
pub proof fn lemma_pruned_bounds(
    board: Board,
    player: Player,
    depth: nat,
    alpha: int,
    beta: int,
    maximizing: bool,
)
    ensures
        SCORE_LOSS <= pruned(board, player, depth, alpha, beta, maximizing) <= SCORE_WIN,
    decreases depth, stuck(board, mover(player, maximizing)), 0nat,
{
    let current = mover(player, maximizing);
    lemma_evaluation_bounds(board, player);
    if depth == 0 {
    } else if can_move(board, current) {
        lemma_scan_bounds(
            board,
            player,
            (depth - 1) as nat,
            alpha,
            beta,
            maximizing,
            0,
            if maximizing {
                SCORE_LOSS as int
            } else {
                SCORE_WIN as int
            },
        );
    } else if can_move(board, current.other()) {
        lemma_pruned_bounds(board, player, depth, alpha, beta, !maximizing);
    }
}

/// Going through the moves keeps the result between a loss and a win.
pub proof fn lemma_scan_bounds(
    board: Board,
    player: Player,
    depth: nat,
    alpha: int,
    beta: int,
    maximizing: bool,
    k: nat,
    best: int,
)
    requires
        SCORE_LOSS <= best <= SCORE_WIN,
    ensures
        SCORE_LOSS <= scan(board, player, depth, alpha, beta, maximizing, k, best) <= SCORE_WIN,
    decreases depth, 3nat, legal_moves(board, mover(player, maximizing)).len() - k,
{
    let current = mover(player, maximizing);
    let moves = legal_moves(board, current);
    if k < moves.len() {
        let i = ordering_of(board, current, moves)[k as int] as int;
        lemma_pruned_bounds(
            board_after(board, current, moves[i].pos as int),
            player,
            depth,
            alpha,
            beta,
            !maximizing,
        );
        let v = pruned_child(board, player, depth, alpha, beta, maximizing, k as int);
        if maximizing {
            let raised = if v > best {
                v
            } else {
                best
            };
            let floor = if v > alpha {
                v
            } else {
                alpha
            };
            if beta > floor {
                lemma_scan_bounds(board, player, depth, floor, beta, maximizing, k + 1, raised);
            }
        } else {
            let lowered = if v < best {
                v
            } else {
                best
            };
            let ceiling = if v < beta {
                v
            } else {
                beta
            };
            if ceiling > alpha {
                lemma_scan_bounds(board, player, depth, alpha, ceiling, maximizing, k + 1, lowered);
            }
        }
    }
}

/// Pruning is sound: with a window that is not empty, the result of the search
/// is the value of the exhaustive search where it falls inside the window, and
/// a bound on it on the side on which it falls outside.
pub proof fn lemma_pruned_sound(
    board: Board,
    player: Player,
    depth: nat,
    alpha: int,
    beta: int,
    maximizing: bool,
)
    requires
        alpha < beta,
    ensures
        within_window(
            pruned(board, player, depth, alpha, beta, maximizing),
            alpha,
            beta,
            minimax(board, player, depth, maximizing),
        ),
    decreases depth, stuck(board, mover(player, maximizing)), 0nat,
{
    let current = mover(player, maximizing);
    if depth == 0 {
    } else if can_move(board, current) {
        lemma_scan_sound(
            board,
            player,
            (depth - 1) as nat,
            alpha,
            beta,
            alpha,
            beta,
            maximizing,
            0,
            if maximizing {
                SCORE_LOSS as int
            } else {
                SCORE_WIN as int
            },
        );
    } else if can_move(board, current.other()) {
        lemma_pruned_sound(board, player, depth, alpha, beta, !maximizing);
    }
}

/// Going through the moves from place `k` on ends in a result that is sound
/// for the window with which the node was entered.
pub proof fn lemma_scan_sound(
    board: Board,
    player: Player,
    depth: nat,
    a0: int,
    b0: int,
    alpha: int,
    beta: int,
    maximizing: bool,
    k: nat,
    best: int,
)
    requires
        a0 < b0,
        window_state(
            seen_values(board, player, depth, maximizing),
            a0,
            b0,
            alpha,
            beta,
            maximizing,
            k,
            best,
        ),
    ensures
        within_window(
            scan(board, player, depth, alpha, beta, maximizing, k, best),
            a0,
            b0,
            best_child(
                board,
                player,
                depth,
                maximizing,
                legal_moves(board, mover(player, maximizing)).len(),
            ),
        ),
    decreases depth, 3nat, legal_moves(board, mover(player, maximizing)).len() - k,
{
    let current = mover(player, maximizing);
    let moves = legal_moves(board, current);
    let n = moves.len();
    let values = seen_values(board, player, depth, maximizing);
    let whole = best_child(board, player, depth, maximizing, n);
    lemma_seen_best(board, player, depth, maximizing);
    if k >= n {
        lemma_window_end(values, whole, a0, b0, alpha, beta, maximizing, best);
    } else {
        let i = node_order(board, player, maximizing)[k as int] as int;
        let next = board_after(board, current, moves[i].pos as int);
        lemma_pruned_sound(next, player, depth, alpha, beta, !maximizing);
        lemma_pruned_bounds(next, player, depth, alpha, beta, !maximizing);
        let v = pruned_child(board, player, depth, alpha, beta, maximizing, k as int);
        assert(values[k as int] == minimax(next, player, depth, !maximizing));
        lemma_window_step(values, whole, a0, b0, alpha, beta, maximizing, k, best, v);
        let better = improved(best, v, maximizing);
        if maximizing {
            let floor = if v > alpha {
                v
            } else {
                alpha
            };
            if beta > floor {
                lemma_scan_sound(board, player, depth, a0, b0, floor, beta, maximizing, k + 1, better);
            }
        } else {
            let ceiling = if v < beta {
                v
            } else {
                beta
            };
            if ceiling > alpha {
                lemma_scan_sound(
                    board,
                    player,
                    depth,
                    a0,
                    b0,
                    alpha,
                    ceiling,
                    maximizing,
                    k + 1,
                    better,
                );
            }
        }
    }
}

/// Pruning does not change the value: with the window from a loss to a win, or
/// a wider one, the search returns the value of the exhaustive search.
pub proof fn lemma_pruned_exact(
    board: Board,
    player: Player,
    depth: nat,
    alpha: int,
    beta: int,
    maximizing: bool,
)
    requires
        alpha <= SCORE_LOSS,
        SCORE_WIN <= beta,
    ensures
        pruned(board, player, depth, alpha, beta, maximizing) == minimax(
            board,
            player,
            depth,
            maximizing,
        ),
{
    lemma_pruned_sound(board, player, depth, alpha, beta, maximizing);
    lemma_pruned_bounds(board, player, depth, alpha, beta, maximizing);
    lemma_minimax_bounds(board, player, depth, maximizing);
}

/// The value of `board` for `player`, searched `depth` plies deep with the
/// window from `alpha` to `beta`. With the window from a loss to a win the
/// result is the value of the exhaustive search; with a narrower one it is that
/// value where it falls inside the window, and a bound on it elsewhere.
pub fn alphabeta(
    board: &Board,
    player: Player,
    depth: u8,
    alpha: Score,
    beta: Score,
    maximizing: bool,
) -> (r: Score)
    ensures
        r == pruned(*board, player, depth as nat, alpha as int, beta as int, maximizing),
        SCORE_LOSS <= r <= SCORE_WIN,
        alpha < beta ==> within_window(
            r as int,
            alpha as int,
            beta as int,
            minimax(*board, player, depth as nat, maximizing),
        ),
        alpha <= SCORE_LOSS && SCORE_WIN <= beta ==> r == minimax(
            *board,
            player,
            depth as nat,
            maximizing,
        ),
    decreases depth, stuck(*board, mover(player, maximizing)), 0nat,
{
    let ghost target = pruned(*board, player, depth as nat, alpha as int, beta as int, maximizing);
    proof {
        lemma_pruned_bounds(*board, player, depth as nat, alpha as int, beta as int, maximizing);
        if alpha < beta {
            lemma_pruned_sound(*board, player, depth as nat, alpha as int, beta as int, maximizing);
        }
        if alpha <= SCORE_LOSS && SCORE_WIN <= beta {
            lemma_pruned_exact(*board, player, depth as nat, alpha as int, beta as int, maximizing);
        }
    }
    if depth == 0 {
        return evaluate(board, player);
    }
    let current = if maximizing {
        player
    } else {
        player.opponent()
    };
    let moves = generate_moves(board, current);
    proof {
        lemma_legal_list(*board, current);
    }
    if moves.is_empty() {
        let opponent = current.opponent();
        if count_moves(board, opponent) == 0 {
            return evaluate(board, player);
        }
        return alphabeta(board, player, depth, alpha, beta, !maximizing);
    }
    let ordered = order_moves(board, current, &moves);
    let n = moves.len();
    let ghost d1 = (depth - 1) as nat;
    let mut best: Score = if maximizing {
        SCORE_LOSS
    } else {
        SCORE_WIN
    };
    let mut a: Score = alpha;
    let mut b: Score = beta;
    let mut k: usize = 0;
    let mut cut = false;
    while k < n && !cut
        invariant
            k <= n,
            n == moves@.len(),
            depth >= 1,
            d1 == depth - 1,
            current == mover(player, maximizing),
            moves@ == legal_moves(*board, current),
            ordered@ == ordering_of(*board, current, moves@),
            is_permutation(ordered@, n as int),
            forall|i: int|
                0 <= i < n ==> {
                    let m = #[trigger] moves@[i];
                    &&& m.pos < 64
                    &&& applied(*board, current, m.pos as int, m.flipped) == board_after(
                        *board,
                        current,
                        m.pos as int,
                    )
                },
            !cut ==> scan(*board, player, d1, a as int, b as int, maximizing, k as nat, best as int)
                == target,
            cut ==> best == target,
        decreases n - k, if cut { 0nat } else { 1nat },
    {
        let idx = ordered[k];
        let m = match moves.get(idx) {
            Some(m) => *m,
            None => Move::new(0, 0),
        };
        let new_board = apply_move(board, current, m.pos, m.flipped);
        let eval = alphabeta(&new_board, player, depth - 1, a, b, !maximizing);
        assert(eval == pruned_child(*board, player, d1, a as int, b as int, maximizing, k as int));
        if maximizing {
            if eval > best {
                best = eval;
            }
            if eval > a {
                a = eval;
            }
        } else {
            if eval < best {
                best = eval;
            }
            if eval < b {
                b = eval;
            }
        }
        if b <= a {
            cut = true;
        }
        k += 1;
    }
    best
}

/// How many squares of `board` are vacant.
pub open spec fn vacancies(board: Board) -> nat {
    popcount(!(board.black | board.white))
}

/// A legal move fills one vacant square.
pub proof fn lemma_vacancies_drop(board: Board, player: Player, pos: int)
    requires
        legal(board, player, pos),
    ensures
        vacancies(board_after(board, player, pos)) + 1 == vacancies(board),
{
    let after = board_after(board, player, pos);
    lemma_board_after(board, player, pos);
    let before_mask = !(board.black | board.white);
    let after_mask = !(after.black | after.white);
    lemma_ops(board.black, board.white);
    lemma_ops(board.black | board.white, 0);
    lemma_ops(after.black, after.white);
    lemma_ops(after.black | after.white, 0);
    assert forall|i: int| 0 <= i < 64 implies bit(before_mask, i) == (bit(after_mask, i) || i
        == pos) by {
        assert(bit(before_mask, i) == !bit(board.black | board.white, i));
        assert(bit(before_mask, i) == board.vacant(i));
        assert(bit(after_mask, i) == !bit(after.black | after.white, i));
        assert(bit(after_mask, i) == after.vacant(i));
        assert(after.vacant(i) == (board.vacant(i) && i != pos));
        assert(board.vacant(pos)) by {
            crate::moves::lemma_flips(board, player, pos);
        }
    }
    assert(!bit(after_mask, pos)) by {
        assert(bit(after_mask, pos) == after.vacant(pos));
    }
    assert(board.vacant(pos)) by {
        crate::moves::lemma_flips(board, player, pos);
    }
    lemma_count_gain(after_mask, before_mask, pos, 64);
}

/// The value of a finished game for `player`: a win, less the discs of the
/// loser; a loss, plus the own discs; nothing for a draw.
pub open spec fn final_value(board: Board, player: Player) -> int {
    let own = popcount(board.discs(player));
    let opp = popcount(board.discs(player.other()));
    if own > opp {
        SCORE_WIN - opp
    } else if opp > own {
        SCORE_LOSS + own
    } else {
        0
    }
}

/// The value of `board` for `player` with best play by both to the end of the
/// game.
pub open spec fn exact(board: Board, player: Player, maximizing: bool) -> int
    decreases vacancies(board), 2 + stuck(board, mover(player, maximizing)), 0nat,
{
    let current = mover(player, maximizing);
    if can_move(board, current) {
        best_exact(board, player, maximizing, legal_moves(board, current).len())
    } else if can_move(board, current.other()) {
        exact(board, player, !maximizing)
    } else {
        final_value(board, player)
    }
}

/// The exact value of the position after the `i`-th legal move of the player
/// to move.
pub open spec fn exact_child(board: Board, player: Player, maximizing: bool, i: int) -> int
    decreases vacancies(board), 0nat, 0nat,
{
    let current = mover(player, maximizing);
    if 0 <= i < legal_moves(board, current).len() {
        proof {
            lemma_legal_list(board, current);
            lemma_vacancies_drop(board, current, legal_moves(board, current)[i].pos as int);
        }
        exact(
            board_after(board, current, legal_moves(board, current)[i].pos as int),
            player,
            !maximizing,
        )
    } else {
        0
    }
}

/// The best of the exact values of the first `n` legal moves of the player to
/// move: the highest at a maximizing node, starting from a loss; the lowest at
/// a minimizing node, starting from a win.
pub open spec fn best_exact(board: Board, player: Player, maximizing: bool, n: nat) -> int
    decreases vacancies(board), 1nat, n,
{
    if n == 0 {
        if maximizing {
            SCORE_LOSS as int
        } else {
            SCORE_WIN as int
        }
    } else {
        let rest = best_exact(board, player, maximizing, (n - 1) as nat);
        let value = exact_child(board, player, maximizing, n - 1);
        if maximizing {
            if value > rest {
                value
            } else {
                rest
            }
        } else {
            if value < rest {
                value
            } else {
                rest
            }
        }
    }
}

/// The exact value of the move that stands at place `i` of `order`.
pub open spec fn exact_seen(
    board: Board,
    player: Player,
    maximizing: bool,
    order: Seq<usize>,
    i: int,
) -> int {
    exact_child(board, player, maximizing, order[i] as int)
}

/// The best exact value bounds every move's value, and is the start value or
/// the value of one of the moves.
pub proof fn lemma_best_exact(board: Board, player: Player, maximizing: bool, n: nat)
    ensures
        maximizing ==> {
            let best = best_exact(board, player, maximizing, n);
            &&& best >= SCORE_LOSS
            &&& forall|i: int|
                0 <= i < n ==> #[trigger] exact_child(board, player, maximizing, i) <= best
            &&& best == SCORE_LOSS || exists|i: int|
                0 <= i < n && #[trigger] exact_child(board, player, maximizing, i) == best
        },
        !maximizing ==> {
            let best = best_exact(board, player, maximizing, n);
            &&& best <= SCORE_WIN
            &&& forall|i: int|
                0 <= i < n ==> #[trigger] exact_child(board, player, maximizing, i) >= best
            &&& best == SCORE_WIN || exists|i: int|
                0 <= i < n && #[trigger] exact_child(board, player, maximizing, i) == best
        },
    decreases n,
{
    if n > 0 {
        lemma_best_exact(board, player, maximizing, (n - 1) as nat);
        let rest = best_exact(board, player, maximizing, (n - 1) as nat);
        let best = best_exact(board, player, maximizing, n);
        if best != rest {
            assert(exact_child(board, player, maximizing, n - 1) == best);
        } else if maximizing && rest != SCORE_LOSS {
            let i = choose|i: int|
                0 <= i < n - 1 && #[trigger] exact_child(board, player, maximizing, i) == rest;
            assert(exact_child(board, player, maximizing, i) == best);
        } else if !maximizing && rest != SCORE_WIN {
            let i = choose|i: int|
                0 <= i < n - 1 && #[trigger] exact_child(board, player, maximizing, i) == rest;
            assert(exact_child(board, player, maximizing, i) == best);
        }
    }
}

/// Every exact value lies between a loss and a win.
pub proof fn lemma_exact_bounds(board: Board, player: Player, maximizing: bool)
    ensures
        SCORE_LOSS <= exact(board, player, maximizing) <= SCORE_WIN,
    decreases vacancies(board), 2 + stuck(board, mover(player, maximizing)), 0nat,
{
    let current = mover(player, maximizing);
    if can_move(board, current) {
        lemma_best_exact_bounds(board, player, maximizing, legal_moves(board, current).len());
    } else if can_move(board, current.other()) {
        lemma_exact_bounds(board, player, !maximizing);
    } else {
        lemma_popcount_zero(board.discs(player));
        lemma_popcount_zero(board.discs(player.other()));
    }
}

/// The best exact value of the first `n` moves lies between a loss and a win.
pub proof fn lemma_best_exact_bounds(board: Board, player: Player, maximizing: bool, n: nat)
    requires
        n <= legal_moves(board, mover(player, maximizing)).len(),
    ensures
        SCORE_LOSS <= best_exact(board, player, maximizing, n) <= SCORE_WIN,
    decreases vacancies(board), 1nat, n,
{
    if n > 0 {
        lemma_best_exact_bounds(board, player, maximizing, (n - 1) as nat);
        let current = mover(player, maximizing);
        let pos = legal_moves(board, current)[n - 1].pos as int;
        lemma_legal_list(board, current);
        lemma_vacancies_drop(board, current, pos);
        lemma_exact_bounds(board_after(board, current, pos), player, !maximizing);
        assert(exact_child(board, player, maximizing, n - 1) == exact(
            board_after(board, current, pos),
            player,
            !maximizing,
        ));
    }
}

/// What the solver with the window from `alpha` to `beta` returns: the value of
/// the finished game where neither player can move; the result for the other
/// player where the player to move must pass; else the result of going through
/// the moves in their search order.
pub open spec fn solved(board: Board, player: Player, alpha: int, beta: int, maximizing: bool) -> int
    decreases vacancies(board), 2 + stuck(board, mover(player, maximizing)), 0nat,
{
    let current = mover(player, maximizing);
    if can_move(board, current) {
        solve_scan(
            board,
            player,
            alpha,
            beta,
            maximizing,
            0,
            if maximizing {
                SCORE_LOSS as int
            } else {
                SCORE_WIN as int
            },
        )
    } else if can_move(board, current.other()) {
        solved(board, player, alpha, beta, !maximizing)
    } else {
        final_value(board, player)
    }
}

/// What the solver returns for the position after the move at place `k` of the
/// search order.
pub open spec fn solved_child(
    board: Board,
    player: Player,
    alpha: int,
    beta: int,
    maximizing: bool,
    k: int,
) -> int
    decreases vacancies(board), 0nat, 0nat,
{
    let current = mover(player, maximizing);
    let moves = legal_moves(board, current);
    let i = ordering_of(board, current, moves)[k] as int;
    if 0 <= k < moves.len() && 0 <= i < moves.len() {
        proof {
            lemma_legal_list(board, current);
            lemma_vacancies_drop(board, current, moves[i].pos as int);
        }
        solved(board_after(board, current, moves[i].pos as int), player, alpha, beta, !maximizing)
    } else {
        0
    }
}

/// What going through the moves from place `k` of the search order on returns,
/// with `best` the best result so far; the rule is that of the search to a
/// depth.
pub open spec fn solve_scan(
    board: Board,
    player: Player,
    alpha: int,
    beta: int,
    maximizing: bool,
    k: nat,
    best: int,
) -> int
    decreases vacancies(board), 1nat, legal_moves(board, mover(player, maximizing)).len() - k,
{
    let n = legal_moves(board, mover(player, maximizing)).len();
    if k >= n {
        best
    } else {
        let v = solved_child(board, player, alpha, beta, maximizing, k as int);
        if maximizing {
            let raised = if v > best {
                v
            } else {
                best
            };
            let floor = if v > alpha {
                v
            } else {
                alpha
            };
            if beta <= floor {
                raised
            } else {
                solve_scan(board, player, floor, beta, maximizing, k + 1, raised)
            }
        } else {
            let lowered = if v < best {
                v
            } else {
                best
            };
            let ceiling = if v < beta {
                v
            } else {
                beta
            };
            if ceiling <= alpha {
                lowered
            } else {
                solve_scan(board, player, alpha, ceiling, maximizing, k + 1, lowered)
            }
        }
    }
}

/// The exact values of the moves of a node, in their search order.
pub open spec fn exact_values(board: Board, player: Player, maximizing: bool) -> Seq<int> {
    Seq::new(
        legal_moves(board, mover(player, maximizing)).len(),
        |i: int| exact_seen(board, player, maximizing, node_order(board, player, maximizing), i),
    )
}

/// The exact value of a node is the best of the exact values of its moves, in
/// whatever order they are taken.
pub proof fn lemma_exact_best(board: Board, player: Player, maximizing: bool)
    ensures
        is_best(
            exact_values(board, player, maximizing),
            best_exact(
                board,
                player,
                maximizing,
                legal_moves(board, mover(player, maximizing)).len(),
            ),
            maximizing,
        ),
{
    let current = mover(player, maximizing);
    let moves = legal_moves(board, current);
    let n = moves.len();
    let order = node_order(board, player, maximizing);
    let values = exact_values(board, player, maximizing);
    let whole = best_exact(board, player, maximizing, n);
    lemma_legal_list(board, current);
    lemma_ordering_of(board, current, moves);
    lemma_best_exact(board, player, maximizing, n);
    assert forall|i: int| 0 <= i < n implies (maximizing ==> #[trigger] values[i] <= whole) && (
    !maximizing ==> values[i] >= whole) by {
        assert(values[i] == exact_child(board, player, maximizing, order[i] as int));
    }
    if maximizing && whole != SCORE_LOSS || !maximizing && whole != SCORE_WIN {
        let j = choose|j: int|
            0 <= j < n && #[trigger] exact_child(board, player, maximizing, j) == whole;
        assert(occurs(order, n as int, j));
        let i = choose|i: int| 0 <= i < n && #[trigger] order[i] == j;
        assert(values[i] == whole);
    }
}

/// Every result of the solver lies between a loss and a win, whatever the
/// window.
pub proof fn lemma_solved_bounds(
    board: Board,
    player: Player,
    alpha: int,
    beta: int,
    maximizing: bool,
)
    ensures
        SCORE_LOSS <= solved(board, player, alpha, beta, maximizing) <= SCORE_WIN,
    decreases vacancies(board), 2 + stuck(board, mover(player, maximizing)), 0nat,
{
    let current = mover(player, maximizing);
    if can_move(board, current) {
        lemma_solve_scan_bounds(
            board,
            player,
            alpha,
            beta,
            maximizing,
            0,
            if maximizing {
                SCORE_LOSS as int
            } else {
                SCORE_WIN as int
            },
        );
    } else if can_move(board, current.other()) {
        lemma_solved_bounds(board, player, alpha, beta, !maximizing);
    } else {
        lemma_popcount_zero(board.discs(player));
        lemma_popcount_zero(board.discs(player.other()));
    }
}

/// Going through the moves keeps the result of the solver between a loss and a
/// win.
pub proof fn lemma_solve_scan_bounds(
    board: Board,
    player: Player,
    alpha: int,
    beta: int,
    maximizing: bool,
    k: nat,
    best: int,
)
    requires
        SCORE_LOSS <= best <= SCORE_WIN,
    ensures
        SCORE_LOSS <= solve_scan(board, player, alpha, beta, maximizing, k, best) <= SCORE_WIN,
    decreases vacancies(board), 1nat, legal_moves(board, mover(player, maximizing)).len() - k,
{
    let current = mover(player, maximizing);
    let moves = legal_moves(board, current);
    if k < moves.len() {
        let i = ordering_of(board, current, moves)[k as int] as int;
        if 0 <= i < moves.len() {
            lemma_legal_list(board, current);
            lemma_vacancies_drop(board, current, moves[i].pos as int);
            lemma_solved_bounds(
                board_after(board, current, moves[i].pos as int),
                player,
                alpha,
                beta,
                !maximizing,
            );
        }
        let v = solved_child(board, player, alpha, beta, maximizing, k as int);
        if maximizing {
            let raised = if v > best {
                v
            } else {
                best
            };
            let floor = if v > alpha {
                v
            } else {
                alpha
            };
            if beta > floor {
                lemma_solve_scan_bounds(board, player, floor, beta, maximizing, k + 1, raised);
            }
        } else {
            let lowered = if v < best {
                v
            } else {
                best
            };
            let ceiling = if v < beta {
                v
            } else {
                beta
            };
            if ceiling > alpha {
                lemma_solve_scan_bounds(board, player, alpha, ceiling, maximizing, k + 1, lowered);
            }
        }
    }
}

/// The solver is sound: with a window that is not empty, its result is the
/// exact value where it falls inside the window, and a bound on it on the side
/// on which it falls outside.
pub proof fn lemma_solved_sound(
    board: Board,
    player: Player,
    alpha: int,
    beta: int,
    maximizing: bool,
)
    requires
        alpha < beta,
    ensures
        within_window(
            solved(board, player, alpha, beta, maximizing),
            alpha,
            beta,
            exact(board, player, maximizing),
        ),
    decreases vacancies(board), 2 + stuck(board, mover(player, maximizing)), 0nat,
{
    let current = mover(player, maximizing);
    if can_move(board, current) {
        lemma_solve_scan_sound(
            board,
            player,
            alpha,
            beta,
            alpha,
            beta,
            maximizing,
            0,
            if maximizing {
                SCORE_LOSS as int
            } else {
                SCORE_WIN as int
            },
        );
    } else if can_move(board, current.other()) {
        lemma_solved_sound(board, player, alpha, beta, !maximizing);
    }
}

/// Going through the moves from place `k` on ends in a result that is sound
/// for the window with which the node was entered.
pub proof fn lemma_solve_scan_sound(
    board: Board,
    player: Player,
    a0: int,
    b0: int,
    alpha: int,
    beta: int,
    maximizing: bool,
    k: nat,
    best: int,
)
    requires
        a0 < b0,
        window_state(
            exact_values(board, player, maximizing),
            a0,
            b0,
            alpha,
            beta,
            maximizing,
            k,
            best,
        ),
    ensures
        within_window(
            solve_scan(board, player, alpha, beta, maximizing, k, best),
            a0,
            b0,
            best_exact(
                board,
                player,
                maximizing,
                legal_moves(board, mover(player, maximizing)).len(),
            ),
        ),
    decreases vacancies(board), 1nat, legal_moves(board, mover(player, maximizing)).len() - k,
{
    let current = mover(player, maximizing);
    let moves = legal_moves(board, current);
    let n = moves.len();
    let values = exact_values(board, player, maximizing);
    let whole = best_exact(board, player, maximizing, n);
    lemma_exact_best(board, player, maximizing);
    if k >= n {
        lemma_window_end(values, whole, a0, b0, alpha, beta, maximizing, best);
    } else {
        lemma_legal_list(board, current);
        lemma_ordering_of(board, current, moves);
        let i = node_order(board, player, maximizing)[k as int] as int;
        let next = board_after(board, current, moves[i].pos as int);
        lemma_vacancies_drop(board, current, moves[i].pos as int);
        lemma_solved_sound(next, player, alpha, beta, !maximizing);
        lemma_solved_bounds(next, player, alpha, beta, !maximizing);
        let v = solved_child(board, player, alpha, beta, maximizing, k as int);
        assert(values[k as int] == exact(next, player, !maximizing));
        lemma_window_step(values, whole, a0, b0, alpha, beta, maximizing, k, best, v);
        let better = improved(best, v, maximizing);
        if maximizing {
            let floor = if v > alpha {
                v
            } else {
                alpha
            };
            if beta > floor {
                lemma_solve_scan_sound(board, player, a0, b0, floor, beta, maximizing, k + 1, better);
            }
        } else {
            let ceiling = if v < beta {
                v
            } else {
                beta
            };
            if ceiling > alpha {
                lemma_solve_scan_sound(
                    board,
                    player,
                    a0,
                    b0,
                    alpha,
                    ceiling,
                    maximizing,
                    k + 1,
                    better,
                );
            }
        }
    }
}

/// The solver is exact: with the window from a loss to a win, or a wider one,
/// it returns the value of the game with best play by both to the end.
pub proof fn lemma_solved_exact(
    board: Board,
    player: Player,
    alpha: int,
    beta: int,
    maximizing: bool,
)
    requires
        alpha <= SCORE_LOSS,
        SCORE_WIN <= beta,
    ensures
        solved(board, player, alpha, beta, maximizing) == exact(board, player, maximizing),
{
    lemma_solved_sound(board, player, alpha, beta, maximizing);
    lemma_solved_bounds(board, player, alpha, beta, maximizing);
    lemma_exact_bounds(board, player, maximizing);
}

/// The value of `board` for `player` with best play by both to the end of the
/// game, searched with the window from `alpha` to `beta`. With the window from
/// a loss to a win the result is the exact value; with a narrower one it is that
/// value where it falls inside the window, and a bound on it elsewhere.
pub fn solve_endgame(
    board: &Board,
    player: Player,
    alpha: Score,
    beta: Score,
    maximizing: bool,
) -> (r: Score)
    ensures
        r == solved(*board, player, alpha as int, beta as int, maximizing),
        SCORE_LOSS <= r <= SCORE_WIN,
        alpha < beta ==> within_window(
            r as int,
            alpha as int,
            beta as int,
            exact(*board, player, maximizing),
        ),
        alpha <= SCORE_LOSS && SCORE_WIN <= beta ==> r == exact(*board, player, maximizing),
    decreases vacancies(*board), 2 + stuck(*board, mover(player, maximizing)), 0nat,
{
    let ghost target = solved(*board, player, alpha as int, beta as int, maximizing);
    proof {
        lemma_solved_bounds(*board, player, alpha as int, beta as int, maximizing);
        if alpha < beta {
            lemma_solved_sound(*board, player, alpha as int, beta as int, maximizing);
        }
        if alpha <= SCORE_LOSS && SCORE_WIN <= beta {
            lemma_solved_exact(*board, player, alpha as int, beta as int, maximizing);
        }
    }
    let current = if maximizing {
        player
    } else {
        player.opponent()
    };
    let moves = generate_moves(board, current);
    proof {
        lemma_legal_list(*board, current);
    }
    if moves.is_empty() {
        let opponent = current.opponent();
        if count_moves(board, opponent) == 0 {
            let own = board.count(player) as Score;
            let opp = board.count(player.opponent()) as Score;
            return if own > opp {
                SCORE_WIN - opp
            } else if opp > own {
                SCORE_LOSS + own
            } else {
                0
            };
        }
        return solve_endgame(board, player, alpha, beta, !maximizing);
    }
    let ordered = order_moves(board, current, &moves);
    let n = moves.len();
    let mut best: Score = if maximizing {
        SCORE_LOSS
    } else {
        SCORE_WIN
    };
    let mut a: Score = alpha;
    let mut b: Score = beta;
    let mut k: usize = 0;
    let mut cut = false;
    while k < n && !cut
        invariant
            k <= n,
            n == moves@.len(),
            current == mover(player, maximizing),
            moves@ == legal_moves(*board, current),
            ordered@ == ordering_of(*board, current, moves@),
            is_permutation(ordered@, n as int),
            forall|i: int|
                0 <= i < n ==> {
                    let m = #[trigger] moves@[i];
                    &&& m.pos < 64
                    &&& legal(*board, current, m.pos as int)
                    &&& applied(*board, current, m.pos as int, m.flipped) == board_after(
                        *board,
                        current,
                        m.pos as int,
                    )
                },
            !cut ==> solve_scan(*board, player, a as int, b as int, maximizing, k as nat, best as int)
                == target,
            cut ==> best == target,
        decreases n - k, if cut { 0nat } else { 1nat },
    {
        let idx = ordered[k];
        let m = match moves.get(idx) {
            Some(m) => *m,
            None => Move::new(0, 0),
        };
        let new_board = apply_move(board, current, m.pos, m.flipped);
        proof {
            lemma_vacancies_drop(*board, current, m.pos as int);
        }
        let eval = solve_endgame(&new_board, player, a, b, !maximizing);
        assert(eval == solved_child(*board, player, a as int, b as int, maximizing, k as int));
        if maximizing {
            if eval > best {
                best = eval;
            }
            if eval > a {
                a = eval;
            }
        } else {
            if eval < best {
                best = eval;
            }
            if eval < b {
                b = eval;
            }
        }
        if b <= a {
            cut = true;
        }
        k += 1;
    }
    best
}

/// Whether a move on `board` is found by the exact solver at this strength.
pub open spec fn uses_solver(board: Board, difficulty: Difficulty) -> bool {
    difficulty.solves_endgame() && vacancies(board) <= difficulty.solver_threshold()
}

/// The value for `player` of their `i`-th legal move: exact where the solver
/// is used, else searched to the depth of the strength.
pub open spec fn root_value(board: Board, player: Player, difficulty: Difficulty, i: int) -> int {
    if uses_solver(board, difficulty) {
        exact_child(board, player, true, i)
    } else {
        child_value(board, player, (difficulty.plies() - 1) as nat, true, i)
    }
}

/// The `i`-th legal move is a best one: no move has a higher value, and among
/// the moves of that value none stands higher in the ordering.
pub open spec fn is_best_root(board: Board, player: Player, difficulty: Difficulty, i: int) -> bool {
    let moves = legal_moves(board, player);
    &&& 0 <= i < moves.len()
    &&& forall|j: int|
        0 <= j < moves.len() ==> {
            &&& #[trigger] root_value(board, player, difficulty, j) <= root_value(
                board,
                player,
                difficulty,
                i,
            )
            &&& root_value(board, player, difficulty, j) == root_value(board, player, difficulty, i)
                ==> order_score(board, player, moves[j]) <= order_score(board, player, moves[i])
        }
}

/// The move at place `g` of the search order is the first of the highest
/// value: no move has a higher value, and every move before it has a lower one.
pub open spec fn first_best(board: Board, player: Player, difficulty: Difficulty, g: int) -> bool {
    let moves = legal_moves(board, player);
    let order = ordering_of(board, player, moves);
    &&& 0 <= g < moves.len()
    &&& forall|i: int|
        0 <= i < moves.len() ==> root_value(board, player, difficulty, #[trigger] order[i] as int)
            <= root_value(board, player, difficulty, order[g] as int)
    &&& forall|i: int|
        0 <= i < g ==> root_value(board, player, difficulty, #[trigger] order[i] as int)
            < root_value(board, player, difficulty, order[g] as int)
}

/// What `find_best_move` returns: nothing where `player` has no legal move;
/// the only move where there is one; else the move of the book, where the
/// strength reads it and it knows the position; else the first move of the
/// highest value in the search order.
pub open spec fn is_choice(
    board: Board,
    player: Player,
    difficulty: Difficulty,
    r: Option<Position>,
) -> bool {
    let moves = legal_moves(board, player);
    if moves.len() == 0 {
        r is None
    } else if moves.len() == 1 {
        r == Some(moves[0].pos)
    } else if difficulty.reads_book() && book_move(board) is Some {
        r == book_move(board)
    } else {
        exists|g: int| #[trigger]
            first_best(board, player, difficulty, g) && r == Some(
                moves[ordering_of(board, player, moves)[g] as int].pos,
            )
    }
}

/// The first move of the highest value in the search order is a best move: no
/// move has a higher value, and among the moves of that value none has a higher
/// rank.
pub proof fn lemma_first_best(board: Board, player: Player, difficulty: Difficulty, g: int)
    requires
        first_best(board, player, difficulty, g),
    ensures
        is_best_root(
            board,
            player,
            difficulty,
            ordering_of(board, player, legal_moves(board, player))[g] as int,
        ),
{
    let moves = legal_moves(board, player);
    let order = ordering_of(board, player, moves);
    let n = moves.len() as int;
    let top = order[g] as int;
    lemma_legal_list(board, player);
    lemma_ordering_of(board, player, moves);
    assert forall|j: int| 0 <= j < n implies {
        &&& #[trigger] root_value(board, player, difficulty, j) <= root_value(
            board,
            player,
            difficulty,
            top,
        )
        &&& root_value(board, player, difficulty, j) == root_value(board, player, difficulty, top)
            ==> order_score(board, player, moves[j]) <= order_score(board, player, moves[top])
    } by {
        assert(occurs(order, n, j));
        let i = choose|i: int| 0 <= i < n && #[trigger] order[i] == j;
        assert(root_value(board, player, difficulty, order[i] as int) <= root_value(
            board,
            player,
            difficulty,
            top,
        ));
        if root_value(board, player, difficulty, j) == root_value(board, player, difficulty, top) {
            if i > g {
                assert(order_score(board, player, moves[order[g] as int]) >= order_score(
                    board,
                    player,
                    moves[order[i] as int],
                ));
            }
        }
    }
}

/// The best move of `player` by exact search of every move of the list.
fn find_best_move_endgame(
    board: &Board,
    player: Player,
    moves: &MoveList,
    Ghost(difficulty): Ghost<Difficulty>,
) -> (r: Option<Position>)
    requires
        moves@ == legal_moves(*board, player),
        moves@.len() > 0,
        uses_solver(*board, difficulty),
    ensures
        exists|g: int| #[trigger]
            first_best(*board, player, difficulty, g) && r == Some(
                moves@[ordering_of(*board, player, moves@)[g] as int].pos,
            ),
{
    proof {
        lemma_legal_list(*board, player);
    }
    let ordered = order_moves(board, player, moves);
    let n = moves.len();
    let mut best_pos = match moves.get(ordered[0]) {
        Some(m) => m.pos,
        None => 0,
    };
    let mut best_score: Score = SCORE_LOSS;
    let ghost mut g: int = 0;
    let mut k: usize = 0;
    while k < n
        invariant
            k <= n,
            n == moves@.len(),
            1 <= n <= 32,
            moves@ == legal_moves(*board, player),
            uses_solver(*board, difficulty),
            is_ordering(ordered@, *board, player, moves@),
            ordered@ == ordering_of(*board, player, moves@),
            forall|i: int|
                0 <= i < n ==> {
                    let m = #[trigger] moves@[i];
                    &&& m.pos < 64
                    &&& legal(*board, player, m.pos as int)
                    &&& applied(*board, player, m.pos as int, m.flipped) == board_after(
                        *board,
                        player,
                        m.pos as int,
                    )
                },
            0 <= g < n,
            k == 0 ==> g == 0 && best_score == SCORE_LOSS,
            k >= 1 ==> g < k && best_score == root_value(
                *board,
                player,
                difficulty,
                ordered@[g] as int,
            ),
            best_pos == moves@[ordered@[g] as int].pos,
            forall|i: int|
                0 <= i < k ==> root_value(*board, player, difficulty, #[trigger] ordered@[i] as int)
                    <= best_score,
            forall|i: int|
                0 <= i < g ==> root_value(*board, player, difficulty, #[trigger] ordered@[i] as int)
                    < best_score,
        decreases n - k,
    {
        let idx = ordered[k];
        let m = match moves.get(idx) {
            Some(m) => *m,
            None => Move::new(0, 0),
        };
        let new_board = apply_move(board, player, m.pos, m.flipped);
        let score = solve_endgame(&new_board, player, SCORE_LOSS, SCORE_WIN, false);
        assert(score == root_value(*board, player, difficulty, idx as int));
        if score > best_score {
            best_score = score;
            best_pos = m.pos;
            proof {
                g = k as int;
            }
        }
        k += 1;
    }
    proof {
        assert(first_best(*board, player, difficulty, g));
    }
    Some(best_pos)
}

/// The move that the computer plays for `player` on `board`.
pub fn find_best_move(board: &Board, player: Player, difficulty: Difficulty) -> (r: Option<Position>)
    ensures
        is_choice(*board, player, difficulty, r),
        r is None <==> !can_move(*board, player),
{
    let moves = generate_moves(board, player);
    proof {
        lemma_legal_list(*board, player);
    }
    if moves.is_empty() {
        return None;
    }
    if moves.len() == 1 {
        return match moves.get(0) {
            Some(m) => Some(m.pos),
            None => None,
        };
    }
    if difficulty.use_opening_book() {
        match OpeningBook::lookup(board) {
            Some(book_pos) => {
                return Some(book_pos);
            },
            None => {},
        }
    }
    let empty = board.empty_count();
    if difficulty.use_endgame_solver() && empty <= difficulty.endgame_threshold() {
        return find_best_move_endgame(board, player, &moves, Ghost(difficulty));
    }
    let depth = difficulty.depth();
    let ordered = order_moves(board, player, &moves);
    let n = moves.len();
    let mut best_pos = match moves.get(ordered[0]) {
        Some(m) => m.pos,
        None => 0,
    };
    let mut best_score: Score = SCORE_LOSS;
    let ghost mut g: int = 0;
    let mut k: usize = 0;
    while k < n
        invariant
            k <= n,
            n == moves@.len(),
            2 <= n <= 32,
            depth == difficulty.plies(),
            depth >= 2,
            moves@ == legal_moves(*board, player),
            !uses_solver(*board, difficulty),
            is_ordering(ordered@, *board, player, moves@),
            ordered@ == ordering_of(*board, player, moves@),
            forall|i: int|
                0 <= i < n ==> {
                    let m = #[trigger] moves@[i];
                    &&& m.pos < 64
                    &&& applied(*board, player, m.pos as int, m.flipped) == board_after(
                        *board,
                        player,
                        m.pos as int,
                    )
                },
            0 <= g < n,
            k == 0 ==> g == 0 && best_score == SCORE_LOSS,
            k >= 1 ==> g < k && best_score == root_value(
                *board,
                player,
                difficulty,
                ordered@[g] as int,
            ),
            best_pos == moves@[ordered@[g] as int].pos,
            forall|i: int|
                0 <= i < k ==> root_value(*board, player, difficulty, #[trigger] ordered@[i] as int)
                    <= best_score,
            forall|i: int|
                0 <= i < g ==> root_value(*board, player, difficulty, #[trigger] ordered@[i] as int)
                    < best_score,
        decreases n - k,
    {
        let idx = ordered[k];
        let m = match moves.get(idx) {
            Some(m) => *m,
            None => Move::new(0, 0),
        };
        let new_board = apply_move(board, player, m.pos, m.flipped);
        let score = alphabeta(
            &new_board,
            player,
            depth - 1,
            SCORE_LOSS,
            SCORE_WIN,
            false,
        );
        assert(score == root_value(*board, player, difficulty, idx as int));
        if score > best_score {
            best_score = score;
            best_pos = m.pos;
            proof {
                g = k as int;
            }
        }
        k += 1;
    }
    proof {
        assert(first_best(*board, player, difficulty, g));
    }
    Some(best_pos)
}

/// A legal move picked by the hash of the position: the same move for the same
/// board.
pub fn random_move(board: &Board, player: Player) -> (r: Option<Position>)
    ensures
        r == (if can_move(*board, player) {
            let moves = legal_moves(*board, player);
            Some(moves[((board.hash_of() as usize) % (moves.len() as usize)) as int].pos)
        } else {
            None
        }),
{
    let moves = generate_moves(board, player);
    proof {
        lemma_legal_list(*board, player);
    }
    if moves.is_empty() {
        return None;
    }
    let idx = (board.hash() as usize) % moves.len();
    match moves.get(idx) {
        Some(m) => Some(m.pos),
        None => None,
    }
}

/// The move that the computer would play at the strength `Hard`.
pub fn get_hint(board: &Board, player: Player) -> (r: Option<Position>)
    ensures
        is_choice(*board, player, Difficulty::Hard, r),
        r is None <==> !can_move(*board, player),
{
    find_best_move(board, player, Difficulty::Hard)
}

/// The search order has one first move of the highest value.
pub proof fn lemma_first_best_unique(
    board: Board,
    player: Player,
    difficulty: Difficulty,
    g: int,
    h: int,
)
    requires
        first_best(board, player, difficulty, g),
        first_best(board, player, difficulty, h),
    ensures
        g == h,
{
    let order = ordering_of(board, player, legal_moves(board, player));
    if g < h {
        assert(root_value(board, player, difficulty, order[g] as int) < root_value(
            board,
            player,
            difficulty,
            order[h] as int,
        ));
        assert(root_value(board, player, difficulty, order[h] as int) <= root_value(
            board,
            player,
            difficulty,
            order[g] as int,
        ));
    } else if h < g {
        assert(root_value(board, player, difficulty, order[h] as int) < root_value(
            board,
            player,
            difficulty,
            order[g] as int,
        ));
        assert(root_value(board, player, difficulty, order[g] as int) <= root_value(
            board,
            player,
            difficulty,
            order[h] as int,
        ));
    }
}

/// A move that is found by search, not taken from the book, is legal.
pub proof fn lemma_choice_legal(
    board: Board,
    player: Player,
    difficulty: Difficulty,
    r: Option<Position>,
)
    requires
        is_choice(board, player, difficulty, r),
        !(difficulty.reads_book() && book_move(board) is Some) || legal_moves(board, player).len()
            < 2,
    ensures
        r matches Some(p) ==> legal(board, player, p as int),
        r is None <==> !can_move(board, player),
{
    let moves = legal_moves(board, player);
    lemma_legal_list(board, player);
    lemma_ordering_of(board, player, moves);
    if moves.len() >= 2 {
        let order = ordering_of(board, player, moves);
        let g = choose|g: int| #[trigger]
            first_best(board, player, difficulty, g) && r == Some(moves[order[g] as int].pos);
        assert(0 <= order[g] < moves.len());
    }
}

} // verus!
