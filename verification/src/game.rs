//! A game in progress: the board, the player to move, and every ply so far.

use vstd::prelude::*;
use crate::bits::{bit, popcount, lemma_ops, lemma_single, lemma_ext, lemma_consts};
use crate::board::{Board, Player, lemma_disjoint};
use crate::moves::{Move, MoveList, flips, legal, can_move, legal_moves, legal_mask, move_at, calculate_flips, count_moves, generate_moves, lemma_flips, lemma_captures_on_board};
use crate::Position;

verus! {

/// Most plies that a game records.
pub const MAX_MOVES: usize = 64;

/// What stands in an entry's `pos` when the ply was a pass.
pub const PASS: u8 = 255;

/// How a finished game ended.
#[derive(Debug, Clone, Copy, PartialEq, Eq, Structural)]
pub enum GameResult {
    /// The winner, then the discs of black and of white.
    Win(Player, u32, u32),
    /// Both players have this many discs.
    Draw(u32),
}

impl GameResult {
    /// The winner, if there is one.
    pub fn winner(&self) -> (r: Option<Player>)
        ensures
            r == (match *self {
                GameResult::Win(p, _, _) => Some(p),
                GameResult::Draw(_) => None,
            }),
    {
        match self {
            GameResult::Win(player, _, _) => Some(*player),
            GameResult::Draw(_) => None,
        }
    }

    /// The discs of black and of white.
    pub fn counts(&self) -> (r: (u32, u32))
        ensures
            r == (match *self {
                GameResult::Win(_, b, w) => (b, w),
                GameResult::Draw(c) => (c, c),
            }),
    {
        match self {
            GameResult::Win(_, b, w) => (*b, *w),
            GameResult::Draw(c) => (*c, *c),
        }
    }
}

/// One ply of a game.
#[derive(Debug, Clone, Copy)]
pub struct HistoryEntry {
    /// The square that was played, or 255 for a pass.
    pub pos: u8,
    /// The discs that were turned.
    pub flipped: u64,
    /// Who made the ply.
    pub player: Player,
}

impl HistoryEntry {
    /// Whether the ply was a pass.
    pub fn is_pass(&self) -> (r: bool)
        ensures
            r == (self.pos == PASS),
    {
        self.pos == PASS
    }
}

/// What a game is: its board, the player to move, the plies so far and the
/// number of passes in a row.
pub ghost struct GameModel {
    pub board: Board,
    pub current: Player,
    pub history: Seq<HistoryEntry>,
    pub passes: int,
}

/// The board after `player` has put a disc on `pos` and turned what it captures.
pub open spec fn board_after(board: Board, player: Player, pos: int) -> Board {
    board.placed(player, pos).flipped(player.other(), flips(board, player, pos))
}

/// `h`, with `e` added where fewer than 64 plies are recorded.
pub open spec fn recorded(h: Seq<HistoryEntry>, e: HistoryEntry) -> Seq<HistoryEntry> {
    if h.len() < MAX_MOVES {
        h.push(e)
    } else {
        h
    }
}

impl GameModel {
    /// A new game: the opening position, black to move.
    pub open spec fn initial() -> GameModel {
        GameModel { board: Board::start(), current: Player::Black, history: Seq::empty(), passes: 0 }
    }

    /// The game after the player to move has put a disc on `pos`.
    pub open spec fn after_move(self, pos: int) -> GameModel {
        GameModel {
            board: board_after(self.board, self.current, pos),
            current: self.current.other(),
            history: recorded(
                self.history,
                HistoryEntry {
                    pos: pos as u8,
                    flipped: flips(self.board, self.current, pos),
                    player: self.current,
                },
            ),
            passes: 0,
        }
    }

    /// The game after the player to move has passed.
    pub open spec fn after_pass(self) -> GameModel {
        GameModel {
            board: self.board,
            current: self.current.other(),
            history: recorded(
                self.history,
                HistoryEntry { pos: PASS, flipped: 0, player: self.current },
            ),
            passes: if self.passes < 255 {
                self.passes + 1
            } else {
                255
            },
        }
    }

    /// The game with its last ply taken back.
    pub open spec fn after_undo(self) -> GameModel
        recommends
            self.history.len() > 0,
    {
        let e = self.history.last();
        if e.pos == PASS {
            GameModel {
                board: self.board,
                current: e.player,
                history: self.history.drop_last(),
                passes: if self.passes > 0 {
                    self.passes - 1
                } else {
                    0
                },
            }
        } else {
            GameModel {
                board: self.board.removed(e.player, e.pos as int).flipped(e.player, e.flipped),
                current: e.player,
                history: self.history.drop_last(),
                passes: 0,
            }
        }
    }

    /// The game after an attempt to put a disc on `pos`: unchanged where the
    /// move is not legal.
    pub open spec fn try_move(self, pos: int) -> GameModel {
        if legal(self.board, self.current, pos) {
            self.after_move(pos)
        } else {
            self
        }
    }

    /// The game after an attempt to pass: unchanged where the player to move
    /// has a legal move.
    pub open spec fn try_pass(self) -> GameModel {
        if can_move(self.board, self.current) {
            self
        } else {
            self.after_pass()
        }
    }

    /// The game after an attempt at the ply that the byte `square` stands for:
    /// a pass for 255, else a move to that square.
    pub open spec fn play(self, square: u8) -> GameModel {
        if square == PASS {
            self.try_pass()
        } else {
            self.try_move(square as int)
        }
    }

    /// The game after the ply that `e` records has been tried.
    pub open spec fn step(self, e: HistoryEntry) -> GameModel {
        self.play(e.pos)
    }

    /// Whether the game is over: two passes in a row, or no vacant square.
    pub open spec fn over(self) -> bool {
        self.passes >= 2 || (self.board.black | self.board.white) == u64::MAX
    }

    /// How the game ended, once it is over.
    pub open spec fn outcome(self) -> Option<GameResult> {
        let black = popcount(self.board.black);
        let white = popcount(self.board.white);
        if !self.over() {
            None
        } else if black > white {
            Some(GameResult::Win(Player::Black, black as u32, white as u32))
        } else if white > black {
            Some(GameResult::Win(Player::White, black as u32, white as u32))
        } else {
            Some(GameResult::Draw(black as u32))
        }
    }
}

/// The game that comes of trying the plies of `h`, one after the other, from a
/// new game.
pub open spec fn replay(h: Seq<HistoryEntry>) -> GameModel
    decreases h.len(),
{
    if h.len() == 0 {
        GameModel::initial()
    } else {
        replay(h.drop_last()).step(h.last())
    }
}

/// An entry as a game records it: a pass, or a square of the board.
pub open spec fn entry_ok(e: HistoryEntry) -> bool {
    e.pos == PASS || e.pos < 64
}

/// A game: the board, the player to move, the plies so far (64 at most) and
/// the number of passes in a row.
#[derive(Debug)]
pub struct GameState {
    board: Board,
    current_player: Player,
    history: [HistoryEntry; 64],
    history_len: usize,
    consecutive_passes: u8,
}

impl View for GameState {
    type V = GameModel;

    closed spec fn view(&self) -> GameModel {
        GameModel {
            board: self.board,
            current: self.current_player,
            history: self.history@.take(self.history_len as int),
            passes: self.consecutive_passes as int,
        }
    }
}

impl Clone for GameState {
    fn clone(&self) -> (r: Self)
        ensures
            r@ == self@,
    {
        proof {
            use_type_invariant(self);
        }
        GameState {
            board: self.board,
            current_player: self.current_player,
            history: self.history,
            history_len: self.history_len,
            consecutive_passes: self.consecutive_passes,
        }
    }
}

impl Default for GameState {
    fn default() -> (r: Self)
        ensures
            r@ == GameModel::initial(),
    {
        Self::new()
    }
}

impl GameState {
    /// At most 64 plies are recorded, each a pass or a square of the board.
    #[verifier::type_invariant]
    spec fn well_formed(self) -> bool {
        &&& self.history_len <= MAX_MOVES
        &&& forall|i: int| 0 <= i < self.history_len ==> entry_ok(#[trigger] self.history@[i])
    }

    /// A new game: the opening position, black to move.
    pub fn new() -> (r: Self)
        ensures
            r@ == GameModel::initial(),
    {
        let r = Self {
            board: Board::new(),
            current_player: Player::Black,
            history: [HistoryEntry { pos: 0, flipped: 0, player: Player::Black };64],
            history_len: 0,
            consecutive_passes: 0,
        };
        assert(r@.history =~= Seq::empty());
        r
    }

    /// A game that starts from `board` with `current_player` to move.
    pub fn from_board(board: Board, current_player: Player) -> (r: Self)
        ensures
            r@ == (GameModel {
                board,
                current: current_player,
                history: Seq::empty(),
                passes: 0,
            }),
    {
        let r = Self {
            board,
            current_player,
            history: [HistoryEntry { pos: 0, flipped: 0, player: Player::Black };64],
            history_len: 0,
            consecutive_passes: 0,
        };
        assert(r@.history =~= Seq::empty());
        r
    }

    /// The board.
    pub fn board(&self) -> (r: &Board)
        ensures
            *r == self@.board,
    {
        &self.board
    }

    /// The player to move.
    pub fn current_player(&self) -> (r: Player)
        ensures
            r == self@.current,
    {
        self.current_player
    }

    /// How many plies are recorded.
    pub fn move_count(&self) -> (r: usize)
        ensures
            r == self@.history.len(),
            r <= MAX_MOVES,
    {
        proof {
            use_type_invariant(self);
        }
        self.history_len
    }

    /// The plies so far, oldest first.
    pub fn history(&self) -> (r: &[HistoryEntry])
        ensures
            r@ == self@.history,
            r@.len() <= MAX_MOVES,
            forall|i: int| 0 <= i < r@.len() ==> entry_ok(#[trigger] r@[i]),
    {
        proof {
            use_type_invariant(self);
        }
        let all = self.history.as_slice();
        vstd::slice::slice_subrange(all, 0, self.history_len)
    }

    /// The last ply, if there is one.
    pub fn last_move(&self) -> (r: Option<&HistoryEntry>)
        ensures
            r == (if self@.history.len() > 0 {
                Some(&self@.history.last())
            } else {
                None
            }),
    {
        proof {
            use_type_invariant(self);
        }
        if self.history_len > 0 {
            Some(&self.history[self.history_len - 1])
        } else {
            None
        }
    }

    /// The legal moves of the player to move.
    pub fn legal_moves(&self) -> (r: MoveList)
        ensures
            r@ == legal_moves(self@.board, self@.current),
    {
        generate_moves(&self.board, self.current_player)
    }

    /// Whether the player to move has a legal move.
    pub fn has_moves(&self) -> (r: bool)
        ensures
            r == can_move(self@.board, self@.current),
    {
        count_moves(&self.board, self.current_player) > 0
    }

    /// How many legal moves the player to move has.
    pub fn count_legal_moves(&self) -> (r: u32)
        ensures
            r == popcount(legal_mask(self@.board, self@.current)),
    {
        count_moves(&self.board, self.current_player)
    }

    /// Whether the game is over: two passes in a row, or a full board.
    pub fn is_game_over(&self) -> (r: bool)
        ensures
            r == self@.over(),
    {
        self.consecutive_passes >= 2 || self.board.is_full()
    }

    /// How the game ended; nothing while it is not over.
    pub fn result(&self) -> (r: Option<GameResult>)
        ensures
            r == self@.outcome(),
    {
        if !self.is_game_over() {
            return None;
        }
        let black = self.board.count(Player::Black);
        let white = self.board.count(Player::White);
        Some(
            if black > white {
                GameResult::Win(Player::Black, black, white)
            } else if white > black {
                GameResult::Win(Player::White, black, white)
            } else {
                GameResult::Draw(black)
            },
        )
    }

    /// Whether the player to move may put a disc on `pos`.
    pub fn is_legal(&self, pos: Position) -> (r: bool)
        ensures
            r == legal(self@.board, self@.current, pos as int),
    {
        crate::moves::is_legal_move(&self.board, self.current_player, pos)
    }

    /// Puts a disc of the player to move on `pos`, turns what it captures,
    /// records the ply and hands the turn over. Where the move is not legal,
    /// nothing changes and nothing is returned.
    pub fn make_move(&mut self, pos: Position) -> (r: Option<Move>)
        ensures
            final(self)@ == old(self)@.try_move(pos as int),
            r == (if legal(old(self)@.board, old(self)@.current, pos as int) {
                Some(move_at(old(self)@.board, old(self)@.current, pos as int))
            } else {
                None
            }),
    {
        proof {
            use_type_invariant(&*self);
            lemma_flips(self.board, self.current_player, pos as int);
        }
        let flipped = calculate_flips(&self.board, self.current_player, pos);
        if flipped == 0 {
            return None;
        }
        let ghost before = self@;
        let mut board = self.board;
        board.place(self.current_player, pos);
        board.flip(self.current_player.opponent(), flipped);
        self.board = board;
        if self.history_len < MAX_MOVES {
            self.history[self.history_len] = HistoryEntry {
                pos,
                flipped,
                player: self.current_player,
            };
            self.history_len += 1;
        }
        self.consecutive_passes = 0;
        self.current_player = self.current_player.opponent();
        proof {
            assert(self@.history =~= before.after_move(pos as int).history);
        }
        Some(Move::new(pos, flipped))
    }

    /// Passes the turn. Where the player to move has a legal move, nothing
    /// changes and `false` is returned.
    pub fn pass(&mut self) -> (r: bool)
        ensures
            final(self)@ == old(self)@.try_pass(),
            r == !can_move(old(self)@.board, old(self)@.current),
    {
        proof {
            use_type_invariant(&*self);
        }
        if self.has_moves() {
            return false;
        }
        let ghost before = self@;
        if self.history_len < MAX_MOVES {
            self.history[self.history_len] = HistoryEntry {
                pos: PASS,
                flipped: 0,
                player: self.current_player,
            };
            self.history_len += 1;
        }
        if self.consecutive_passes < 255 {
            self.consecutive_passes += 1;
        }
        self.current_player = self.current_player.opponent();
        proof {
            assert(self@.history =~= before.after_pass().history);
        }
        true
    }

    /// Takes the last ply back and returns it. With no ply recorded, nothing
    /// changes and nothing is returned.
    pub fn undo(&mut self) -> (r: Option<HistoryEntry>)
        ensures
            old(self)@.history.len() == 0 ==> r is None && final(self)@ == old(self)@,
            old(self)@.history.len() > 0 ==> r == Some(old(self)@.history.last()) && final(self)@
                == old(self)@.after_undo(),
    {
        proof {
            use_type_invariant(&*self);
        }
        if self.history_len == 0 {
            return None;
        }
        let ghost before = self@;
        self.history_len -= 1;
        let entry = self.history[self.history_len];
        assert(entry == before.history.last());
        assert(entry_ok(entry));
        if entry.is_pass() {
            if self.consecutive_passes > 0 {
                self.consecutive_passes -= 1;
            }
        } else {
            let mut board = self.board;
            board.remove(entry.player, entry.pos);
            board.flip(entry.player, entry.flipped);
            self.board = board;
            self.consecutive_passes = 0;
        }
        self.current_player = entry.player;
        proof {
            assert(self@.history =~= before.history.drop_last());
        }
        Some(entry)
    }

    /// The discs of black and of white.
    pub fn counts(&self) -> (r: (u32, u32))
        ensures
            r.0 == popcount(self@.board.black),
            r.1 == popcount(self@.board.white),
    {
        (self.board.count(Player::Black), self.board.count(Player::White))
    }

    /// How many squares are vacant.
    pub fn empty_count(&self) -> (r: u32)
        ensures
            r == popcount(!(self@.board.black | self@.board.white)),
    {
        self.board.empty_count()
    }

    /// The game that comes of trying the first `move_index` recorded plies (all
    /// of them where fewer are recorded), one after the other, from a new game.
    pub fn clone_at_move(&self, move_index: usize) -> (r: Self)
        ensures
            r@ == replay(
                self@.history.take(
                    if move_index < self@.history.len() {
                        move_index as int
                    } else {
                        self@.history.len() as int
                    },
                ),
            ),
    {
        proof {
            use_type_invariant(self);
        }
        let mut game = Self::new();
        let n = if move_index < self.history_len {
            move_index
        } else {
            self.history_len
        };
        let mut i: usize = 0;
        assert(self@.history.take(0) =~= Seq::empty());
        while i < n
            invariant
                i <= n <= self.history_len <= MAX_MOVES,
                game@ == replay(self@.history.take(i as int)),
            decreases n - i,
        {
            let entry = self.history[i];
            proof {
                let h = self@.history.take(i + 1);
                assert(h.drop_last() =~= self@.history.take(i as int));
                assert(h.last() == entry);
            }
            if entry.is_pass() {
                game.pass();
            } else {
                game.make_move(entry.pos);
            }
            i += 1;
        }
        game
    }

    /// The board after the first `move_index` recorded plies, tried from a new
    /// game.
    pub fn board_at_move(&self, move_index: usize) -> (r: Board)
        ensures
            r == replay(
                self@.history.take(
                    if move_index < self@.history.len() {
                        move_index as int
                    } else {
                        self@.history.len() as int
                    },
                ),
            ).board,
    {
        self.clone_at_move(move_index).board
    }

    /// How many legal moves `player` has on the board.
    pub fn mobility(&self, player: Player) -> (r: u32)
        ensures
            r == popcount(legal_mask(self@.board, player)),
    {
        count_moves(&self.board, player)
    }

    /// The set of squares on which the player to move may put a disc.
    pub fn legal_moves_bitboard(&self) -> (r: u64)
        ensures
            r == legal_mask(self@.board, self@.current),
    {
        crate::moves::legal_moves_bitboard(&self.board, self.current_player)
    }
}

/// A move that is taken back leaves the board, the player to move and the
/// recorded plies as they were, and the pass counter too where it was zero.
/// This holds of a board on which no square has two discs, and of a game that
/// has room to record the move.
pub proof fn lemma_move_then_undo(s: GameModel, pos: int)
    requires
        legal(s.board, s.current, pos),
        s.board.disjoint(),
        s.history.len() < MAX_MOVES,
    ensures
        s.after_move(pos).after_undo().board == s.board,
        s.after_move(pos).after_undo().current == s.current,
        s.after_move(pos).after_undo().history == s.history,
        s.passes == 0 ==> s.after_move(pos).after_undo() == s,
{
    let own = s.board.discs(s.current);
    let opp = s.board.discs(s.current.other());
    let f = flips(s.board, s.current, pos);
    lemma_flips(s.board, s.current, pos);
    assert(s.board.vacant(pos));
    let spot = crate::bits::single(pos);
    let own1 = own | spot;
    let own2 = own1 | f;
    let opp2 = opp & !f;
    let own3 = own2 & !spot;
    let own4 = own3 & !f;
    let opp4 = opp2 | f;
    lemma_single(pos);
    lemma_ops(own, spot);
    lemma_ops(own1, f);
    lemma_ops(opp, !f);
    lemma_ops(f, 0);
    lemma_ops(spot, 0);
    lemma_ops(own2, !spot);
    lemma_ops(own3, !f);
    lemma_ops(opp2, f);
    lemma_disjoint(s.board, s.current);
    lemma_consts();
    assert forall|q: int| 0 <= q < 64 implies bit(own4, q) == bit(own, q) && bit(opp4, q) == bit(
        opp,
        q,
    ) by {
        if bit(f, q) {
            lemma_captures_on_board(s.board, s.current, pos, q);
        }
    }
    lemma_ext(own4, own);
    lemma_ext(opp4, opp);
    let after = s.after_move(pos);
    assert(after.history.last().pos == pos as u8);
    assert(after.history.drop_last() =~= s.history);
}

/// A pass that is taken back leaves the game as it was, while the game has
/// room to record the pass and the counter has not reached its limit.
pub proof fn lemma_pass_then_undo(s: GameModel)
    requires
        s.history.len() < MAX_MOVES,
        0 <= s.passes < 255,
    ensures
        s.after_pass().after_undo() == s,
{
    assert(s.after_pass().history.drop_last() =~= s.history);
}

/// Replaying one ply more is one more step from the replay of the plies before.
pub proof fn lemma_replay_push(h: Seq<HistoryEntry>, e: HistoryEntry)
    ensures
        replay(h.push(e)) == replay(h).step(e),
{
    assert(h.push(e).drop_last() =~= h);
}

/// A legal move keeps a board free of squares with two discs, fills the square
/// played and leaves every other square occupied or vacant as it was.
pub proof fn lemma_board_after(board: Board, player: Player, pos: int)
    requires
        legal(board, player, pos),
    ensures
        board.disjoint() ==> board_after(board, player, pos).disjoint(),
        forall|q: int|
            #[trigger] board_after(board, player, pos).vacant(q) == (board.vacant(q) && q != pos),
        board_after(board, player, pos).held_by(player, pos),
{
    let own = board.discs(player);
    let opp = board.discs(player.other());
    let f = flips(board, player, pos);
    lemma_flips(board, player, pos);
    let spot = crate::bits::single(pos);
    let own1 = own | spot;
    let own2 = own1 | f;
    let opp2 = opp & !f;
    lemma_single(pos);
    lemma_ops(own, spot);
    lemma_ops(own1, f);
    lemma_ops(opp, !f);
    lemma_ops(f, 0);
    lemma_ops(own, opp);
    lemma_ops(own2, opp2);
    lemma_consts();
    let after = board_after(board, player, pos);
    assert(after.discs(player) == own2);
    assert(after.discs(player.other()) == opp2);
    assert forall|q: int| #[trigger] after.vacant(q) == (board.vacant(q) && q != pos) by {
        if bit(f, q) {
            lemma_captures_on_board(board, player, pos, q);
        }
    }
    if board.disjoint() {
        lemma_disjoint(board, player);
        assert forall|q: int| 0 <= q < 64 implies bit(own2 & opp2, q) == bit(0, q) by {
            if bit(f, q) {
                lemma_captures_on_board(board, player, pos, q);
            }
        }
        lemma_ext(own2 & opp2, 0);
        assert(opp2 & own2 == own2 & opp2) by (bit_vector);
    }
}

/// The game that comes of trying the first `k` plies of `h` (all of them where
/// `h` has fewer) from a new game.
pub open spec fn replay_to(h: Seq<HistoryEntry>, k: int) -> GameModel {
    replay(h.take(if k < h.len() {
        k
    } else {
        h.len() as int
    }))
}

/// A replay records no more plies than it was given, and never more than 64.
pub proof fn lemma_replay_len(h: Seq<HistoryEntry>)
    ensures
        replay(h).history.len() <= h.len(),
        replay(h).history.len() <= MAX_MOVES,
    decreases h.len(),
{
    if h.len() > 0 {
        lemma_replay_len(h.drop_last());
    }
}

/// The game that comes of trying the plies that the bytes of `squares` stand
/// for, one after the other, from a new game.
pub open spec fn replay_squares(squares: Seq<u8>) -> GameModel
    decreases squares.len(),
{
    if squares.len() == 0 {
        GameModel::initial()
    } else {
        replay_squares(squares.drop_last()).play(squares.last())
    }
}

/// The squares of the plies of `h`, in order.
pub open spec fn squares_of(h: Seq<HistoryEntry>) -> Seq<u8> {
    Seq::new(h.len(), |i: int| h[i].pos)
}

/// A replay depends on the squares of the plies alone.
pub proof fn lemma_replay_squares(h: Seq<HistoryEntry>)
    ensures
        replay(h) == replay_squares(squares_of(h)),
    decreases h.len(),
{
    if h.len() > 0 {
        lemma_replay_squares(h.drop_last());
        assert(squares_of(h).drop_last() =~= squares_of(h.drop_last()));
        assert(squares_of(h).last() == h.last().pos);
    }
}

/// What follows a move.
#[derive(Debug, Clone, Copy, PartialEq, Eq, Structural)]
pub enum Advance {
    /// The player to move has a legal move.
    Next,
    /// The player who had the turn could not move and has passed; the other
    /// player moves again.
    Passed,
    /// The game is over.
    Over,
}

impl GameModel {
    /// The game after the passes that are forced: none where the game is over
    /// or the player to move can move; one where only the other player can
    /// move; two where neither can.
    pub open spec fn settled(self) -> GameModel {
        if self.over() || can_move(self.board, self.current) {
            self
        } else if can_move(self.board, self.current.other()) {
            self.after_pass()
        } else {
            self.after_pass().after_pass()
        }
    }

    /// What follows in this game: the end where it is over or no one can
    /// move; a pass where only the other player can move; else the next move.
    pub open spec fn advance(self) -> Advance {
        if self.over() {
            Advance::Over
        } else if can_move(self.board, self.current) {
            Advance::Next
        } else if can_move(self.board, self.current.other()) {
            Advance::Passed
        } else {
            Advance::Over
        }
    }
}

impl GameState {
    /// Makes the passes that are forced after a move, and tells what follows.
    pub fn advance(&mut self) -> (r: Advance)
        ensures
            final(self)@ == old(self)@.settled(),
            r == old(self)@.advance(),
            r == Advance::Over ==> final(self)@.over(),
            r == Advance::Next || r == Advance::Passed ==> can_move(
                final(self)@.board,
                final(self)@.current,
            ),
    {
        if self.is_game_over() {
            return Advance::Over;
        }
        if self.has_moves() {
            return Advance::Next;
        }
        self.pass();
        if self.has_moves() {
            return Advance::Passed;
        }
        self.pass();
        Advance::Over
    }
}

impl GameModel {
    /// The recorded plies account for the position: tried one after the other
    /// from a new game, they give this board, this player to move and this
    /// record.
    pub open spec fn faithful(self) -> bool {
        let r = replay(self.history);
        r.board == self.board && r.current == self.current && r.history == self.history
    }
}

/// The board of a replay never has two discs on one square.
pub proof fn lemma_replay_disjoint(h: Seq<HistoryEntry>)
    ensures
        replay(h).board.disjoint(),
    decreases h.len(),
{
    if h.len() == 0 {
        assert(0x0000_0008_1000_0000u64 & 0x0000_0010_0800_0000u64 == 0) by (bit_vector);
    } else {
        lemma_replay_disjoint(h.drop_last());
        let before = replay(h.drop_last());
        let sq = h.last().pos;
        if sq != PASS && legal(before.board, before.current, sq as int) {
            lemma_board_after(before.board, before.current, sq as int);
        }
    }
}

/// A new game is accounted for by its empty record.
pub proof fn lemma_faithful_new()
    ensures
        GameModel::initial().faithful(),
{
}

/// A game that its record accounts for stays so after a move, legal or not,
/// while it has room to record the move.
pub proof fn lemma_faithful_move(s: GameModel, pos: int)
    requires
        s.faithful(),
        s.history.len() < MAX_MOVES,
    ensures
        s.try_move(pos).faithful(),
{
    if legal(s.board, s.current, pos) {
        lemma_flips(s.board, s.current, pos);
        let after = s.after_move(pos);
        let e = after.history.last();
        assert(after.history.drop_last() =~= s.history);
        assert(e.pos == pos);
        assert(replay(after.history) == replay(s.history).play(e.pos));
        assert(replay(s.history).after_move(pos).history =~= after.history);
    }
}

/// A game that its record accounts for stays so after a pass, made or
/// refused, while it has room to record the pass.
pub proof fn lemma_faithful_pass(s: GameModel)
    requires
        s.faithful(),
        s.history.len() < MAX_MOVES,
    ensures
        s.try_pass().faithful(),
{
    if !can_move(s.board, s.current) {
        let after = s.after_pass();
        assert(after.history.drop_last() =~= s.history);
        assert(after.history.last().pos == PASS);
        assert(replay(after.history) == replay(s.history).play(PASS));
        assert(replay(s.history).after_pass().history =~= after.history);
    }
}

/// A game that its record accounts for stays so when its last ply is taken
/// back.
pub proof fn lemma_faithful_undo(s: GameModel)
    requires
        s.faithful(),
        0 < s.history.len() <= MAX_MOVES,
    ensures
        s.after_undo().faithful(),
{
    let h = s.history;
    let e = h.last();
    let rest = h.drop_last();
    let before = replay(rest);
    lemma_replay_len(rest);
    lemma_replay_disjoint(rest);
    assert(replay(h) == before.play(e.pos));
    // The last ply was made, not refused: the record grew by it.
    if e.pos == PASS {
        assert(!can_move(before.board, before.current));
        let made = before.after_pass();
        assert(made.history == h);
        assert(made.history.drop_last() =~= before.history);
        assert(before.history == rest);
        assert(made.history.last().player == before.current);
    } else {
        assert(legal(before.board, before.current, e.pos as int));
        lemma_flips(before.board, before.current, e.pos as int);
        let made = before.after_move(e.pos as int);
        assert(made.history == h);
        assert(made.history.drop_last() =~= before.history);
        assert(before.history == rest);
        assert(made.history.last() == e);
        lemma_move_then_undo(before, e.pos as int);
        assert(made.after_undo().board == before.board);
        assert(s.after_undo().board == made.after_undo().board);
    }
}

} // verus!
