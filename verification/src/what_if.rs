//! Looking back through a finished game, and trying another line from any
//! point of it.

use vstd::prelude::*;
use crate::game::{GameState, GameModel, replay_to, lemma_replay_len};
use crate::moves::legal;

verus! {

/// A finished game that is looked back through.
pub struct WhatIfState {
    /// The game as it was played.
    pub base_game: GameState,
    /// The position on show; it leaves the game once another move is tried.
    pub current_game: GameState,
    /// How many plies of the game lead to the position on show.
    pub view_index: usize,
    /// Whether another move has been tried.
    pub branched: bool,
}

impl WhatIfState {
    /// All is in order: the position on show lies within the game, and records
    /// at least the plies that lead to it.
    pub open spec fn wf(&self) -> bool {
        &&& self.view_index <= self.base_game@.history.len()
        &&& self.current_game@.history.len() >= replay_to(
            self.base_game@.history,
            self.view_index as int,
        ).history.len()
    }

    /// A look back through `game`, starting at its last position.
    pub fn new(game: GameState) -> (r: Self)
        ensures
            r.base_game@ == game@,
            r.current_game@ == game@,
            r.view_index == game@.history.len(),
            !r.branched,
            r.wf(),
    {
        let view_index = game.move_count();
        proof {
            lemma_replay_len(game@.history.take(view_index as int));
        }
        Self { base_game: game.clone(), current_game: game, view_index, branched: false }
    }

    /// Shows the position one ply earlier. Nothing changes at the start of the
    /// game, or once another move has been tried.
    pub fn step_back(&mut self)
        ensures
            final(self).base_game@ == old(self).base_game@,
            final(self).branched == old(self).branched,
            old(self).branched || old(self).view_index == 0 ==> final(self).view_index == old(self).view_index && final(self).current_game@ == old(self).current_game@,
            !old(self).branched && old(self).view_index > 0 ==> final(self).view_index == old(self).view_index - 1 && final(self).current_game@ == replay_to(
                old(self).base_game@.history,
                old(self).view_index - 1,
            ),
            old(self).wf() ==> final(self).wf(),
    {
        if self.branched {
            return ;
        }
        if self.view_index > 0 {
            self.view_index -= 1;
            self.current_game = self.base_game.clone_at_move(self.view_index);
        }
    }

    /// Shows the position one ply later. Nothing changes at the end of the
    /// game, or once another move has been tried.
    pub fn step_forward(&mut self)
        ensures
            final(self).base_game@ == old(self).base_game@,
            final(self).branched == old(self).branched,
            old(self).branched || old(self).view_index >= old(self).base_game@.history.len()
                ==> final(self).view_index == old(self).view_index && final(self).current_game@
                == old(self).current_game@,
            !old(self).branched && old(self).view_index < old(self).base_game@.history.len()
                ==> final(self).view_index == old(self).view_index + 1 && final(self).current_game@ == replay_to(old(self).base_game@.history, old(self).view_index + 1),
            old(self).wf() ==> final(self).wf(),
    {
        if self.branched {
            return ;
        }
        if self.view_index < self.base_game.move_count() {
            self.view_index += 1;
            self.current_game = self.base_game.clone_at_move(self.view_index);
        }
    }

    /// Shows the opening position. Nothing changes once another move has been
    /// tried.
    pub fn jump_to_start(&mut self)
        ensures
            final(self).base_game@ == old(self).base_game@,
            final(self).branched == old(self).branched,
            old(self).branched ==> final(self).view_index == old(self).view_index && final(self).current_game@ == old(self).current_game@,
            !old(self).branched ==> final(self).view_index == 0 && final(self).current_game@
                == GameModel::initial(),
            old(self).wf() ==> final(self).wf(),
    {
        if self.branched {
            return ;
        }
        self.view_index = 0;
        self.current_game = self.base_game.clone_at_move(0);
        proof {
            assert(self.base_game@.history.take(0) =~= Seq::empty());
        }
    }

    /// Shows the last position of the game. Nothing changes once another move
    /// has been tried.
    pub fn jump_to_end(&mut self)
        ensures
            final(self).base_game@ == old(self).base_game@,
            final(self).branched == old(self).branched,
            old(self).branched ==> final(self).view_index == old(self).view_index && final(self).current_game@ == old(self).current_game@,
            !old(self).branched ==> final(self).view_index == old(self).base_game@.history.len()
                && final(self).current_game@ == old(self).base_game@,
            old(self).wf() ==> final(self).wf(),
    {
        if self.branched {
            return ;
        }
        self.view_index = self.base_game.move_count();
        self.current_game = self.base_game.clone();
        proof {
            lemma_replay_len(self.base_game@.history.take(self.view_index as int));
        }
    }

    /// Tries the move to `pos` in the position on show. A legal move is played
    /// and the line on show leaves the game; any other changes nothing.
    pub fn make_alternate_move(&mut self, pos: u8) -> (r: bool)
        ensures
            r == legal(old(self).current_game@.board, old(self).current_game@.current, pos as int),
            final(self).base_game@ == old(self).base_game@,
            final(self).view_index == old(self).view_index,
            final(self).current_game@ == old(self).current_game@.try_move(pos as int),
            final(self).branched == (old(self).branched || r),
            old(self).wf() ==> final(self).wf(),
    {
        if self.current_game.is_legal(pos) {
            self.current_game.make_move(pos);
            self.branched = true;
            true
        } else {
            false
        }
    }

    /// Shows the position after `index` plies of the game (its last position
    /// where it has fewer), and forgets any other move that was tried.
    pub fn reset_to_move(&mut self, index: usize)
        ensures
            final(self).base_game@ == old(self).base_game@,
            !final(self).branched,
            final(self).view_index == (if index < old(self).base_game@.history.len() {
                index
            } else {
                old(self).base_game@.history.len() as usize
            }),
            final(self).current_game@ == replay_to(old(self).base_game@.history, index as int),
            final(self).wf(),
    {
        let total = self.base_game.move_count();
        self.view_index = if index < total {
            index
        } else {
            total
        };
        self.current_game = self.base_game.clone_at_move(self.view_index);
        self.branched = false;
    }

    /// Shows the opening position, and forgets any other move that was tried.
    pub fn reset_to_start(&mut self)
        ensures
            final(self).base_game@ == old(self).base_game@,
            !final(self).branched,
            final(self).view_index == 0,
            final(self).current_game@ == GameModel::initial(),
            final(self).wf(),
    {
        self.reset_to_move(0);
        proof {
            assert(self.base_game@.history.take(0) =~= Seq::empty());
        }
    }

    /// The number of the ply on show: the place in the game, and beyond it the
    /// plies that were tried since the line on show left the game.
    pub fn current_move_number(&self) -> (r: usize)
        requires
            self.wf(),
        ensures
            r == (if self.branched {
                self.view_index + (self.current_game@.history.len() - replay_to(
                    self.base_game@.history,
                    self.view_index as int,
                ).history.len())
            } else {
                self.view_index as int
            }),
    {
        if self.branched {
            let total = self.base_game.move_count();
            let shown = self.current_game.move_count();
            let replayed = self.base_game.clone_at_move(self.view_index).move_count();
            assert(self.view_index <= total <= 64 && replayed <= shown <= 64);
            self.view_index + (shown - replayed)
        } else {
            self.view_index
        }
    }

    /// How many plies the game has.
    pub fn total_moves(&self) -> (r: usize)
        ensures
            r == self.base_game@.history.len(),
    {
        self.base_game.move_count()
    }
}

} // verus!
