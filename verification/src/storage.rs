//! The bytes in which settings, statistics and a game in progress are kept.

use vstd::prelude::*;
use vstd::bytes::{spec_u64_to_le_bytes, u64_to_le_bytes};
use crate::ai::Difficulty;
use crate::board::Player;
use crate::game::{GameModel, GameState, HistoryEntry, MAX_MOVES, replay_squares, squares_of, lemma_replay_squares};

verus! {

/// Against whom a game is played.
#[derive(Debug, Clone, Copy, PartialEq, Eq, Structural)]
pub enum GameMode {
    VsCpu(Difficulty),
    TwoPlayer,
}

/// What the user has chosen.
#[derive(Debug, PartialEq, Eq, Structural)]
pub struct Settings {
    pub show_coordinates: bool,
    pub show_valid_moves: bool,
    pub allow_undo: bool,
    pub danger_zones: bool,
    pub flip_animation: bool,
    pub ai_think_animation: bool,
    pub ai_delay: bool,
    pub vibration: bool,
    pub sound: bool,
    pub last_difficulty: u8,
}

/// Games won, lost and drawn at each strength, and games between two players.
#[derive(Debug, PartialEq, Eq, Structural)]
pub struct Statistics {
    pub easy_wins: u16,
    pub easy_losses: u16,
    pub easy_draws: u16,
    pub medium_wins: u16,
    pub medium_losses: u16,
    pub medium_draws: u16,
    pub hard_wins: u16,
    pub hard_losses: u16,
    pub hard_draws: u16,
    pub expert_wins: u16,
    pub expert_losses: u16,
    pub expert_draws: u16,
    pub two_player_games: u16,
}

/// The byte of a flag: 1 for set, 0 for clear.
pub open spec fn flag_byte(b: bool) -> u8 {
    if b {
        1
    } else {
        0
    }
}

/// The two bytes of `v`, the low one first.
pub open spec fn le16(v: u16) -> Seq<u8> {
    seq![(v % 256) as u8, (v / 256) as u8]
}

/// The number that two bytes hold, the low one first.
pub open spec fn from_le16(lo: u8, hi: u8) -> u16 {
    (lo + hi * 256) as u16
}

/// The byte of a player: 0 for black, 1 for white.
pub open spec fn player_byte(p: Player) -> u8 {
    match p {
        Player::Black => 0,
        Player::White => 1,
    }
}

/// The player of a byte: black for 0, white for any other.
pub open spec fn player_of_byte(b: u8) -> Player {
    if b == 0 {
        Player::Black
    } else {
        Player::White
    }
}

/// The byte of a mode: 0 to 3 for the four strengths, 4 for two players.
pub open spec fn mode_byte(mode: GameMode) -> u8 {
    match mode {
        GameMode::VsCpu(Difficulty::Easy) => 0,
        GameMode::VsCpu(Difficulty::Medium) => 1,
        GameMode::VsCpu(Difficulty::Hard) => 2,
        GameMode::VsCpu(Difficulty::Expert) => 3,
        GameMode::TwoPlayer => 4,
    }
}

/// The mode of a byte: the four strengths for 0 to 3, two players for any
/// other.
pub open spec fn mode_of_byte(b: u8) -> GameMode {
    if b == 0 {
        GameMode::VsCpu(Difficulty::Easy)
    } else if b == 1 {
        GameMode::VsCpu(Difficulty::Medium)
    } else if b == 2 {
        GameMode::VsCpu(Difficulty::Hard)
    } else if b == 3 {
        GameMode::VsCpu(Difficulty::Expert)
    } else {
        GameMode::TwoPlayer
    }
}

impl Settings {
    /// The settings of a first start.
    pub open spec fn initial() -> Settings {
        Settings {
            show_coordinates: false,
            show_valid_moves: true,
            allow_undo: true,
            danger_zones: false,
            flip_animation: true,
            ai_think_animation: true,
            ai_delay: true,
            vibration: true,
            sound: true,
            last_difficulty: 1,
        }
    }

    /// The ten bytes of the settings: one for each flag, then the strength.
    pub open spec fn bytes(self) -> Seq<u8> {
        seq![
            flag_byte(self.show_coordinates),
            flag_byte(self.show_valid_moves),
            flag_byte(self.allow_undo),
            flag_byte(self.danger_zones),
            flag_byte(self.flip_animation),
            flag_byte(self.ai_think_animation),
            flag_byte(self.ai_delay),
            flag_byte(self.vibration),
            flag_byte(self.sound),
            self.last_difficulty,
        ]
    }

    /// The settings that the first ten bytes of `data` hold: a flag is set
    /// where its byte is not 0.
    pub open spec fn parse(data: Seq<u8>) -> Option<Settings> {
        if data.len() < 10 {
            None
        } else {
            Some(
                Settings {
                    show_coordinates: data[0] != 0,
                    show_valid_moves: data[1] != 0,
                    allow_undo: data[2] != 0,
                    danger_zones: data[3] != 0,
                    flip_animation: data[4] != 0,
                    ai_think_animation: data[5] != 0,
                    ai_delay: data[6] != 0,
                    vibration: data[7] != 0,
                    sound: data[8] != 0,
                    last_difficulty: data[9],
                },
            )
        }
    }

    /// The ten bytes of the settings.
    pub fn to_bytes(&self) -> (r: [u8; 10])
        ensures
            r@ == self.bytes(),
    {
        let r = [
            flag(self.show_coordinates),
            flag(self.show_valid_moves),
            flag(self.allow_undo),
            flag(self.danger_zones),
            flag(self.flip_animation),
            flag(self.ai_think_animation),
            flag(self.ai_delay),
            flag(self.vibration),
            flag(self.sound),
            self.last_difficulty,
        ];
        assert(r@ =~= self.bytes());
        r
    }

    /// The settings that `data` holds; nothing where it has fewer than ten
    /// bytes.
    pub fn from_bytes(data: &[u8]) -> (r: Option<Self>)
        ensures
            r == Settings::parse(data@),
    {
        if data.len() < 10 {
            return None;
        }
        Some(
            Self {
                show_coordinates: data[0] != 0,
                show_valid_moves: data[1] != 0,
                allow_undo: data[2] != 0,
                danger_zones: data[3] != 0,
                flip_animation: data[4] != 0,
                ai_think_animation: data[5] != 0,
                ai_delay: data[6] != 0,
                vibration: data[7] != 0,
                sound: data[8] != 0,
                last_difficulty: data[9],
            },
        )
    }
}

impl Default for Settings {
    fn default() -> (r: Self)
        ensures
            r == Settings::initial(),
    {
        Self {
            show_coordinates: false,
            show_valid_moves: true,
            allow_undo: true,
            danger_zones: false,
            flip_animation: true,
            ai_think_animation: true,
            ai_delay: true,
            vibration: true,
            sound: true,
            last_difficulty: 1,
        }
    }
}

impl Clone for Settings {
    fn clone(&self) -> (r: Self)
        ensures
            r == *self,
    {
        Self {
            show_coordinates: self.show_coordinates,
            show_valid_moves: self.show_valid_moves,
            allow_undo: self.allow_undo,
            danger_zones: self.danger_zones,
            flip_animation: self.flip_animation,
            ai_think_animation: self.ai_think_animation,
            ai_delay: self.ai_delay,
            vibration: self.vibration,
            sound: self.sound,
            last_difficulty: self.last_difficulty,
        }
    }
}

/// Settings read back from their bytes are the settings.
pub proof fn lemma_settings_round_trip(s: Settings)
    ensures
        Settings::parse(s.bytes()) == Some(s),
{
}

/// The byte of a flag.
fn flag(b: bool) -> (r: u8)
    ensures
        r == flag_byte(b),
{
    if b {
        1
    } else {
        0
    }
}

impl Statistics {
    /// The thirteen counters in the order in which they are kept.
    pub open spec fn values(self) -> Seq<u16> {
        seq![
            self.easy_wins,
            self.easy_losses,
            self.easy_draws,
            self.medium_wins,
            self.medium_losses,
            self.medium_draws,
            self.hard_wins,
            self.hard_losses,
            self.hard_draws,
            self.expert_wins,
            self.expert_losses,
            self.expert_draws,
            self.two_player_games,
        ]
    }

    /// The twenty-six bytes of the statistics: each counter in two bytes, the
    /// low one first.
    pub open spec fn bytes(self) -> Seq<u8> {
        Seq::new(
            26,
            |i: int|
                if i % 2 == 0 {
                    (self.values()[i / 2] % 256) as u8
                } else {
                    (self.values()[i / 2] / 256) as u8
                },
        )
    }

    /// The statistics that the first twenty-six bytes of `data` hold.
    pub open spec fn parse(data: Seq<u8>) -> Option<Statistics> {
        if data.len() < 26 {
            None
        } else {
            Some(
                Statistics {
                    easy_wins: from_le16(data[0], data[1]),
                    easy_losses: from_le16(data[2], data[3]),
                    easy_draws: from_le16(data[4], data[5]),
                    medium_wins: from_le16(data[6], data[7]),
                    medium_losses: from_le16(data[8], data[9]),
                    medium_draws: from_le16(data[10], data[11]),
                    hard_wins: from_le16(data[12], data[13]),
                    hard_losses: from_le16(data[14], data[15]),
                    hard_draws: from_le16(data[16], data[17]),
                    expert_wins: from_le16(data[18], data[19]),
                    expert_losses: from_le16(data[20], data[21]),
                    expert_draws: from_le16(data[22], data[23]),
                    two_player_games: from_le16(data[24], data[25]),
                },
            )
        }
    }

    /// The twenty-six bytes of the statistics.
    pub fn to_bytes(&self) -> (r: [u8; 26])
        ensures
            r@ == self.bytes(),
    {
        let values = [
            self.easy_wins,
            self.easy_losses,
            self.easy_draws,
            self.medium_wins,
            self.medium_losses,
            self.medium_draws,
            self.hard_wins,
            self.hard_losses,
            self.hard_draws,
            self.expert_wins,
            self.expert_losses,
            self.expert_draws,
            self.two_player_games,
        ];
        assert(values@ =~= self.values());
        let mut bytes = [0u8;26];
        let mut i: usize = 0;
        while i < 13
            invariant
                i <= 13,
                values@ == self.values(),
                forall|k: int| 0 <= k < 2 * i ==> #[trigger] bytes@[k] == self.bytes()[k],
            decreases 13 - i,
        {
            let v = values[i];
            bytes[i * 2] = (v % 256) as u8;
            bytes[i * 2 + 1] = (v / 256) as u8;
            i += 1;
        }
        assert(bytes@ =~= self.bytes());
        bytes
    }

    /// The statistics that `data` holds; nothing where it has fewer than
    /// twenty-six bytes.
    pub fn from_bytes(data: &[u8]) -> (r: Option<Self>)
        ensures
            r == Statistics::parse(data@),
    {
        if data.len() < 26 {
            return None;
        }
        Some(
            Self {
                easy_wins: read_u16(data, 0),
                easy_losses: read_u16(data, 1),
                easy_draws: read_u16(data, 2),
                medium_wins: read_u16(data, 3),
                medium_losses: read_u16(data, 4),
                medium_draws: read_u16(data, 5),
                hard_wins: read_u16(data, 6),
                hard_losses: read_u16(data, 7),
                hard_draws: read_u16(data, 8),
                expert_wins: read_u16(data, 9),
                expert_losses: read_u16(data, 10),
                expert_draws: read_u16(data, 11),
                two_player_games: read_u16(data, 12),
            },
        )
    }
}

impl Default for Statistics {
    fn default() -> (r: Self)
        ensures
            r.values() == Seq::new(13, |i: int| 0u16),
    {
        let r = Self {
            easy_wins: 0,
            easy_losses: 0,
            easy_draws: 0,
            medium_wins: 0,
            medium_losses: 0,
            medium_draws: 0,
            hard_wins: 0,
            hard_losses: 0,
            hard_draws: 0,
            expert_wins: 0,
            expert_losses: 0,
            expert_draws: 0,
            two_player_games: 0,
        };
        assert(r.values() =~= Seq::new(13, |i: int| 0u16));
        r
    }
}

impl Clone for Statistics {
    fn clone(&self) -> (r: Self)
        ensures
            r == *self,
    {
        Self {
            easy_wins: self.easy_wins,
            easy_losses: self.easy_losses,
            easy_draws: self.easy_draws,
            medium_wins: self.medium_wins,
            medium_losses: self.medium_losses,
            medium_draws: self.medium_draws,
            hard_wins: self.hard_wins,
            hard_losses: self.hard_losses,
            hard_draws: self.hard_draws,
            expert_wins: self.expert_wins,
            expert_losses: self.expert_losses,
            expert_draws: self.expert_draws,
            two_player_games: self.two_player_games,
        }
    }
}

/// Statistics read back from their bytes are the statistics.
pub proof fn lemma_statistics_round_trip(s: Statistics)
    ensures
        Statistics::parse(s.bytes()) == Some(s),
{
    let b = s.bytes();
    assert(b.len() == 26);
    assert forall|k: int| 0 <= k < 13 implies from_le16(b[2 * k], b[2 * k + 1]) == #[trigger] s.values()[k] by {
        let v = s.values()[k];
        assert(b[2 * k] == (v % 256) as u8);
        assert(b[2 * k + 1] == (v / 256) as u8);
    }
    assert(from_le16(b[0], b[1]) == s.values()[0]);
    assert(from_le16(b[2], b[3]) == s.values()[1]);
    assert(from_le16(b[4], b[5]) == s.values()[2]);
    assert(from_le16(b[6], b[7]) == s.values()[3]);
    assert(from_le16(b[8], b[9]) == s.values()[4]);
    assert(from_le16(b[10], b[11]) == s.values()[5]);
    assert(from_le16(b[12], b[13]) == s.values()[6]);
    assert(from_le16(b[14], b[15]) == s.values()[7]);
    assert(from_le16(b[16], b[17]) == s.values()[8]);
    assert(from_le16(b[18], b[19]) == s.values()[9]);
    assert(from_le16(b[20], b[21]) == s.values()[10]);
    assert(from_le16(b[22], b[23]) == s.values()[11]);
    assert(from_le16(b[24], b[25]) == s.values()[12]);
}

/// The `i`-th counter of `data`.
fn read_u16(data: &[u8], i: usize) -> (r: u16)
    requires
        i < 13,
        2 * i + 1 < data@.len(),
    ensures
        r == from_le16(data@[2 * i as int], data@[2 * i + 1]),
{
    let lo = data[i * 2] as u16;
    let hi = data[i * 2 + 1] as u16;
    lo + hi * 256
}

/// How many bytes of a saved game come before its plies.
pub const HEADER_LEN: usize = 21;

/// How many bytes a ply of a saved game takes.
pub const PLY_LEN: usize = 9;

/// The nine bytes of a ply: the square (255 for a pass), then the set of
/// turned discs in eight bytes, the lowest first.
pub open spec fn ply_bytes(e: HistoryEntry) -> Seq<u8> {
    seq![e.pos] + spec_u64_to_le_bytes(e.flipped)
}

/// The bytes of the plies of `h`, one ply after the other.
pub open spec fn plies_bytes(h: Seq<HistoryEntry>) -> Seq<u8>
    decreases h.len(),
{
    if h.len() == 0 {
        Seq::empty()
    } else {
        plies_bytes(h.drop_last()) + ply_bytes(h.last())
    }
}

/// The twenty-one bytes before the plies: the black set and the white set in
/// eight bytes each, the lowest first; the player to move; the colour of the
/// human player; the mode; and the number of plies in two bytes, the low one
/// first.
pub open spec fn header_bytes(g: GameModel, mode: GameMode, color: Player) -> Seq<u8> {
    spec_u64_to_le_bytes(g.board.black) + spec_u64_to_le_bytes(g.board.white) + seq![
        player_byte(g.current),
        player_byte(color),
        mode_byte(mode),
    ] + le16(g.history.len() as u16)
}

/// The bytes in which a game is kept.
pub open spec fn saved_bytes(g: GameModel, mode: GameMode, color: Player) -> Seq<u8> {
    header_bytes(g, mode, color) + plies_bytes(g.history)
}

/// How many plies are read from `data`: as many as its header announces, or
/// as many as it holds in full where those are fewer.
pub open spec fn saved_count(data: Seq<u8>) -> int {
    let announced = from_le16(data[19], data[20]) as int;
    let held = (data.len() - HEADER_LEN) / (PLY_LEN as int);
    if announced < held {
        announced
    } else {
        held
    }
}

/// The squares of the plies that are read from `data`.
pub open spec fn saved_squares(data: Seq<u8>) -> Seq<u8> {
    Seq::new(saved_count(data) as nat, |i: int| data[HEADER_LEN + PLY_LEN * i])
}

/// The byte of `p`.
fn byte_of_player(p: Player) -> (r: u8)
    ensures
        r == player_byte(p),
{
    match p {
        Player::Black => 0,
        Player::White => 1,
    }
}

/// The byte of `mode`.
fn byte_of_mode(mode: GameMode) -> (r: u8)
    ensures
        r == mode_byte(mode),
{
    match mode {
        GameMode::VsCpu(Difficulty::Easy) => 0,
        GameMode::VsCpu(Difficulty::Medium) => 1,
        GameMode::VsCpu(Difficulty::Hard) => 2,
        GameMode::VsCpu(Difficulty::Expert) => 3,
        GameMode::TwoPlayer => 4,
    }
}

/// The bytes in which `game` is kept, with the mode and the colour of the
/// human player.
pub fn encode_game(game: &GameState, mode: GameMode, player_color: Player) -> (r: Vec<u8>)
    ensures
        r@ == saved_bytes(game@, mode, player_color),
{
    let board = game.board();
    let history = game.history();
    let n = history.len();
    let mut out = u64_to_le_bytes(board.black);
    let mut white = u64_to_le_bytes(board.white);
    out.append(&mut white);
    out.push(byte_of_player(game.current_player()));
    out.push(byte_of_player(player_color));
    out.push(byte_of_mode(mode));
    out.push((n % 256) as u8);
    out.push((n / 256) as u8);
    assert(out@ =~= header_bytes(game@, mode, player_color));
    let mut i: usize = 0;
    assert(history@.take(0) =~= Seq::empty());
    while i < n
        invariant
            i <= n,
            n == history@.len(),
            history@ == game@.history,
            out@ == header_bytes(game@, mode, player_color) + plies_bytes(history@.take(i as int)),
        decreases n - i,
    {
        let entry = history[i];
        let ghost before = out@;
        out.push(entry.pos);
        let mut flipped = u64_to_le_bytes(entry.flipped);
        out.append(&mut flipped);
        proof {
            let h = history@.take(i + 1);
            assert(h.drop_last() =~= history@.take(i as int));
            assert(h.last() == entry);
            assert(out@ =~= before + ply_bytes(entry));
            assert(out@ =~= header_bytes(game@, mode, player_color) + plies_bytes(h));
        }
        i += 1;
    }
    assert(history@.take(n as int) =~= history@);
    out
}

/// The game that `data` holds, with its mode and the colour of the human
/// player: nothing where `data` has fewer than twenty-one bytes; else the game
/// that comes of trying the plies read from `data`, one after the other, from a
/// new game.
pub fn decode_game(data: &[u8]) -> (r: Option<(GameState, GameMode, Player)>)
    ensures
        data@.len() < HEADER_LEN ==> r is None,
        data@.len() >= HEADER_LEN ==> (r matches Some(t) && t.0@ == replay_squares(
            saved_squares(data@),
        ) && t.1 == mode_of_byte(data@[18]) && t.2 == player_of_byte(data@[17])),
{
    if data.len() < HEADER_LEN {
        return None;
    }
    let player_color = if data[17] == 0 {
        Player::Black
    } else {
        Player::White
    };
    let code = data[18];
    let mode = if code == 0 {
        GameMode::VsCpu(Difficulty::Easy)
    } else if code == 1 {
        GameMode::VsCpu(Difficulty::Medium)
    } else if code == 2 {
        GameMode::VsCpu(Difficulty::Hard)
    } else if code == 3 {
        GameMode::VsCpu(Difficulty::Expert)
    } else {
        GameMode::TwoPlayer
    };
    let announced = (data[19] as usize) + (data[20] as usize) * 256;
    let held = (data.len() - HEADER_LEN) / PLY_LEN;
    let count = if announced < held {
        announced
    } else {
        held
    };
    let mut game = GameState::new();
    let mut i: usize = 0;
    assert(saved_squares(data@).take(0) =~= Seq::empty());
    while i < count
        invariant
            i <= count,
            count == saved_count(data@),
            data@.len() >= HEADER_LEN,
            count <= (data@.len() - HEADER_LEN) / (PLY_LEN as int),
            game@ == replay_squares(saved_squares(data@).take(i as int)),
        decreases count - i,
    {
        let square = data[HEADER_LEN + PLY_LEN * i];
        proof {
            let s = saved_squares(data@).take(i + 1);
            assert(s.drop_last() =~= saved_squares(data@).take(i as int));
            assert(s.last() == square);
        }
        if square == 255 {
            game.pass();
        } else {
            game.make_move(square);
        }
        i += 1;
    }
    assert(saved_squares(data@).take(count as int) =~= saved_squares(data@));
    Some((game, mode, player_color))
}

/// The plies of `h` take nine bytes each, and the first of each is its square.
pub proof fn lemma_plies_bytes(h: Seq<HistoryEntry>)
    ensures
        plies_bytes(h).len() == PLY_LEN * h.len(),
        forall|i: int| 0 <= i < h.len() ==> plies_bytes(h)[#[trigger] (PLY_LEN * i)] == h[i].pos,
    decreases h.len(),
{
    vstd::bytes::lemma_auto_spec_u64_to_from_le_bytes();
    if h.len() > 0 {
        lemma_plies_bytes(h.drop_last());
        let front = plies_bytes(h.drop_last());
        assert(ply_bytes(h.last()).len() == 9);
        assert forall|i: int| 0 <= i < h.len() implies plies_bytes(h)[#[trigger] (PLY_LEN * i)]
            == h[i].pos by {
            if i < h.len() - 1 {
                assert(plies_bytes(h)[PLY_LEN * i] == front[PLY_LEN * i]);
                assert(h.drop_last()[i] == h[i]);
            } else {
                assert(plies_bytes(h)[PLY_LEN * i] == ply_bytes(h.last())[0]);
            }
        }
    }
}

/// A game of at most 64 plies that is kept and read back comes out as the
/// replay of its plies, with the same mode and the same colour.
pub proof fn lemma_saved_round_trip(g: GameModel, mode: GameMode, color: Player)
    requires
        g.history.len() <= MAX_MOVES,
    ensures
        saved_bytes(g, mode, color).len() == HEADER_LEN + PLY_LEN * g.history.len(),
        mode_of_byte(saved_bytes(g, mode, color)[18]) == mode,
        player_of_byte(saved_bytes(g, mode, color)[17]) == color,
        player_of_byte(saved_bytes(g, mode, color)[16]) == g.current,
        saved_squares(saved_bytes(g, mode, color)) == squares_of(g.history),
        replay_squares(saved_squares(saved_bytes(g, mode, color))) == crate::game::replay(
            g.history,
        ),
{
    vstd::bytes::lemma_auto_spec_u64_to_from_le_bytes();
    lemma_plies_bytes(g.history);
    lemma_replay_squares(g.history);
    let head = header_bytes(g, mode, color);
    let data = saved_bytes(g, mode, color);
    let n = g.history.len() as int;
    assert(head.len() == 21);
    assert(data[16] == player_byte(g.current));
    assert(data[17] == player_byte(color));
    assert(data[18] == mode_byte(mode));
    assert(data[19] == (n % 256) as u8);
    assert(data[20] == (n / 256) as u8);
    assert(from_le16(data[19], data[20]) == n);
    assert(saved_count(data) == n);
    assert forall|i: int| 0 <= i < n implies saved_squares(data)[i] == squares_of(g.history)[i] by {
        assert(data[HEADER_LEN + PLY_LEN * i] == plies_bytes(g.history)[PLY_LEN * i]);
    }
    assert(saved_squares(data) =~= squares_of(g.history));
}

/// How a game against the computer ended for the human player.
#[derive(Debug, Clone, Copy, PartialEq, Eq, Structural)]
pub enum Outcome {
    Win,
    Loss,
    Draw,
}

/// One more than `n`, or `n` itself where it is the largest number that a
/// counter holds.
pub open spec fn bumped(n: u16) -> u16 {
    if n < u16::MAX {
        (n + 1) as u16
    } else {
        n
    }
}

/// How a finished game ended for the player of `color`: a win where they are
/// the winner, a loss where the other player is, a draw where no one is.
pub open spec fn outcome_for(winner: Option<Player>, color: Player) -> Outcome {
    match winner {
        Some(w) => if w == color {
            Outcome::Win
        } else {
            Outcome::Loss
        },
        None => Outcome::Draw,
    }
}

/// How a finished game ended for the player of `color`.
pub fn classify(winner: Option<Player>, color: Player) -> (r: Outcome)
    ensures
        r == outcome_for(winner, color),
{
    match winner {
        Some(w) => {
            if w == color {
                Outcome::Win
            } else {
                Outcome::Loss
            }
        },
        None => Outcome::Draw,
    }
}

/// One more than `n`, as far as a counter holds it.
fn bump(n: u16) -> (r: u16)
    ensures
        r == bumped(n),
{
    if n < u16::MAX {
        n + 1
    } else {
        n
    }
}

impl Statistics {
    /// The statistics with one more game of `mode` that ended in `outcome`: the
    /// counter of that strength and that outcome goes up by one; a game
    /// between two players counts as such, whatever its outcome.
    pub open spec fn with_game(self, mode: GameMode, outcome: Outcome) -> Statistics {
        match (mode, outcome) {
            (GameMode::TwoPlayer, _) => Statistics {
                two_player_games: bumped(self.two_player_games),
                ..self
            },
            (GameMode::VsCpu(Difficulty::Easy), Outcome::Win) => Statistics {
                easy_wins: bumped(self.easy_wins),
                ..self
            },
            (GameMode::VsCpu(Difficulty::Easy), Outcome::Loss) => Statistics {
                easy_losses: bumped(self.easy_losses),
                ..self
            },
            (GameMode::VsCpu(Difficulty::Easy), Outcome::Draw) => Statistics {
                easy_draws: bumped(self.easy_draws),
                ..self
            },
            (GameMode::VsCpu(Difficulty::Medium), Outcome::Win) => Statistics {
                medium_wins: bumped(self.medium_wins),
                ..self
            },
            (GameMode::VsCpu(Difficulty::Medium), Outcome::Loss) => Statistics {
                medium_losses: bumped(self.medium_losses),
                ..self
            },
            (GameMode::VsCpu(Difficulty::Medium), Outcome::Draw) => Statistics {
                medium_draws: bumped(self.medium_draws),
                ..self
            },
            (GameMode::VsCpu(Difficulty::Hard), Outcome::Win) => Statistics {
                hard_wins: bumped(self.hard_wins),
                ..self
            },
            (GameMode::VsCpu(Difficulty::Hard), Outcome::Loss) => Statistics {
                hard_losses: bumped(self.hard_losses),
                ..self
            },
            (GameMode::VsCpu(Difficulty::Hard), Outcome::Draw) => Statistics {
                hard_draws: bumped(self.hard_draws),
                ..self
            },
            (GameMode::VsCpu(Difficulty::Expert), Outcome::Win) => Statistics {
                expert_wins: bumped(self.expert_wins),
                ..self
            },
            (GameMode::VsCpu(Difficulty::Expert), Outcome::Loss) => Statistics {
                expert_losses: bumped(self.expert_losses),
                ..self
            },
            (GameMode::VsCpu(Difficulty::Expert), Outcome::Draw) => Statistics {
                expert_draws: bumped(self.expert_draws),
                ..self
            },
        }
    }

    /// Counts one more game of `mode` that the human player won.
    pub fn update_win(&mut self, mode: GameMode)
        ensures
            *final(self) == old(self).with_game(mode, Outcome::Win),
    {
        match mode {
            GameMode::VsCpu(Difficulty::Easy) => {
                self.easy_wins = bump(self.easy_wins);
            },
            GameMode::VsCpu(Difficulty::Medium) => {
                self.medium_wins = bump(self.medium_wins);
            },
            GameMode::VsCpu(Difficulty::Hard) => {
                self.hard_wins = bump(self.hard_wins);
            },
            GameMode::VsCpu(Difficulty::Expert) => {
                self.expert_wins = bump(self.expert_wins);
            },
            GameMode::TwoPlayer => {
                self.two_player_games = bump(self.two_player_games);
            },
        }
    }

    /// Counts one more game of `mode` that the human player lost.
    pub fn update_loss(&mut self, mode: GameMode)
        ensures
            *final(self) == old(self).with_game(mode, Outcome::Loss),
    {
        match mode {
            GameMode::VsCpu(Difficulty::Easy) => {
                self.easy_losses = bump(self.easy_losses);
            },
            GameMode::VsCpu(Difficulty::Medium) => {
                self.medium_losses = bump(self.medium_losses);
            },
            GameMode::VsCpu(Difficulty::Hard) => {
                self.hard_losses = bump(self.hard_losses);
            },
            GameMode::VsCpu(Difficulty::Expert) => {
                self.expert_losses = bump(self.expert_losses);
            },
            GameMode::TwoPlayer => {
                self.two_player_games = bump(self.two_player_games);
            },
        }
    }

    /// Counts one more game of `mode` that ended in a draw.
    pub fn update_draw(&mut self, mode: GameMode)
        ensures
            *final(self) == old(self).with_game(mode, Outcome::Draw),
    {
        match mode {
            GameMode::VsCpu(Difficulty::Easy) => {
                self.easy_draws = bump(self.easy_draws);
            },
            GameMode::VsCpu(Difficulty::Medium) => {
                self.medium_draws = bump(self.medium_draws);
            },
            GameMode::VsCpu(Difficulty::Hard) => {
                self.hard_draws = bump(self.hard_draws);
            },
            GameMode::VsCpu(Difficulty::Expert) => {
                self.expert_draws = bump(self.expert_draws);
            },
            GameMode::TwoPlayer => {
                self.two_player_games = bump(self.two_player_games);
            },
        }
    }

    /// Counts one more finished game of `mode`, played by the human player with
    /// `color` and won by `winner`.
    pub fn update_for(&mut self, mode: GameMode, color: Player, winner: Option<Player>)
        ensures
            *final(self) == old(self).with_game(mode, outcome_for(winner, color)),
    {
        match classify(winner, color) {
            Outcome::Win => self.update_win(mode),
            Outcome::Loss => self.update_loss(mode),
            Outcome::Draw => self.update_draw(mode),
        }
    }
}

} // verus!
