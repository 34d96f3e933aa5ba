//! The record of a game as text.

use vstd::prelude::*;
use vstd::string::*;
use crate::board::Player;
use crate::game::{GameModel, GameResult, GameState, HistoryEntry, PASS, entry_ok};

verus! {

/// The letter of file `col`.
pub open spec fn file_text(col: int) -> Seq<char> {
    if col == 0 {
        "A"@
    } else if col == 1 {
        "B"@
    } else if col == 2 {
        "C"@
    } else if col == 3 {
        "D"@
    } else if col == 4 {
        "E"@
    } else if col == 5 {
        "F"@
    } else if col == 6 {
        "G"@
    } else {
        "H"@
    }
}

/// The digit `d` as text.
pub open spec fn digit_text(d: int) -> Seq<char> {
    if d == 0 {
        "0"@
    } else if d == 1 {
        "1"@
    } else if d == 2 {
        "2"@
    } else if d == 3 {
        "3"@
    } else if d == 4 {
        "4"@
    } else if d == 5 {
        "5"@
    } else if d == 6 {
        "6"@
    } else if d == 7 {
        "7"@
    } else if d == 8 {
        "8"@
    } else {
        "9"@
    }
}

/// The number `n` in decimal digits.
pub open spec fn decimal(n: nat) -> Seq<char>
    decreases n,
{
    if n < 10 {
        digit_text(n as int)
    } else {
        decimal(n / 10) + digit_text((n % 10) as int)
    }
}

/// The number `n` in at least two places, filled with a blank on the left.
pub open spec fn padded(n: nat) -> Seq<char> {
    if n < 10 {
        " "@ + decimal(n)
    } else {
        decimal(n)
    }
}

/// A ply as text: two dashes for a pass, else the file letter and the rank
/// digit of the square.
pub open spec fn ply_text(e: HistoryEntry) -> Seq<char> {
    if e.pos == PASS {
        "--"@
    } else {
        file_text((e.pos % 8) as int) + digit_text(e.pos / 8 + 1)
    }
}

/// The line of the plies `i` and `i + 1`: the number of the pair, a full stop,
/// and the two plies, each after a blank; the second is left out where the game
/// has none.
pub open spec fn pair_line(h: Seq<HistoryEntry>, i: int) -> Seq<char> {
    padded((i / 2 + 1) as nat) + ". "@ + ply_text(h[i]) + " "@ + (if i + 1 < h.len() {
        ply_text(h[i + 1])
    } else {
        Seq::empty()
    }) + "\n"@
}

/// The lines of the first `pairs` pairs of plies.
pub open spec fn pair_lines(h: Seq<HistoryEntry>, pairs: nat) -> Seq<char>
    decreases pairs,
{
    if pairs == 0 {
        Seq::empty()
    } else {
        pair_lines(h, (pairs - 1) as nat) + pair_line(h, 2 * (pairs - 1))
    }
}

/// The line that names the colour of the human player, where one is given.
pub open spec fn player_line(color: Option<Player>) -> Seq<char> {
    match color {
        Some(Player::Black) => "Player: "@ + "Black"@ + "\n"@,
        Some(Player::White) => "Player: "@ + "White"@ + "\n"@,
        None => Seq::empty(),
    }
}

/// The line that tells how the game ended, once it is over.
pub open spec fn result_line(outcome: Option<GameResult>) -> Seq<char> {
    match outcome {
        Some(GameResult::Win(Player::Black, b, w)) => "Result: Black wins "@ + decimal(b as nat)
            + "-"@ + decimal(w as nat) + "\n"@,
        Some(GameResult::Win(Player::White, b, w)) => "Result: White wins "@ + decimal(b as nat)
            + "-"@ + decimal(w as nat) + "\n"@,
        Some(GameResult::Draw(c)) => "Result: Draw "@ + decimal(c as nat) + "-"@ + decimal(
            c as nat,
        ) + "\n"@,
        None => Seq::empty(),
    }
}

/// The heading of a record, the date and the mode, a line each.
pub open spec fn heading_text(mode: Seq<char>, date: Seq<char>) -> Seq<char> {
    "[Othello Game Record]\n"@ + "Date: "@ + date + "\n"@ + "Mode: "@ + mode + "\n"@
}

/// The line of the discs of both players.
pub open spec fn final_line(black: nat, white: nat) -> Seq<char> {
    "\nFinal: \u{25CF} "@ + decimal(black) + " - \u{25CB} "@ + decimal(white) + "\n"@
}

/// The record of a game: a heading, the date, the mode, the colour of the
/// human player where one is given, the result once the game is over, the
/// plies in numbered pairs, and the discs of both players.
pub open spec fn record_text(
    g: GameModel,
    mode: Seq<char>,
    color: Option<Player>,
    date: Seq<char>,
) -> Seq<char> {
    heading_text(mode, date) + player_line(color) + result_line(g.outcome()) + "\nMoves:\n"@
        + pair_lines(g.history, ((g.history.len() + 1) / 2) as nat) + final_line(
        crate::bits::popcount(g.board.black),
        crate::bits::popcount(g.board.white),
    )
}

/// The first `n` plies as text, with a blank between each two.
pub open spec fn compact_text(h: Seq<HistoryEntry>, n: nat) -> Seq<char>
    decreases n,
{
    if n == 0 {
        Seq::empty()
    } else if n == 1 {
        ply_text(h[0])
    } else {
        compact_text(h, (n - 1) as nat) + " "@ + ply_text(h[n - 1])
    }
}

/// The letter of file `col`.
fn file_str(col: u8) -> (r: &'static str)
    ensures
        r@ == file_text(col as int),
{
    if col == 0 {
        "A"
    } else if col == 1 {
        "B"
    } else if col == 2 {
        "C"
    } else if col == 3 {
        "D"
    } else if col == 4 {
        "E"
    } else if col == 5 {
        "F"
    } else if col == 6 {
        "G"
    } else {
        "H"
    }
}

/// The digit `d` as text.
fn digit_str(d: u32) -> (r: &'static str)
    ensures
        r@ == digit_text(d as int),
{
    if d == 0 {
        "0"
    } else if d == 1 {
        "1"
    } else if d == 2 {
        "2"
    } else if d == 3 {
        "3"
    } else if d == 4 {
        "4"
    } else if d == 5 {
        "5"
    } else if d == 6 {
        "6"
    } else if d == 7 {
        "7"
    } else if d == 8 {
        "8"
    } else {
        "9"
    }
}

/// Adds `n` in decimal digits to `out`.
fn push_decimal(out: &mut String, n: u32)
    ensures
        final(out)@ == old(out)@ + decimal(n as nat),
    decreases n,
{
    if n >= 10 {
        push_decimal(out, n / 10);
    }
    out.append(digit_str(n % 10));
    proof {
        if n >= 10 {
            assert(final(out)@ =~= old(out)@ + (decimal((n / 10) as nat) + digit_text(
                (n % 10) as int,
            )));
        }
    }
}

/// Adds the ply `e` as text to `out`.
fn push_ply(out: &mut String, e: &HistoryEntry)
    requires
        entry_ok(*e),
    ensures
        final(out)@ == old(out)@ + ply_text(*e),
{
    if e.is_pass() {
        out.append("--");
    } else {
        out.append(file_str(e.pos % 8));
        out.append(digit_str((e.pos / 8 + 1) as u32));
        proof {
            assert(final(out)@ =~= old(out)@ + (file_text((e.pos % 8) as int) + digit_text(e.pos / 8 + 1)));
        }
    }
}

/// Adds the heading, the date and the mode to `out`.
fn push_heading(out: &mut String, mode: &str, date: &str)
    ensures
        final(out)@ == old(out)@ + heading_text(mode@, date@),
{
    out.append("[Othello Game Record]\n");
    out.append("Date: ");
    out.append(date);
    out.append("\n");
    out.append("Mode: ");
    out.append(mode);
    out.append("\n");
    proof {
        assert(final(out)@ =~= old(out)@ + heading_text(mode@, date@));
    }
}

/// Adds the line of the human player's colour to `out`, where one is given.
fn push_player(out: &mut String, player_color: Option<Player>)
    ensures
        final(out)@ == old(out)@ + player_line(player_color),
{
    match player_color {
        Some(color) => {
            out.append("Player: ");
            match color {
                Player::Black => {
                    out.append("Black");
                },
                Player::White => {
                    out.append("White");
                },
            }
            out.append("\n");
        },
        None => {},
    }
    proof {
        assert(final(out)@ =~= old(out)@ + player_line(player_color));
    }
}

/// Adds the line of the result to `out`, once the game is over.
fn push_result(out: &mut String, outcome: Option<GameResult>)
    ensures
        final(out)@ == old(out)@ + result_line(outcome),
{
    match outcome {
        Some(GameResult::Win(winner, black, white)) => {
            match winner {
                Player::Black => {
                    out.append("Result: Black wins ");
                },
                Player::White => {
                    out.append("Result: White wins ");
                },
            }
            push_decimal(out, black);
            out.append("-");
            push_decimal(out, white);
            out.append("\n");
        },
        Some(GameResult::Draw(count)) => {
            out.append("Result: Draw ");
            push_decimal(out, count);
            out.append("-");
            push_decimal(out, count);
            out.append("\n");
        },
        None => {},
    }
    proof {
        assert(final(out)@ =~= old(out)@ + result_line(outcome));
    }
}

/// Adds the line of the plies `i` and `i + 1` to `out`.
fn push_pair(out: &mut String, history: &[HistoryEntry], i: usize)
    requires
        i < history@.len() <= 64,
        i % 2 == 0,
        forall|k: int| 0 <= k < history@.len() ==> entry_ok(#[trigger] history@[k]),
    ensures
        final(out)@ == old(out)@ + pair_line(history@, i as int),
{
    let number: u32 = (i / 2 + 1) as u32;
    if number < 10 {
        out.append(" ");
    }
    push_decimal(out, number);
    out.append(". ");
    push_ply(out, &history[i]);
    out.append(" ");
    if i + 1 < history.len() {
        push_ply(out, &history[i + 1]);
    }
    out.append("\n");
    proof {
        assert(final(out)@ =~= old(out)@ + pair_line(history@, i as int));
    }
}

/// Adds the lines of all the plies to `out`, two plies to a line.
fn push_pairs(out: &mut String, history: &[HistoryEntry])
    requires
        history@.len() <= 64,
        forall|k: int| 0 <= k < history@.len() ==> entry_ok(#[trigger] history@[k]),
    ensures
        final(out)@ == old(out)@ + pair_lines(history@, ((history@.len() + 1) / 2) as nat),
{
    let n = history.len();
    let mut i: usize = 0;
    assert(out@ =~= old(out)@ + pair_lines(history@, 0));
    while i < n
        invariant
            n == history@.len(),
            n <= 64,
            forall|k: int| 0 <= k < n ==> entry_ok(#[trigger] history@[k]),
            i % 2 == 0,
            i <= n + 1,
            out@ == old(out)@ + pair_lines(history@, (i / 2) as nat),
        decreases n + 1 - i,
    {
        let ghost before = out@;
        push_pair(out, history, i);
        proof {
            assert(((i + 2) / 2) as nat == (i / 2) as nat + 1);
            assert(2 * ((i / 2) as nat) == i);
            assert(out@ =~= old(out)@ + pair_lines(history@, ((i + 2) / 2) as nat));
        }
        i += 2;
    }
    proof {
        assert((i / 2) as nat == ((n + 1) / 2) as nat);
    }
}

/// Adds the line of the discs of both players to `out`.
fn push_final(out: &mut String, black: u32, white: u32)
    ensures
        final(out)@ == old(out)@ + final_line(black as nat, white as nat),
{
    out.append("\nFinal: \u{25CF} ");
    push_decimal(out, black);
    out.append(" - \u{25CB} ");
    push_decimal(out, white);
    out.append("\n");
    proof {
        assert(final(out)@ =~= old(out)@ + final_line(black as nat, white as nat));
    }
}

/// The record of `game` as text, with the mode and the date as given and the
/// colour of the human player where there is one.
pub fn format_game_record(
    game: &GameState,
    mode: &str,
    player_color: Option<Player>,
    date: &str,
) -> (r: String)
    ensures
        r@ == record_text(game@, mode@, player_color, date@),
{
    let mut output = String::new();
    push_heading(&mut output, mode, date);
    push_player(&mut output, player_color);
    push_result(&mut output, game.result());
    output.append("\nMoves:\n");
    push_pairs(&mut output, game.history());
    let (black, white) = game.counts();
    push_final(&mut output, black, white);
    proof {
        assert(output@ =~= record_text(game@, mode@, player_color, date@));
    }
    output
}

/// The plies of `game` as text, with a blank between each two.
pub fn format_compact(game: &GameState) -> (r: String)
    ensures
        r@ == compact_text(game@.history, game@.history.len()),
{
    let history = game.history();
    let n = history.len();
    let mut output = String::new();
    let mut i: usize = 0;
    while i < n
        invariant
            i <= n,
            n == history@.len(),
            history@ == game@.history,
            forall|k: int| 0 <= k < n ==> entry_ok(#[trigger] history@[k]),
            output@ == compact_text(history@, i as nat),
        decreases n - i,
    {
        let ghost before = output@;
        if i > 0 {
            output.append(" ");
        }
        push_ply(&mut output, &history[i]);
        proof {
            if i > 0 {
                assert(output@ =~= before + " "@ + ply_text(history@[i as int]));
            } else {
                assert(output@ =~= ply_text(history@[0]));
            }
        }
        i += 1;
    }
    output
}

} // verus!
