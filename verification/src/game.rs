//! Screens, progress, and what input does to them.

use vstd::prelude::*;
use vstd::string::StringExecFns;

verus! {

/// The screen that the game shows.
#[derive(Clone, Copy, Debug, PartialEq, Eq, Structural)]
pub enum GameState {
    /// Title screen.
    Intro,
    /// Active puzzle play.
    Playing,
    /// Shown after a puzzle is solved; displays progress before moving on.
    PuzzleComplete,
}

impl Default for GameState {
    fn default() -> (state: Self)
        ensures
            state == GameState::Intro,
    {
        GameState::Intro
    }
}

/// The screen that follows `state`, if it is time to change: any key or mouse
/// button leaves the title screen and the screen after a puzzle, and a board
/// without arrows completes a puzzle.
pub open spec fn successor(state: GameState, pressed: bool, arrows_left: int) -> Option<GameState> {
    match state {
        GameState::Intro => if pressed {
            Some(GameState::Playing)
        } else {
            None
        },
        GameState::Playing => if arrows_left == 0 {
            Some(GameState::PuzzleComplete)
        } else {
            None
        },
        GameState::PuzzleComplete => if pressed {
            Some(GameState::Playing)
        } else {
            None
        },
    }
}

/// The title screen is never shown again, and a puzzle is complete only when
/// its board was played until no arrow was left.
pub proof fn screens_follow_play(state: GameState, pressed: bool, arrows_left: int)
    ensures
        successor(state, pressed, arrows_left) != Some(GameState::Intro),
        successor(state, pressed, arrows_left) == Some(GameState::PuzzleComplete) <==> state
            == GameState::Playing && arrows_left == 0,
{
}

/// The screen to change to from the title screen: play begins with any key or
/// mouse button.
pub fn advance_intro(key_pressed: bool, mouse_pressed: bool) -> (next: Option<GameState>)
    ensures
        next == successor(GameState::Intro, key_pressed || mouse_pressed, 0),
        key_pressed || mouse_pressed ==> next == Some(GameState::Playing),
        !key_pressed && !mouse_pressed ==> next is None,
{
    if key_pressed || mouse_pressed {
        Some(GameState::Playing)
    } else {
        None
    }
}

/// The screen to change to from play: the puzzle is complete once every arrow
/// has left the board.
pub fn check_level_complete(arrows_left: usize) -> (next: Option<GameState>)
    ensures
        next == successor(GameState::Playing, false, arrows_left as int),
        arrows_left == 0 ==> next == Some(GameState::PuzzleComplete),
        arrows_left > 0 ==> next is None,
{
    if arrows_left == 0 {
        Some(GameState::PuzzleComplete)
    } else {
        None
    }
}

/// How far the player has come.
#[derive(Clone, Copy, Debug, PartialEq, Eq, Structural)]
pub struct Progress {
    /// The level being played, counted from zero.
    pub level: u32,
    /// The highest level completed, counted from one; zero if there is none.
    pub highest: u32,
}

impl Default for Progress {
    fn default() -> (progress: Self)
        ensures
            progress == (Progress { level: 0, highest: 0 }),
    {
        Progress { level: 0, highest: 0 }
    }
}

/// The highest completed level after `level`, counted from zero, was completed.
pub open spec fn highest_after(highest: int, level: int) -> int {
    if highest >= level + 1 {
        highest
    } else {
        level + 1
    }
}

impl Progress {
    /// Records that the current level was completed.
    pub fn record_completion(&mut self)
        requires
            old(self).level < u32::MAX,
        ensures
            final(self).level == old(self).level,
            final(self).highest == highest_after(
                old(self).highest as int,
                old(self).level as int,
            ),
            final(self).highest >= old(self).highest,
            final(self).highest > old(self).level,
            final(self).highest == old(self).highest || final(self).highest == old(self).level + 1,
    {
        if self.highest < self.level + 1 {
            self.highest = self.level + 1;
        }
    }

    /// Moves on from a completed puzzle when a key or a mouse button is
    /// pressed: to the next level, which is then played.
    pub fn advance_puzzle_complete(&mut self, key_pressed: bool, mouse_pressed: bool) -> (next:
        Option<GameState>)
        requires
            key_pressed || mouse_pressed ==> old(self).level < u32::MAX,
        ensures
            final(self).highest == old(self).highest,
            final(self).level == old(self).level + (if key_pressed || mouse_pressed {
                1int
            } else {
                0int
            }),
            next == successor(GameState::PuzzleComplete, key_pressed || mouse_pressed, 0),
            key_pressed || mouse_pressed ==> next == Some(GameState::Playing),
            !key_pressed && !mouse_pressed ==> next is None,
    {
        if key_pressed || mouse_pressed {
            self.level = self.level + 1;
            Some(GameState::Playing)
        } else {
            None
        }
    }
}

/// Level and highest level after `n` puzzles have been completed and left, from
/// the level and the highest level before.
pub open spec fn puzzles_played(level: int, highest: int, n: nat) -> (int, int)
    decreases n,
{
    if n == 0 {
        (level, highest)
    } else {
        puzzles_played(level + 1, highest_after(highest, level), (n - 1) as nat)
    }
}

/// The highest level counts the puzzles: a player who starts afresh and
/// completes `n` of them has `n` as highest level, and faces the level that
/// follows.
pub proof fn highest_level_counts_puzzles(n: nat)
    ensures
        puzzles_played(0, 0, n) == (n as int, n as int),
{
    lemma_puzzles_played(0, 0, n);
}

proof fn lemma_puzzles_played(level: int, highest: int, n: nat)
    requires
        level == highest,
    ensures
        puzzles_played(level, highest, n) == (level + n, level + n),
    decreases n,
{
    if n > 0 {
        lemma_puzzles_played(level + 1, highest_after(highest, level), (n - 1) as nat);
    }
}

/// Completing a level never lowers the highest level, and counts that level.
pub proof fn highest_level_never_drops(highest: int, level: int)
    ensures
        highest_after(highest, level) >= highest,
        highest_after(highest, level) >= level + 1,
        highest_after(highest, level) == highest || highest_after(highest, level) == level + 1,
{
}

/// The decimal digit of a number below ten.
pub open spec fn digit(d: nat) -> char {
    (48 + d) as u8 as char
}

/// The decimal notation of `n`.
pub open spec fn decimal(n: nat) -> Seq<char>
    decreases n,
{
    if n < 10 {
        seq![digit(n)]
    } else {
        decimal(n / 10).push(digit(n % 10))
    }
}

/// The number that a row of digits stands for: ten times the number before each
/// digit, and the digit.
pub open spec fn value(digits: Seq<char>) -> int
    decreases digits.len(),
{
    if digits.len() == 0 {
        0
    } else {
        10 * value(digits.drop_last()) + (digits.last() as int - '0' as int)
    }
}

/// The decimal notation of a number stands for that number, consists of digits,
/// and starts with a zero only if it is that digit alone.
pub proof fn notation_stands_for_its_number(n: nat)
    ensures
        value(decimal(n)) == n,
        decimal(n).len() >= 1,
        forall|i: int| 0 <= i < decimal(n).len() ==> '0' <= #[trigger] decimal(n)[i] <= '9',
        decimal(n)[0] == '0' ==> n == 0 && decimal(n).len() == 1,
    decreases n,
{
    if n < 10 {
        assert(seq![digit(n)].drop_last() =~= Seq::<char>::empty());
        assert(value(Seq::<char>::empty()) == 0);
        assert(value(decimal(n)) == 10 * value(decimal(n).drop_last()) + (decimal(n).last() as int
            - '0' as int));
    } else {
        notation_stands_for_its_number(n / 10);
        let front = decimal(n / 10);
        assert(decimal(n) == front.push(digit(n % 10)));
        assert(decimal(n).drop_last() =~= front);
        assert(decimal(n)[0] == front[0]);
        assert forall|i: int| 0 <= i < decimal(n).len() implies '0' <= #[trigger] decimal(n)[i]
            <= '9' by {
            if i < front.len() {
                assert(decimal(n)[i] == front[i]);
            }
        }
    }
}

/// The line that reports the highest level.
pub fn highest_text(highest: u32) -> (text: String)
    ensures
        text@ == "Highest level: "@ + decimal(highest as nat),
        text@.take(15) == "Highest level: "@,
        value(text@.skip(15)) == highest,
        forall|i: int| 15 <= i < text@.len() ==> '0' <= #[trigger] text@[i] <= '9',
        text@.len() >= 16,
        text@[15] == '0' ==> highest == 0 && text@.len() == 16,
{
    proof {
        notation_stands_for_its_number(highest as nat);
        reveal_strlit("Highest level: ");
    }
    let mut text: String = String::from_str("Highest level: ");
    append_decimal(&mut text, highest);
    proof {
        let number = decimal(highest as nat);
        assert(text@.take(15) =~= "Highest level: "@);
        assert(text@.skip(15) =~= number);
        assert forall|i: int| 15 <= i < text@.len() implies '0' <= #[trigger] text@[i] <= '9' by {
            assert(text@[i] == number[i - 15]);
        }
        assert(text@[15] == number[0]);
    }
    text
}

/// Appends the decimal notation of `n`.
fn append_decimal(text: &mut String, n: u32)
    ensures
        final(text)@ == old(text)@ + decimal(n as nat),
    decreases n,
{
    let ghost before = text@;
    if n < 10 {
        append_digit(text, n);
        assert(before.push(digit(n as nat)) =~= before + decimal(n as nat));
    } else {
        append_decimal(text, n / 10);
        append_digit(text, n % 10);
        assert(text@ =~= before + decimal(n as nat));
    }
}

/// Appends the digit of a number below ten.
fn append_digit(text: &mut String, d: u32)
    requires
        d < 10,
    ensures
        final(text)@ == old(text)@.push(digit(d as nat)),
{
    proof {
        reveal_strlit("0");
        reveal_strlit("1");
        reveal_strlit("2");
        reveal_strlit("3");
        reveal_strlit("4");
        reveal_strlit("5");
        reveal_strlit("6");
        reveal_strlit("7");
        reveal_strlit("8");
        reveal_strlit("9");
    }
    let ghost before = text@;
    let s: &str = match d {
        0 => "0",
        1 => "1",
        2 => "2",
        3 => "3",
        4 => "4",
        5 => "5",
        6 => "6",
        7 => "7",
        8 => "8",
        _ => "9",
    };
    assert(s@ =~= seq![digit(d as nat)]);
    text.append(s);
    assert(text@ =~= before.push(digit(d as nat)));
}

} // verus!
