//! What the keys do: the decisions of the interactive front end, apart from
//! the terminal that it reads and draws on.

use vstd::prelude::*;

verus! {

/// A step of the cursor.
#[derive(Clone, Copy, Debug, PartialEq, Eq)]
pub enum Move {
    /// One column to the left.
    Left,
    /// One column to the right.
    Right,
    /// One row up.
    Up,
    /// One row down.
    Down,
}

/// What a key, or a sequence of keys, asks for.
#[derive(Clone, Copy, Debug, PartialEq, Eq)]
pub enum Action {
    /// Switch between writing across and writing down.
    ToggleDirection,
    /// Fill the grid.
    Solve,
    /// Empty the square under the cursor, opening it if it is a wall.
    Clear,
    /// Close the square under the cursor.
    Remove,
    /// Put a letter in the square under the cursor.
    Fix(char),
    /// Move the cursor.
    Step(Move),
    /// Do nothing.
    Nothing,
    /// Say that the sequence of escape, the first byte and the second is not known.
    UnknownSequence(u8, u8),
    /// Say that escape followed by the byte is not known.
    UnknownEscape(u8),
    /// Say that the key is not known.
    Unrecognized,
}

/// How far into a sequence of keys the reader is.
#[derive(Clone, Copy, Debug, PartialEq, Eq)]
pub enum KeyState {
    /// At the start of a key.
    Ready,
    /// After escape.
    Escape,
    /// After escape and an opening bracket.
    Bracket,
}

/// The upper-case form of a byte read as a character.
pub open spec fn upper(b: u8) -> char {
    if 0x61 <= b <= 0x7a {
        (b - 0x20) as char
    } else {
        b as char
    }
}

/// What the reader does with the byte `input` in the state `state`: the state that it
/// goes to, and what the keys so far ask for, if they are complete.
pub open spec fn key_outcome(state: KeyState, input: u8) -> (KeyState, Option<Action>) {
    match state {
        KeyState::Ready => if input == 0x09 {
            (KeyState::Ready, Some(Action::ToggleDirection))
        } else if input == 0x0a {
            (KeyState::Ready, Some(Action::Solve))
        } else if input == 0x20 {
            (KeyState::Ready, Some(Action::Clear))
        } else if input == 0x7f {
            (KeyState::Ready, Some(Action::Remove))
        } else if 0x61 <= input <= 0x80 {
            (KeyState::Ready, Some(Action::Fix(upper(input))))
        } else if input == 0x1b {
            (KeyState::Escape, None)
        } else {
            (KeyState::Ready, Some(Action::Unrecognized))
        },
        KeyState::Escape => if input == 0x5b {
            (KeyState::Bracket, None)
        } else {
            (KeyState::Ready, Some(Action::UnknownEscape(input)))
        },
        KeyState::Bracket => if input == 0x44 {
            (KeyState::Ready, Some(Action::Step(Move::Left)))
        } else if input == 0x43 {
            (KeyState::Ready, Some(Action::Step(Move::Right)))
        } else if input == 0x5b {
            (KeyState::Ready, Some(Action::Nothing))
        } else if input == 0x41 {
            (KeyState::Ready, Some(Action::Step(Move::Up)))
        } else if input == 0x42 {
            (KeyState::Ready, Some(Action::Step(Move::Down)))
        } else {
            (KeyState::Ready, Some(Action::UnknownSequence(0x5b, input)))
        },
    }
}

/// Takes the byte `input` in the state `state`.
pub fn key(state: KeyState, input: u8) -> (r: (KeyState, Option<Action>))
    ensures
        r == key_outcome(state, input),
{
    match state {
        KeyState::Ready => {
            if input == 0x09 {
                (KeyState::Ready, Some(Action::ToggleDirection))
            } else if input == 0x0a {
                (KeyState::Ready, Some(Action::Solve))
            } else if input == 0x20 {
                (KeyState::Ready, Some(Action::Clear))
            } else if input == 0x7f {
                (KeyState::Ready, Some(Action::Remove))
            } else if 0x61 <= input && input <= 0x7a {
                (KeyState::Ready, Some(Action::Fix((input - 0x20) as char)))
            } else if 0x7b <= input && input <= 0x80 {
                (KeyState::Ready, Some(Action::Fix(input as char)))
            } else if input == 0x1b {
                (KeyState::Escape, None)
            } else {
                (KeyState::Ready, Some(Action::Unrecognized))
            }
        },
        KeyState::Escape => {
            if input == 0x5b {
                (KeyState::Bracket, None)
            } else {
                (KeyState::Ready, Some(Action::UnknownEscape(input)))
            }
        },
        KeyState::Bracket => {
            if input == 0x44 {
                (KeyState::Ready, Some(Action::Step(Move::Left)))
            } else if input == 0x43 {
                (KeyState::Ready, Some(Action::Step(Move::Right)))
            } else if input == 0x5b {
                (KeyState::Ready, Some(Action::Nothing))
            } else if input == 0x41 {
                (KeyState::Ready, Some(Action::Step(Move::Up)))
            } else if input == 0x42 {
                (KeyState::Ready, Some(Action::Step(Move::Down)))
            } else {
                (KeyState::Ready, Some(Action::UnknownSequence(0x5b, input)))
            }
        },
    }
}

/// The cursor kept on the board: not left of column 1, not above row 2.
pub fn clamp_cursor(x: i32, y: i32) -> (r: (i32, i32))
    ensures
        r.0 == if x < 1 {
            1
        } else {
            x as int
        },
        r.1 == if y < 2 {
            2
        } else {
            y as int
        },
{
    (
        if x < 1 {
            1
        } else {
            x
        },
        if y < 2 {
            2
        } else {
            y
        },
    )
}

/// The cursor one step on.
pub fn step_cursor(x: i32, y: i32, step: Move) -> (r: (i32, i32))
    requires
        step == Move::Left ==> x > i32::MIN,
        step == Move::Right ==> x < i32::MAX,
        step == Move::Up ==> y > i32::MIN,
        step == Move::Down ==> y < i32::MAX,
    ensures
        r == match step {
            Move::Left => ((x - 1) as i32, y),
            Move::Right => ((x + 1) as i32, y),
            Move::Up => (x, (y - 1) as i32),
            Move::Down => (x, (y + 1) as i32),
        },
{
    match step {
        Move::Left => (x - 1, y),
        Move::Right => (x + 1, y),
        Move::Up => (x, y - 1),
        Move::Down => (x, y + 1),
    }
}

/// The square under a cursor that is on the board: the board is drawn one row down.
pub fn square_under(x: i32, y: i32) -> (r: (usize, usize))
    requires
        x >= 1,
        y >= 2,
    ensures
        r.0 == x,
        r.1 == y - 1,
{
    (x as usize, (y - 1) as usize)
}

/// Where the focus goes among `focusable.len()` views, of which `focus - 1` has it now;
/// `0` is before the first view and `focusable.len() + 1` after the last. Forward, it
/// goes to the next view that takes the focus, backward to the one before; where there
/// is none, it goes off that end.
pub open spec fn focus_after(focus: int, focusable: Seq<bool>, forward: bool, to: int) -> bool {
    if forward {
        &&& to <= focusable.len() + 1
        &&& focus < to || to == focusable.len() + 1
        &&& to <= focusable.len() ==> focusable[to - 1]
        &&& forall|i: int| focus <= i < to - 1 && 0 <= i < focusable.len() ==> !focusable[i]
        &&& focus >= focusable.len() ==> to == focusable.len() + 1
    } else {
        &&& 0 <= to
        &&& to < focus || to == 0
        &&& to >= 1 ==> focusable[to - 1]
        &&& forall|i: int| to <= i < focus - 1 && 0 <= i < focusable.len() ==> !focusable[i]
    }
}

/// Moves the focus on. Returns where it is then, and whether a view has it.
pub fn next_focus(focus: usize, focusable: &Vec<bool>, forward: bool) -> (r: (usize, bool))
    requires
        focus <= focusable@.len() + 1,
        focusable@.len() < usize::MAX,
    ensures
        focus_after(focus as int, focusable@, forward, r.0 as int),
        r.1 == (1 <= r.0 <= focusable@.len()),
{
    let mut at = focus;
    if forward {
        while at < focusable.len()
            invariant
                forward,
                focus <= at <= focusable@.len() || (at == focus && focus == focusable@.len() + 1),
                forall|i: int| focus <= i < at && 0 <= i < focusable@.len() ==> !focusable@[i],
            decreases focusable@.len() - at,
        {
            at = at + 1;
            if focusable[at - 1] {
                return (at, true);
            }
        }
        (focusable.len() + 1, false)
    } else {
        while at > 1
            invariant
                !forward,
                at <= focus,
                focus <= focusable@.len() + 1,
                forall|i: int| at - 1 <= i < focus - 1 && 0 <= i < focusable@.len() ==> !focusable@[i],
            decreases at,
        {
            at = at - 1;
            if focusable[at - 1] {
                return (at, true);
            }
        }
        (0, false)
    }
}

} // verus!
