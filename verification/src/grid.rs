//! The grid: the squares that are open, each empty or with a letter, and the
//! shapes that grids are made in.

use crate::dictionary::Dictionary;
use crate::engine::{
    determined, fits_only, pin_outcome, slots_have_words, Engine, SolveResult,
};
use crate::letters::{index_letter, letter_index};
use crate::model::{
    all_chosen, chosen, committed, extends, initial, is_solution, joint, keeps, letter_of,
    lemma_committed_complete, lemma_committed_frame, lemma_solution_letter_fits, solution_of,
    State,
};
use crate::puzzle::lemma_built_unique;
use crate::search::{found, Found};
use crate::puzzle::PuzzleView;
use crate::puzzle::{at, built_from, distinct, find, occupied, Puzzle};
use vstd::prelude::*;

verus! {

/// What an open square holds.
#[derive(Clone, Copy, Debug, PartialEq, Eq)]
pub enum Square {
    /// No letter.
    Empty,
    /// A letter that the user has put in.
    Fixed(char),
    /// A letter that a search has put in.
    Solved(char),
}

/// An open square: its coordinates, column first, and what it holds.
pub type Entry = ((usize, usize), Square);

/// A grid of open squares. Places without a square are walls.
pub struct Grid {
    squares: Vec<Entry>,
}

/// The coordinates of the squares.
pub open spec fn coords_of(entries: Seq<Entry>) -> Seq<(usize, usize)> {
    Seq::new(entries.len(), |i: int| entries[i].0)
}

/// What the square at `(x, y)` holds, if there is one.
pub open spec fn square_at(entries: Seq<Entry>, x: int, y: int) -> Option<Square> {
    if occupied(coords_of(entries), (x, y)) {
        Some(
            entries[choose|i: int|
                0 <= i < entries.len() && #[trigger] at(coords_of(entries), i) == (x, y)].1,
        )
    } else {
        None
    }
}

impl View for Grid {
    type V = Seq<Entry>;

    /// The open squares.
    closed spec fn view(&self) -> Seq<Entry> {
        self.squares@
    }
}

impl Grid {
    /// No two squares have the same coordinates.
    pub open spec fn wf(&self) -> bool {
        distinct(coords_of(self@))
    }

    /// The grid has a square at `(x, y)`.
    pub open spec fn has(&self, x: int, y: int) -> bool {
        occupied(coords_of(self@), (x, y))
    }

    /// The entry of a square is what the grid holds at the square's coordinates.
    pub proof fn lemma_square_at(&self, i: int)
        requires
            self.wf(),
            0 <= i < self@.len(),
        ensures
            self.has(self@[i].0.0 as int, self@[i].0.1 as int),
            square_at(self@, self@[i].0.0 as int, self@[i].0.1 as int) == Some(self@[i].1),
    {
        let c = coords_of(self@);
        let x = self@[i].0.0 as int;
        let y = self@[i].0.1 as int;
        assert(at(c, i) == (x, y));
        let j = choose|j: int| 0 <= j < self@.len() && #[trigger] at(c, j) == (x, y);
        if i != j {
            if i < j {
                assert(at(c, i) != at(c, j));
            } else {
                assert(at(c, j) != at(c, i));
            }
        }
    }

    /// The empty grid.
    pub fn new() -> (g: Grid)
        ensures
            g.wf(),
            g@.len() == 0,
    {
        Grid { squares: Vec::new() }
    }

    /// The open squares.
    pub fn squares(&self) -> (s: &Vec<Entry>)
        ensures
            s@ == self@,
    {
        &self.squares
    }

    /// The index of the square at `(x, y)`, if there is one.
    fn index_of(&self, x: usize, y: usize) -> (r: Option<usize>)
        ensures
            match r {
                Some(i) => i < self@.len() && self@[i as int].0 == (x, y) && self.has(
                    x as int,
                    y as int,
                ),
                None => !self.has(x as int, y as int),
            },
    {
        let mut i: usize = 0;
        while i < self.squares.len()
            invariant
                i <= self@.len(),
                forall|j: int| 0 <= j < i ==> #[trigger] at(coords_of(self@), j) != (x as int, y as int),
            decreases self@.len() - i,
        {
            let entry = self.squares[i];
            if entry.0.0 == x && entry.0.1 == y {
                assert(at(coords_of(self@), i as int) == (x as int, y as int));
                return Some(i);
            }
            assert(at(coords_of(self@), i as int) != (x as int, y as int));
            i = i + 1;
        }
        None
    }

    /// What the square at `(x, y)` holds, if there is one.
    pub fn get(&self, x: usize, y: usize) -> (r: Option<Square>)
        requires
            self.wf(),
        ensures
            r == square_at(self@, x as int, y as int),
    {
        match self.index_of(x, y) {
            Some(i) => {
                proof {
                    self.lemma_square_at(i as int);
                }
                Some(self.squares[i].1)
            },
            None => None,
        }
    }

    /// Opens the square at `(x, y)`, or changes what it holds, to `square`.
    pub fn set_square(&mut self, x: usize, y: usize, square: Square)
        requires
            old(self).wf(),
        ensures
            final(self).wf(),
            square_at(final(self)@, x as int, y as int) == Some(square),
            forall|u: int, v: int|
                (u, v) != (x as int, y as int) ==> #[trigger] square_at(final(self)@, u, v)
                    == square_at(old(self)@, u, v),
    {
        let ghost before = self@;
        match self.index_of(x, y) {
            Some(i) => {
                self.squares.set(i, ((x, y), square));
                proof {
                    assert(coords_of(self@) =~= coords_of(before));
                    self.lemma_square_at(i as int);
                    assert forall|u: int, v: int| (u, v) != (x as int, y as int) implies #[trigger] square_at(
                        self@,
                        u,
                        v,
                    ) == square_at(before, u, v) by {
                        if occupied(coords_of(before), (u, v)) {
                            let j = choose|j: int|
                                0 <= j < before.len() && #[trigger] at(coords_of(before), j) == (u, v);
                            assert(j != i);
                            assert(self@[j] == before[j]);
                        }
                    }
                }
            },
            None => {
                self.squares.push(((x, y), square));
                proof {
                    let c = coords_of(self@);
                    let n = before.len() as int;
                    assert forall|i: int, j: int| 0 <= i < j < c.len() implies at(c, i) != at(c, j) by {
                        if j < n {
                            assert(at(coords_of(before), i) != at(coords_of(before), j));
                        } else {
                            assert(at(coords_of(before), i) != (x as int, y as int));
                        }
                    }
                    assert(at(c, n) == (x as int, y as int));
                    self.lemma_square_at(n);
                    assert forall|u: int, v: int| (u, v) != (x as int, y as int) implies #[trigger] square_at(
                        self@,
                        u,
                        v,
                    ) == square_at(before, u, v) by {
                        if occupied(coords_of(before), (u, v)) {
                            let j = choose|j: int|
                                0 <= j < before.len() && #[trigger] at(coords_of(before), j) == (u, v);
                            assert(at(c, j) == (u, v));
                            self.lemma_square_at(j);
                        } else if occupied(c, (u, v)) {
                            let j = choose|j: int| 0 <= j < c.len() && #[trigger] at(c, j) == (u, v);
                            assert(j < n);
                            assert(at(coords_of(before), j) == (u, v));
                        }
                    }
                }
            },
        }
    }

    /// Closes the square at `(x, y)`, if it is open. Returns whether it was.
    pub fn remove_square(&mut self, x: usize, y: usize) -> (was: bool)
        requires
            old(self).wf(),
        ensures
            final(self).wf(),
            was == old(self).has(x as int, y as int),
            square_at(final(self)@, x as int, y as int) is None,
            forall|u: int, v: int|
                (u, v) != (x as int, y as int) ==> #[trigger] square_at(final(self)@, u, v)
                    == square_at(old(self)@, u, v),
    {
        let ghost before = self@;
        match self.index_of(x, y) {
            Some(i) => {
                self.squares.remove(i);
                proof {
                    let c = coords_of(self@);
                    let b = coords_of(before);
                    assert(self@ == before.remove(i as int));
                    assert forall|k: int| 0 <= k < c.len() implies #[trigger] at(c, k) == at(
                        b,
                        if k < i {
                            k
                        } else {
                            k + 1
                        },
                    ) by {}
                    assert forall|k: int, j: int| 0 <= k < j < c.len() implies at(c, k) != at(c, j) by {
                        let k2 = if k < i { k } else { k + 1 };
                        let j2 = if j < i { j } else { j + 1 };
                        assert(at(b, k2) != at(b, j2));
                    }
                    assert(at(b, i as int) == (x as int, y as int));
                    assert forall|k: int| 0 <= k < c.len() implies #[trigger] at(c, k) != (
                    x as int, y as int) by {
                        let k2 = if k < i { k } else { k + 1 };
                        if k2 < i {
                            assert(at(b, k2) != at(b, i as int));
                        } else {
                            assert(at(b, i as int) != at(b, k2));
                        }
                    }
                    assert forall|u: int, v: int| (u, v) != (x as int, y as int) implies #[trigger] square_at(
                        self@,
                        u,
                        v,
                    ) == square_at(before, u, v) by {
                        if occupied(b, (u, v)) {
                            let j = choose|j: int| 0 <= j < b.len() && #[trigger] at(b, j) == (u, v);
                            assert(j != i);
                            let j2 = if j < i { j } else { j - 1 };
                            assert(at(c, j2) == (u, v));
                            self.lemma_square_at(j2);
                        } else if occupied(c, (u, v)) {
                            let j = choose|j: int| 0 <= j < c.len() && #[trigger] at(c, j) == (u, v);
                            let j2 = if j < i { j } else { j + 1 };
                            assert(at(b, j2) == (u, v));
                        }
                    }
                }
                true
            },
            None => false,
        }
    }

    /// The rectangle of `width` columns and `height` rows of empty squares, from
    /// `(1, 1)` on.
    pub fn new_rectangle(width: usize, height: usize) -> (g: Grid)
        ensures
            g.wf(),
            forall|x: int, y: int|
                #[trigger] g.has(x, y) <==> (1 <= x <= width && 1 <= y <= height),
            forall|i: int| 0 <= i < g@.len() ==> (#[trigger] g@[i]).1 == Square::Empty,
    {
        let mut squares: Vec<Entry> = Vec::new();
        let mut y: usize = 0;
        while y < height
            invariant
                y <= height,
                distinct(coords_of(squares@)),
                forall|i: int| 0 <= i < squares@.len() ==> (#[trigger] squares@[i]).1 == Square::Empty,
                forall|u: int, v: int|
                    #[trigger] occupied(coords_of(squares@), (u, v)) <==> (1 <= u <= width && 1 <= v
                        <= y),
            decreases height - y,
        {
            y = y + 1;
            let mut x: usize = 0;
            while x < width
                invariant
                    x <= width,
                    1 <= y <= height,
                    distinct(coords_of(squares@)),
                    forall|i: int|
                        0 <= i < squares@.len() ==> (#[trigger] squares@[i]).1 == Square::Empty,
                    forall|u: int, v: int|
                        #[trigger] occupied(coords_of(squares@), (u, v)) <==> (1 <= u <= width && (1
                            <= v < y || (v == y && u <= x))),
                decreases width - x,
            {
                x = x + 1;
                let ghost before = squares@;
                squares.push(((x, y), Square::Empty));
                proof {
                    lemma_pushed(before, ((x, y), Square::Empty));
                }
            }
        }
        Grid { squares }
    }
}

/// The letter that a square shows, if any.
pub open spec fn shown(square: Square) -> Option<char> {
    match square {
        Square::Empty => None,
        Square::Fixed(ch) => Some(ch),
        Square::Solved(ch) => Some(ch),
    }
}

/// The assignment `sol` of words to the slots of `p` has each fixed letter of the grid
/// in its square.
pub open spec fn fixed_kept(d: Seq<Seq<u8>>, entries: Seq<Entry>, p: PuzzleView, sol: Seq<u32>) -> bool {
    forall|i: int|
        0 <= i < entries.len() ==> match (#[trigger] entries[i]).1 {
            Square::Fixed(ch) => letter_index(ch) == Some(letter_of(d, p, sol, i)),
            _ => true,
        }
}

/// Every square shows the letter that the assignment `sol` puts in it.
pub open spec fn filled_by(d: Seq<Seq<u8>>, entries: Seq<Entry>, p: PuzzleView, sol: Seq<u32>) -> bool {
    forall|i: int|
        0 <= i < entries.len() ==> shown((#[trigger] entries[i]).1) == Some(
            index_letter(letter_of(d, p, sol, i)),
        )
}

/// The letters that a search has put in are in every fill that keeps the fixed letters.
pub open spec fn solved_in_every_fill(
    d: Seq<Seq<u8>>,
    before: Seq<Entry>,
    after: Seq<Entry>,
    p: PuzzleView,
) -> bool {
    forall|sol: Seq<u32>, i: int|
        #![trigger is_solution(d, p, sol), after[i]]
        is_solution(d, p, sol) && fixed_kept(d, before, p, sol) && 0 <= i < after.len() ==> match after[i].1 {
            Square::Solved(ch) => letter_index(ch) == Some(letter_of(d, p, sol, i)),
            _ => true,
        }
}

/// How filling a grid ended.
#[derive(Clone, Copy, Debug, PartialEq, Eq)]
pub enum Fill {
    /// Every square has a letter.
    Solved,
    /// The search ran out of budget.
    Incomplete,
    /// The search found that no fill keeps the fixed letters.
    Unsolvable,
    /// A slot has a length that no word has, or a fixed letter is refused: no fill
    /// keeps the fixed letters, and the grid is left as it was.
    Refused,
}

/// How filling the grid `before`, which left the grid `after`, may have ended with `r`.
pub open spec fn fill_outcome(d: Seq<Seq<u8>>, before: Seq<Entry>, after: Seq<Entry>, r: Fill) -> bool {
    exists|p: PuzzleView| #[trigger]
        built_from(p, coords_of(before)) && match r {
            Fill::Solved => exists|sol: Seq<u32>| #[trigger]
                is_solution(d, p, sol) && fixed_kept(d, before, p, sol) && filled_by(
                    d,
                    after,
                    p,
                    sol,
                ),
            Fill::Unsolvable => unfixed_are_empty(after) && forall|sol: Seq<u32>| #[trigger]
                is_solution(d, p, sol) ==> !fixed_kept(d, before, p, sol),
            Fill::Refused => after == before && forall|sol: Seq<u32>| #[trigger]
                is_solution(d, p, sol) ==> !fixed_kept(d, before, p, sol),
            Fill::Incomplete => solved_in_every_fill(d, before, after, p),
        }
}

/// Every square without a fixed letter is empty.
pub open spec fn unfixed_are_empty(entries: Seq<Entry>) -> bool {
    forall|i: int|
        0 <= i < entries.len() ==> (#[trigger] entries[i]).1 is Fixed || entries[i].1
            == Square::Empty
}

/// The puzzle of the grid with the squares `entries`.
pub open spec fn puzzle_of(entries: Seq<Entry>) -> PuzzleView {
    choose|p: PuzzleView| built_from(p, coords_of(entries))
}

/// The state of the search once the fixed letters of the first `k` squares are pinned,
/// in order; `None` where one of them is refused.
pub open spec fn pinned(d: Seq<Seq<u8>>, p: PuzzleView, entries: Seq<Entry>, k: nat) -> Option<State>
    decreases k,
{
    if k == 0 {
        Some(initial(d, p))
    } else {
        match pinned(d, p, entries, (k - 1) as nat) {
            None => None,
            Some(s) => match entries[k - 1].1 {
                Square::Fixed(ch) => match pin_outcome(d, p, s, k - 1, ch) {
                    Ok(_) => committed(d, p, s, k - 1, letter_index(ch)->0),
                    Err(_) => None,
                },
                _ => Some(s),
            },
        }
    }
}

/// Once a fixed letter is refused, the letters after it do not matter.
pub proof fn lemma_pinned_refused(d: Seq<Seq<u8>>, p: PuzzleView, entries: Seq<Entry>, k: nat, n: nat)
    requires
        k <= n,
        pinned(d, p, entries, k) is None,
    ensures
        pinned(d, p, entries, n) is None,
    decreases n,
{
    if k < n {
        lemma_pinned_refused(d, p, entries, k, (n - 1) as nat);
    }
}

/// The only letter that the distribution counts, if it counts a single one.
pub open spec fn only_letter(dist: Seq<u64>) -> Option<u8> {
    if exists|l: u8| fits_only(dist, l) {
        Some(choose|l: u8| fits_only(dist, l))
    } else {
        None
    }
}

/// What a square holds after a search that found the letter `letter` for it, or none:
/// a fixed letter stays, and any other square shows what the search found.
pub open spec fn square_after(before: Square, letter: Option<u8>) -> Square {
    match before {
        Square::Fixed(_) => before,
        _ => match letter {
            Some(l) => Square::Solved(index_letter(l)),
            None => Square::Empty,
        },
    }
}

/// How filling the grid with the squares `entries` ends, and the squares that it leaves.
///
/// The fixed letters are pinned in the order of the squares, and from there the grid
/// is searched. A fill leaves its letters in the squares; a search that ran out of
/// budget the letters that are the only ones to fit their squares.
pub open spec fn fill_view(d: Seq<Seq<u8>>, entries: Seq<Entry>, budget: nat) -> (Fill, Seq<Entry>) {
    let p = puzzle_of(entries);
    if !slots_have_words(d, p) {
        (Fill::Refused, entries)
    } else {
        match pinned(d, p, entries, entries.len()) {
            None => (Fill::Refused, entries),
            Some(s) => match found(d, p, s, budget) {
                Found::Solved(t) => (
                    Fill::Solved,
                    Seq::new(
                        entries.len(),
                        |i: int| (entries[i].0, square_after(entries[i].1, t.choices[i])),
                    ),
                ),
                Found::DeadEnd => (
                    Fill::Unsolvable,
                    Seq::new(entries.len(), |i: int| (entries[i].0, square_after(entries[i].1, None))),
                ),
                Found::OutOfBudget => (
                    Fill::Incomplete,
                    Seq::new(
                        entries.len(),
                        |i: int|
                            (entries[i].0, square_after(entries[i].1, only_letter(joint(d, p, s, i)))),
                    ),
                ),
            },
        }
    }
}

/// The cells' letters are the letters that the squares fix, each of which is a letter.
pub open spec fn fixed_only(entries: Seq<Entry>, choices: Seq<Option<u8>>) -> bool {
    choices.len() == entries.len() && forall|c: int|
        0 <= c < entries.len() ==> #[trigger] choices[c] == fixed_choice(entries[c].1) && (
        entries[c].1 is Fixed ==> choices[c] is Some)
}

/// A solution that keeps the fixed letters has the letters of the cells, where these
/// are the letters that the squares fix.
pub proof fn lemma_fixed_kept_extends(
    d: Seq<Seq<u8>>,
    p: PuzzleView,
    entries: Seq<Entry>,
    choices: Seq<Option<u8>>,
    sol: Seq<u32>,
)
    requires
        p.cells.len() == entries.len(),
        fixed_only(entries, choices),
        fixed_kept(d, entries, p, sol),
    ensures
        extends(d, p, sol, choices),
{
    assert forall|c: int| 0 <= c < p.cells.len() implies match #[trigger] choices[c] {
        Some(x) => letter_of(d, p, sol, c) == x,
        None => true,
    } by {
        assert(choices[c] == fixed_choice(entries[c].1));
        assert(match entries[c].1 {
            Square::Fixed(ch) => letter_index(ch) == Some(letter_of(d, p, sol, c)),
            _ => true,
        });
    }
}

/// Where a slot has a length that no word has, the grid has no fill.
pub proof fn lemma_no_words_no_fill(d: Seq<Seq<u8>>, p: PuzzleView, entries: Seq<Entry>)
    requires
        crate::dictionary::valid_dictionary(d),
        !slots_have_words(d, p),
    ensures
        forall|sol: Seq<u32>| #[trigger] is_solution(d, p, sol) ==> !fixed_kept(d, entries, p, sol),
{
    assert forall|sol: Seq<u32>| #[trigger] is_solution(d, p, sol) implies !fixed_kept(
        d,
        entries,
        p,
        sol,
    ) by {
        let li = choose|li: int|
            0 <= li < p.lines.len() && crate::indices::ids_of_length(
                d,
                (#[trigger] p.lines[li]).len(),
            ).len() == 0;
        let len = p.lines[li].len();
        crate::indices::lemma_matching(d, d.len(), crate::indices::has_length(len));
        let ids = crate::indices::ids_of_length(d, len);
        assert(crate::indices::has_length(len)(d[sol[li] as int]) == (d[sol[li] as int].len() == len));
        assert(ids.contains(sol[li]));
    }
}

/// The squares that a search has filled show a fill that keeps the fixed letters.
pub proof fn lemma_fill_is_fill(
    d: Seq<Seq<u8>>,
    p: PuzzleView,
    entries: Seq<Entry>,
    fixed: Seq<Option<u8>>,
    last: State,
    after: Seq<Entry>,
)
    requires
        p.cells.len() == entries.len(),
        fixed_only(entries, fixed),
        all_chosen(last),
        crate::model::keeps_choices(fixed, last.choices),
        is_solution(d, p, solution_of(last)),
        extends(d, p, solution_of(last), last.choices),
        after == Seq::new(
            entries.len(),
            |i: int| (entries[i].0, square_after(entries[i].1, last.choices[i])),
        ),
    ensures
        fixed_kept(d, entries, p, solution_of(last)),
        filled_by(d, after, p, solution_of(last)),
{
    let sol = solution_of(last);
    assert forall|k: int|
        #![trigger entries[k]]
        #![trigger after[k]]
        0 <= k < entries.len() implies match entries[k].1 {
        Square::Fixed(ch) => letter_index(ch) == Some(letter_of(d, p, sol, k)),
        _ => true,
    } && shown(after[k].1) == Some(index_letter(letter_of(d, p, sol, k))) by {
        assert(last.choices[k] is Some);
        match entries[k].1 {
            Square::Fixed(ch) => {
                assert(fixed[k] == fixed_choice(entries[k].1) && fixed[k] is Some);
                assert(last.choices[k] == fixed[k]);
                lemma_letter_round_trip(ch);
            },
            _ => {},
        }
    }
}

/// The letters that are the only ones to fit their squares are in every fill that
/// keeps the fixed letters.
pub proof fn lemma_settled_in_every_fill(
    d: Seq<Seq<u8>>,
    p: PuzzleView,
    entries: Seq<Entry>,
    s: State,
    after: Seq<Entry>,
)
    requires
        crate::model::context_wf(d, p),
        crate::model::state_wf(d, p, s),
        crate::model::complete(d, p, s),
        p.cells.len() == entries.len(),
        fixed_only(entries, s.choices),
        after == Seq::new(
            entries.len(),
            |i: int| (entries[i].0, square_after(entries[i].1, only_letter(joint(d, p, s, i)))),
        ),
    ensures
        solved_in_every_fill(d, entries, after, p),
{
    assert forall|sol: Seq<u32>, j: int|
        #![trigger is_solution(d, p, sol), after[j]]
        is_solution(d, p, sol) && fixed_kept(d, entries, p, sol) && 0 <= j < after.len() implies match after[j].1 {
        Square::Solved(ch) => letter_index(ch) == Some(letter_of(d, p, sol, j)),
        _ => true,
    } by {
        if after[j].1 is Solved {
            let dist = joint(d, p, s, j);
            let l = choose|l: u8| fits_only(dist, l);
            assert(only_letter(dist) is Some);
            lemma_fixed_kept_extends(d, p, entries, s.choices, sol);
            assert(keeps(s, sol));
            lemma_solution_letter_fits(d, p, s, j, sol);
            assert(crate::letters::support_of(dist).contains(letter_of(d, p, sol, j)));
            assert(set![l].contains(letter_of(d, p, sol, j)));
        }
    }
}

/// The number of dead ends that `solve` lets a search come to.
pub const SEARCH_BUDGET: u64 = 40_000_000_000;

/// The letter index that a square fixes for its cell.
pub open spec fn fixed_choice(square: Square) -> Option<u8> {
    match square {
        Square::Fixed(ch) => letter_index(ch),
        _ => None,
    }
}

/// An uppercase letter is the letter of its index.
pub proof fn lemma_letter_round_trip(ch: char)
    requires
        letter_index(ch) is Some,
    ensures
        index_letter(letter_index(ch)->0) == ch,
{
}

impl Grid {
    /// The coordinates of the squares, in order.
    pub fn coordinates(&self) -> (coords: Vec<(usize, usize)>)
        ensures
            coords@ == coords_of(self@),
    {
        let mut coords: Vec<(usize, usize)> = Vec::new();
        let mut i: usize = 0;
        while i < self.squares.len()
            invariant
                i <= self@.len(),
                coords@.len() == i,
                forall|k: int| 0 <= k < i ==> coords@[k] == self@[k].0,
            decreases self@.len() - i,
        {
            coords.push(self.squares[i].0);
            i = i + 1;
        }
        assert(coords@ =~= coords_of(self@));
        coords
    }

    /// Empties the squares that a search has filled.
    fn clear_solved(&mut self)
        ensures
            final(self)@ == Seq::new(
                old(self)@.len(),
                |i: int| (old(self)@[i].0, square_after(old(self)@[i].1, None)),
            ),
    {
        let n = self.squares.len();
        let mut i: usize = 0;
        while i < n
            invariant
                i <= n,
                n == old(self)@.len(),
                self@.len() == n,
                forall|k: int|
                    0 <= k < i ==> #[trigger] self@[k] == (
                        old(self)@[k].0,
                        square_after(old(self)@[k].1, None),
                    ),
                forall|k: int| i <= k < n ==> #[trigger] self@[k] == old(self)@[k],
            decreases n - i,
        {
            let entry = self.squares[i];
            match entry.1 {
                Square::Solved(_) => {
                    self.squares.set(i, (entry.0, Square::Empty));
                },
                _ => {},
            }
            i = i + 1;
        }
        assert(self@ =~= Seq::new(
            old(self)@.len(),
            |i: int| (old(self)@[i].0, square_after(old(self)@[i].1, None)),
        ));
    }

    /// Puts the letters of a fill in the squares without a fixed letter.
    fn write_fill(&mut self, letters: &Vec<(usize, char)>, Ghost(choices): Ghost<Seq<Option<u8>>>)
        requires
            choices.len() == old(self)@.len(),
            letters@ == crate::engine::filled(choices),
            forall|c: int| 0 <= c < choices.len() ==> (#[trigger] choices[c]) is Some,
        ensures
            final(self)@ == Seq::new(
                old(self)@.len(),
                |i: int| (old(self)@[i].0, square_after(old(self)@[i].1, choices[i])),
            ),
    {
        let n = self.squares.len();
        let mut i: usize = 0;
        while i < n
            invariant
                i <= n,
                n == old(self)@.len(),
                self@.len() == n,
                choices.len() == n,
                letters@ == crate::engine::filled(choices),
                forall|c: int| 0 <= c < choices.len() ==> (#[trigger] choices[c]) is Some,
                forall|k: int|
                    0 <= k < i ==> #[trigger] self@[k] == (
                        old(self)@[k].0,
                        square_after(old(self)@[k].1, choices[k]),
                    ),
                forall|k: int| i <= k < n ==> #[trigger] self@[k] == old(self)@[k],
            decreases n - i,
        {
            let entry = self.squares[i];
            assert(choices[i as int] is Some);
            match entry.1 {
                Square::Fixed(_) => {},
                _ => {
                    let shown = letters[i].1;
                    self.squares.set(i, (entry.0, Square::Solved(shown)));
                },
            }
            i = i + 1;
        }
        assert(self@ =~= Seq::new(
            old(self)@.len(),
            |i: int| (old(self)@[i].0, square_after(old(self)@[i].1, choices[i])),
        ));
    }

    /// Puts, in the squares without a letter, the letters that are the only ones to fit.
    fn write_settled(
        &mut self,
        cells: &Vec<(usize, char)>,
        Ghost(d): Ghost<Seq<Seq<u8>>>,
        Ghost(p): Ghost<PuzzleView>,
        Ghost(s): Ghost<State>,
    )
        requires
            p.cells.len() == old(self)@.len(),
            determined(d, p, s, cells@),
            unfixed_are_empty(old(self)@),
        ensures
            final(self)@ == Seq::new(
                old(self)@.len(),
                |i: int| (old(self)@[i].0, square_after(old(self)@[i].1, only_letter(joint(d, p, s, i)))),
            ),
    {
        let n = self.squares.len();
        let ghost before = self@;
        let mut k: usize = 0;
        while k < cells.len()
            invariant
                k <= cells@.len(),
                n == before.len(),
                self@.len() == n,
                p.cells.len() == n,
                before == old(self)@,
                determined(d, p, s, cells@),
                unfixed_are_empty(before),
                forall|m: int|
                    0 <= m < k ==> #[trigger] self@[cells@[m].0 as int] == (
                        before[cells@[m].0 as int].0,
                        square_after(before[cells@[m].0 as int].1, letter_index(cells@[m].1)),
                    ),
                forall|j: int|
                    0 <= j < n && (forall|m: int| 0 <= m < k ==> (#[trigger] cells@[m]).0 != j)
                        ==> #[trigger] self@[j] == before[j],
            decreases cells@.len() - k,
        {
            let (c, ch) = cells[k];
            let ghost prior = self@;
            proof {
                assert(cells@[k as int].0 < n);
                assert forall|m: int| 0 <= m < k implies (#[trigger] cells@[m]).0 != c by {
                    assert(cells@[m].0 < cells@[k as int].0);
                }
                assert(prior[c as int] == before[c as int]);
                lemma_letter_round_trip(ch);
            }
            let entry = self.squares[c];
            match entry.1 {
                Square::Fixed(_) => {},
                _ => {
                    self.squares.set(c, (entry.0, Square::Solved(ch)));
                },
            }
            proof {
                assert forall|m: int| 0 <= m < k + 1 implies #[trigger] self@[cells@[m].0 as int] == (
                    before[cells@[m].0 as int].0,
                    square_after(before[cells@[m].0 as int].1, letter_index(cells@[m].1)),
                ) by {
                    if m < k {
                        assert(cells@[m].0 < cells@[k as int].0);
                        assert(self@[cells@[m].0 as int] == prior[cells@[m].0 as int]);
                    }
                }
                assert forall|j: int|
                    0 <= j < n && (forall|m: int| 0 <= m < k + 1 ==> (#[trigger] cells@[m]).0 != j) implies #[trigger] self@[j]
                    == before[j] by {
                    assert(cells@[k as int].0 != j);
                    assert(self@[j] == prior[j]);
                    assert(forall|m: int| 0 <= m < k ==> (#[trigger] cells@[m]).0 != j);
                }
            }
            k = k + 1;
        }
        proof {
            assert forall|j: int| 0 <= j < n implies #[trigger] self@[j] == (
                before[j].0,
                square_after(before[j].1, only_letter(joint(d, p, s, j))),
            ) by {
                let dist = joint(d, p, s, j);
                if exists|l: u8| fits_only(dist, l) {
                    let l = choose|l: u8| fits_only(dist, l);
                    let m = choose|m: int| 0 <= m < cells@.len() && (#[trigger] cells@[m]).0 == j;
                    let l2 = letter_index(cells@[m].1)->0;
                    assert(set![l2].contains(l2));
                    assert(crate::letters::support_of(dist).contains(l2));
                    assert(set![l].contains(l2));
                    assert(self@[cells@[m].0 as int] == (
                        before[cells@[m].0 as int].0,
                        square_after(before[cells@[m].0 as int].1, letter_index(cells@[m].1)),
                    ));
                } else {
                    assert forall|m: int| 0 <= m < cells@.len() implies (#[trigger] cells@[m]).0 != j by {
                        if cells@[m].0 == j {
                            assert(fits_only(dist, letter_index(cells@[m].1)->0));
                        }
                    }
                    assert(before[j].1 is Fixed || before[j].1 == Square::Empty);
                }
            }
            assert(self@ =~= Seq::new(
                before.len(),
                |i: int| (before[i].0, square_after(before[i].1, only_letter(joint(d, p, s, i)))),
            ));
        }
    }

    /// Pins the fixed letters, in the order of the squares. Returns whether each was
    /// taken.
    fn pin_fixed(&self, engine: &mut Engine<'_>) -> (taken: bool)
        requires
            old(engine).wf(),
            old(engine).grid().cells.len() == self@.len(),
            old(engine).state() == initial(old(engine).dictionary(), old(engine).grid()),
        ensures
            final(engine).wf(),
            final(engine).dictionary() == old(engine).dictionary(),
            final(engine).grid() == old(engine).grid(),
            pinned(old(engine).dictionary(), old(engine).grid(), self@, self@.len()) == if taken {
                Some(final(engine).state())
            } else {
                None
            },
            taken ==> fixed_only(self@, final(engine).state().choices),
            !taken ==> forall|sol: Seq<u32>| #[trigger]
                is_solution(old(engine).dictionary(), old(engine).grid(), sol) ==> !fixed_kept(
                    old(engine).dictionary(),
                    self@,
                    old(engine).grid(),
                    sol,
                ),
    {
        let ghost d = engine.dictionary();
        let ghost p = engine.grid();
        let n = self.squares.len();
        proof {
            engine.lemma_wf();
            crate::model::lemma_initial(d, p);
        }
        let mut i: usize = 0;
        while i < n
            invariant
                i <= n,
                n == self@.len(),
                engine.wf(),
                engine.grid() == p,
                engine.dictionary() == d,
                p.cells.len() == n,
                d == old(engine).dictionary(),
                p == old(engine).grid(),
                pinned(d, p, self@, i as nat) == Some(engine.state()),
                engine.state().choices.len() == n,
                forall|c: int|
                    0 <= c < n ==> #[trigger] engine.state().choices[c] == if c < i {
                        fixed_choice(self@[c].1)
                    } else {
                        None
                    },
                forall|c: int|
                    0 <= c < i && (#[trigger] self@[c]).1 is Fixed ==> fixed_choice(self@[c].1) is Some,
            decreases n - i,
        {
            let ghost s = engine.state();
            match self.squares[i].1 {
                Square::Fixed(ch) => {
                    proof {
                        engine.lemma_wf();
                    }
                    match engine.pin(i, ch) {
                        Ok(_) => {
                            proof {
                                lemma_committed_frame(d, p, s, i as int, letter_index(ch)->0);
                            }
                        },
                        Err(_) => {
                            proof {
                                assert(pinned(d, p, self@, (i + 1) as nat) is None);
                                lemma_pinned_refused(d, p, self@, (i + 1) as nat, n as nat);
                                assert forall|sol: Seq<u32>| #[trigger] is_solution(d, p, sol) implies !fixed_kept(
                                    d,
                                    self@,
                                    p,
                                    sol,
                                ) by {
                                    if fixed_kept(d, self@, p, sol) {
                                        let l = letter_of(d, p, sol, i as int);
                                        assert(self@[i as int].1 == Square::Fixed(ch));
                                        assert(letter_index(ch) == Some(l));
                                        assert forall|c: int| 0 <= c < p.cells.len() implies match #[trigger] s.choices[c] {
                                            Some(x) => letter_of(d, p, sol, c) == x,
                                            None => true,
                                        } by {
                                            if c < i {
                                                assert(s.choices[c] == fixed_choice(self@[c].1));
                                                assert(match self@[c].1 {
                                                    Square::Fixed(x) => letter_index(x) == Some(
                                                        letter_of(d, p, sol, c),
                                                    ),
                                                    _ => true,
                                                });
                                            }
                                        }
                                        assert(extends(d, p, sol, s.choices));
                                        assert(keeps(s, sol));
                                        lemma_solution_letter_fits(d, p, s, i as int, sol);
                                        lemma_committed_complete(d, p, s, i as int, l);
                                        let next = chosen(s, i as int, l).choices;
                                        assert forall|c: int| 0 <= c < p.cells.len() implies match #[trigger] next[c] {
                                            Some(x) => letter_of(d, p, sol, c) == x,
                                            None => true,
                                        } by {
                                            if c != i {
                                                assert(next[c] == s.choices[c]);
                                            }
                                        }
                                        assert(extends(d, p, sol, next));
                                    }
                                }
                            }
                            return false;
                        },
                    }
                },
                _ => {},
            }
            i = i + 1;
        }
        true
    }

    /// Fills the grid with letters so that every slot reads a word of the dictionary,
    /// no word twice, and the fixed letters stay. The letters that an earlier search
    /// put in are dropped. `budget` is the number of dead ends that the search may
    /// come to.
    ///
    /// `Solved` leaves a letter in every square. `Incomplete` leaves, as solved, the
    /// letters that every fill has. `Unsolvable` and `Refused` say that no fill keeps
    /// the fixed letters: the first leaves the squares without a fixed letter empty,
    /// the second leaves the grid as it was.
    #[verifier::rlimit(40)]
    pub fn fill(&mut self, dictionary: &Dictionary, budget: u64) -> (r: Fill)
        requires
            old(self).wf(),
            dictionary.wf(),
        ensures
            final(self).wf(),
            coords_of(final(self)@) == coords_of(old(self)@),
            forall|i: int|
                0 <= i < old(self)@.len() ==> ((#[trigger] old(self)@[i]).1 is Fixed ==> final(self)@[i]
                    == old(self)@[i]) && (final(self)@[i].1 is Fixed ==> old(self)@[i].1 is Fixed),
            (r, final(self)@) == fill_view(dictionary@, old(self)@, budget as nat),
            fill_outcome(dictionary@, old(self)@, final(self)@, r),
    {
        let ghost d = dictionary@;
        let ghost before = self@;
        let coords = self.coordinates();
        let puzzle = match Puzzle::new(&coords) {
            Ok(p) => p,
            Err(_) => {
                return Fill::Refused;
            },
        };
        let ghost p = puzzle@;
        proof {
            assert(built_from(p, coords_of(before)));
            lemma_built_unique(p, puzzle_of(before), coords_of(before));
        }
        let mut engine = match Engine::new(puzzle, dictionary) {
            Ok(e) => e,
            Err(_) => {
                proof {
                    dictionary.lemma_valid();
                    lemma_no_words_no_fill(d, p, before);
                }
                return Fill::Refused;
            },
        };
        if !self.pin_fixed(&mut engine) {
            return Fill::Refused;
        }
        let ghost root = engine.state();
        self.clear_solved();
        let ghost cleared = self@;
        proof {
            assert(unfixed_are_empty(cleared));
            assert(coords_of(cleared) =~= coords_of(before));
        }
        let result = engine.solve(budget);
        let ghost last = engine.state();
        proof {
            engine.lemma_wf();
        }
        match result {
            SolveResult::Solved(letters) => {
                self.write_fill(&letters, Ghost(last.choices));
                proof {
                    assert(self@ =~= Seq::new(
                        before.len(),
                        |i: int| (before[i].0, square_after(before[i].1, last.choices[i])),
                    ));
                    assert(coords_of(self@) =~= coords_of(before));
                    lemma_fill_is_fill(d, p, before, root.choices, last, self@);
                }
                Fill::Solved
            },
            SolveResult::Incomplete(cells) => {
                self.write_settled(&cells, Ghost(d), Ghost(p), Ghost(root));
                proof {
                    assert(self@ =~= Seq::new(
                        before.len(),
                        |i: int| (before[i].0, square_after(before[i].1, only_letter(joint(d, p, root, i)))),
                    ));
                    assert(coords_of(self@) =~= coords_of(before));
                    lemma_settled_in_every_fill(d, p, before, root, self@);
                }
                Fill::Incomplete
            },
            SolveResult::Unsolvable => {
                proof {
                    assert forall|sol: Seq<u32>| #[trigger] is_solution(d, p, sol) implies !fixed_kept(
                        d,
                        before,
                        p,
                        sol,
                    ) by {
                        if fixed_kept(d, before, p, sol) {
                            lemma_fixed_kept_extends(d, p, before, root.choices, sol);
                        }
                    }
                }
                Fill::Unsolvable
            },
        }
    }

    /// Fills the grid, as `fill` does, with a budget of `SEARCH_BUDGET` dead ends.
    /// Returns whether every square has a letter now.
    pub fn solve(&mut self, dictionary: &Dictionary) -> (solved: bool)
        requires
            old(self).wf(),
            dictionary.wf(),
        ensures
            final(self).wf(),
            coords_of(final(self)@) == coords_of(old(self)@),
            forall|i: int|
                0 <= i < old(self)@.len() ==> ((#[trigger] old(self)@[i]).1 is Fixed ==> final(self)@[i]
                    == old(self)@[i]) && (final(self)@[i].1 is Fixed ==> old(self)@[i].1 is Fixed),
            solved == (fill_view(dictionary@, old(self)@, SEARCH_BUDGET as nat).0 == Fill::Solved),
            final(self)@ == fill_view(dictionary@, old(self)@, SEARCH_BUDGET as nat).1,
            fill_outcome(
                dictionary@,
                old(self)@,
                final(self)@,
                fill_view(dictionary@, old(self)@, SEARCH_BUDGET as nat).0,
            ),
    {
        let r = self.fill(dictionary, SEARCH_BUDGET);
        match r {
            Fill::Solved => true,
            _ => false,
        }
    }
}

/// The greatest radius, to either side of zero, that a shape is made with.
pub const SHAPE_LIMIT: i64 = 1_000_000_000;

/// The place `(x, y)` is in the ring of outer radius `outer` and inner radius `inner`
/// about `(outer + 1, outer + 1)`.
pub open spec fn in_circle(outer: int, inner: int, x: int, y: int) -> bool {
    let c = outer + 1;
    let r = (x - c) * (x - c) + (y - c) * (y - c);
    1 <= x <= 2 * c && 1 <= y <= 2 * c && !(r <= inner * inner || r >= outer * outer + outer)
}

/// The distance of `a` from `b`.
pub open spec fn span(a: int, b: int) -> int {
    if a < b {
        b - a
    } else {
        a - b
    }
}

/// The place `(x, y)` is in the diamond-shaped ring of outer radius `outer` and inner
/// radius `inner` about `(outer + 1, outer + 1)`. On the centre column and on the
/// centre row a place counts as one farther out.
pub open spec fn in_diamond(outer: int, inner: int, x: int, y: int) -> bool {
    let c = outer + 1;
    let dx = span(x, c);
    let up = span(y, c) + if dx == 0 {
        1int
    } else {
        0int
    };
    let dy = if up == 0 {
        1int
    } else {
        up
    };
    let r = dx + dy;
    1 <= x <= 2 * c && 1 <= y <= 2 * c && !(r <= inner || r > outer)
}

/// The place `(u, v)` is the square's place or next to it, diagonally too.
pub open spec fn touches(square: (usize, usize), u: int, v: int) -> bool {
    square.0 - 1 <= u <= square.0 + 1 && square.1 - 1 <= v <= square.1 + 1
}

/// The place `(u, v)` is that of a square or next to one.
pub open spec fn near(entries: Seq<Entry>, u: int, v: int) -> bool {
    exists|i: int| 0 <= i < entries.len() && touches((#[trigger] entries[i]).0, u, v)
}

/// The `m`-th of the nine places at and about a square.
pub open spec fn about(square: (usize, usize), m: int) -> (int, int) {
    (square.0 + m / 3 - 1, square.1 + m % 3 - 1)
}

impl Grid {
    /// The ring of empty squares between the circles of radius `inner` and `outer`
    /// about `(outer + 1, outer + 1)`.
    pub fn new_circle(outer: i64, inner: i64) -> (g: Grid)
        requires
            -SHAPE_LIMIT <= outer <= SHAPE_LIMIT,
            -SHAPE_LIMIT <= inner <= SHAPE_LIMIT,
        ensures
            g.wf(),
            forall|x: int, y: int|
                #[trigger] g.has(x, y) <==> in_circle(outer as int, inner as int, x, y),
            forall|i: int| 0 <= i < g@.len() ==> (#[trigger] g@[i]).1 == Square::Empty,
    {
        let c = outer + 1;
        let side = c * 2;
        assert(0 <= inner * inner <= 1_000_000_000_000_000_000) by (nonlinear_arith)
            requires
                -1_000_000_000 <= inner <= 1_000_000_000,
        ;
        assert(0 <= outer * outer <= 1_000_000_000_000_000_000) by (nonlinear_arith)
            requires
                -1_000_000_000 <= outer <= 1_000_000_000,
        ;
        let inner_sq = inner * inner;
        let outer_sq = outer * outer + outer;
        let mut squares: Vec<Entry> = Vec::new();
        let mut y: i64 = 0;
        while y < side
            invariant
                0 <= y,
                y <= side || side < 0,
                c == outer + 1,
                side == 2 * c,
                -SHAPE_LIMIT <= outer <= SHAPE_LIMIT,
                inner_sq == inner * inner,
                outer_sq == outer * outer + outer,
                distinct(coords_of(squares@)),
                forall|i: int| 0 <= i < squares@.len() ==> (#[trigger] squares@[i]).1 == Square::Empty,
                forall|u: int, v: int|
                    #[trigger] occupied(coords_of(squares@), (u, v)) <==> (in_circle(
                        outer as int,
                        inner as int,
                        u,
                        v,
                    ) && v <= y),
            decreases side - y,
        {
            y = y + 1;
            let mut x: i64 = 0;
            while x < side
                invariant
                    0 <= x <= side,
                    1 <= y <= side,
                    c == outer + 1,
                    side == 2 * c,
                    -SHAPE_LIMIT <= outer <= SHAPE_LIMIT,
                    inner_sq == inner * inner,
                    outer_sq == outer * outer + outer,
                    distinct(coords_of(squares@)),
                    forall|i: int|
                        0 <= i < squares@.len() ==> (#[trigger] squares@[i]).1 == Square::Empty,
                    forall|u: int, v: int|
                        #[trigger] occupied(coords_of(squares@), (u, v)) <==> (in_circle(
                            outer as int,
                            inner as int,
                            u,
                            v,
                        ) && (v < y || (v == y && u <= x))),
                decreases side - x,
            {
                x = x + 1;
                let dx = x - c;
                let dy = y - c;
                assert(0 <= dx * dx <= 1_000_000_002_000_000_001) by (nonlinear_arith)
                    requires
                        -1_000_000_001 <= dx <= 1_000_000_001,
                ;
                assert(0 <= dy * dy <= 1_000_000_002_000_000_001) by (nonlinear_arith)
                    requires
                        -1_000_000_001 <= dy <= 1_000_000_001,
                ;
                let r = dx * dx + dy * dy;
                if !(r <= inner_sq || r >= outer_sq) {
                    let ghost before = squares@;
                    squares.push(((x as usize, y as usize), Square::Empty));
                    proof {
                        lemma_pushed(before, ((x as usize, y as usize), Square::Empty));
                    }
                }
            }
        }
        Grid { squares }
    }

    /// The diamond-shaped ring of empty squares between the radii `inner` and `outer`
    /// about `(outer + 1, outer + 1)`.
    pub fn new_diamond(outer: i64, inner: i64) -> (g: Grid)
        requires
            -SHAPE_LIMIT <= outer <= SHAPE_LIMIT,
        ensures
            g.wf(),
            forall|x: int, y: int|
                #[trigger] g.has(x, y) <==> in_diamond(outer as int, inner as int, x, y),
            forall|i: int| 0 <= i < g@.len() ==> (#[trigger] g@[i]).1 == Square::Empty,
    {
        let c = outer + 1;
        let side = c * 2;
        let mut squares: Vec<Entry> = Vec::new();
        let mut y: i64 = 0;
        while y < side
            invariant
                0 <= y,
                y <= side || side < 0,
                c == outer + 1,
                side == 2 * c,
                -SHAPE_LIMIT <= outer <= SHAPE_LIMIT,
                distinct(coords_of(squares@)),
                forall|i: int| 0 <= i < squares@.len() ==> (#[trigger] squares@[i]).1 == Square::Empty,
                forall|u: int, v: int|
                    #[trigger] occupied(coords_of(squares@), (u, v)) <==> (in_diamond(
                        outer as int,
                        inner as int,
                        u,
                        v,
                    ) && v <= y),
            decreases side - y,
        {
            y = y + 1;
            let mut x: i64 = 0;
            while x < side
                invariant
                    0 <= x <= side,
                    1 <= y <= side,
                    c == outer + 1,
                    side == 2 * c,
                    -SHAPE_LIMIT <= outer <= SHAPE_LIMIT,
                    distinct(coords_of(squares@)),
                    forall|i: int|
                        0 <= i < squares@.len() ==> (#[trigger] squares@[i]).1 == Square::Empty,
                    forall|u: int, v: int|
                        #[trigger] occupied(coords_of(squares@), (u, v)) <==> (in_diamond(
                            outer as int,
                            inner as int,
                            u,
                            v,
                        ) && (v < y || (v == y && u <= x))),
                decreases side - x,
            {
                x = x + 1;
                let dx = if x < c {
                    c - x
                } else {
                    x - c
                };
                let mut dy = if y < c {
                    c - y
                } else {
                    y - c
                };
                if dx == 0 {
                    dy = dy + 1;
                }
                if dy == 0 {
                    dy = dy + 1;
                }
                let r = dx + dy;
                if !(r <= inner || r > outer) {
                    let ghost before = squares@;
                    squares.push(((x as usize, y as usize), Square::Empty));
                    proof {
                        lemma_pushed(before, ((x as usize, y as usize), Square::Empty));
                    }
                }
            }
        }
        Grid { squares }
    }

    /// The places next to a square, diagonally too, that have no square: where the
    /// walls around the grid are drawn.
    pub fn get_outline(&self) -> (outline: Vec<(usize, usize)>)
        requires
            self.wf(),
            forall|i: int|
                0 <= i < self@.len() ==> 1 <= (#[trigger] self@[i]).0.0 < usize::MAX && 1
                    <= self@[i].0.1 < usize::MAX,
        ensures
            distinct(outline@),
            forall|u: int, v: int|
                #[trigger] occupied(outline@, (u, v)) <==> (near(self@, u, v) && !self.has(u, v)),
    {
        let mut outline: Vec<(usize, usize)> = Vec::new();
        let mut i: usize = 0;
        while i < self.squares.len()
            invariant
                i <= self@.len(),
                self.wf(),
                forall|k: int|
                    0 <= k < self@.len() ==> 1 <= (#[trigger] self@[k]).0.0 < usize::MAX && 1
                        <= self@[k].0.1 < usize::MAX,
                distinct(outline@),
                forall|u: int, v: int|
                    #[trigger] occupied(outline@, (u, v)) <==> (!self.has(u, v) && exists|k: int|
                        0 <= k < i && touches((#[trigger] self@[k]).0, u, v)),
            decreases self@.len() - i,
        {
            let square = self.squares[i].0;
            let mut m: usize = 0;
            while m < 9
                invariant
                    m <= 9,
                    i < self@.len(),
                    square == self@[i as int].0,
                    1 <= square.0 < usize::MAX,
                    1 <= square.1 < usize::MAX,
                    self.wf(),
                    distinct(outline@),
                    forall|u: int, v: int|
                        #[trigger] occupied(outline@, (u, v)) <==> (!self.has(u, v) && ((exists|
                            k: int,
                        |
                            0 <= k < i && touches((#[trigger] self@[k]).0, u, v)) || (exists|n: int|
                            0 <= n < m && #[trigger] about(square, n) == (u, v)))),
                decreases 9 - m,
            {
                let u = square.0 - 1 + m / 3;
                let v = square.1 - 1 + m % 3;
                assert(about(square, m as int) == (u as int, v as int));
                let ghost before = outline@;
                let open = self.index_of(u, v).is_some();
                let listed = find(&outline, u, v).is_some();
                assert(open == self.has(u as int, v as int));
                assert(listed == occupied(before, (u as int, v as int)));
                if !open && !listed {
                    outline.push((u, v));
                    proof {
                        lemma_pushed_place(before, (u, v));
                    }
                }
                proof {
                    assert forall|a: int, b: int|
                        #[trigger] occupied(outline@, (a, b)) <==> (!self.has(a, b) && ((exists|
                            k: int,
                        |
                            0 <= k < i && touches((#[trigger] self@[k]).0, a, b)) || (exists|n: int|
                            0 <= n < m + 1 && #[trigger] about(square, n) == (a, b)))) by {
                        let earlier = exists|n: int| 0 <= n < m && #[trigger] about(square, n) == (a, b);
                        let now = exists|n: int| 0 <= n < m + 1 && #[trigger] about(square, n) == (a, b);
                        if earlier {
                            let n = choose|n: int| 0 <= n < m && #[trigger] about(square, n) == (a, b);
                            assert(0 <= n < m + 1 && about(square, n) == (a, b));
                        }
                        if now {
                            let n = choose|n: int| 0 <= n < m + 1 && #[trigger] about(square, n) == (a, b);
                            if n < m {
                                assert(earlier);
                            } else {
                                assert((a, b) == (u as int, v as int));
                            }
                        }
                        if (a, b) == (u as int, v as int) {
                            assert(now);
                        }
                        assert(occupied(before, (a, b)) <==> (!self.has(a, b) && ((exists|k: int|
                            0 <= k < i && touches((#[trigger] self@[k]).0, a, b)) || earlier)));
                        if !open && !listed {
                            assert(occupied(outline@, (a, b)) <==> (occupied(before, (a, b)) || (a, b)
                                == (u as int, v as int)));
                        } else {
                            assert(outline@ == before);
                        }
                    }
                }
                m = m + 1;
            }
            proof {
                assert forall|u: int, v: int|
                    touches(square, u, v) <==> exists|n: int|
                        0 <= n < 9 && #[trigger] about(square, n) == (u, v) by {
                    if touches(square, u, v) {
                        let n = (u - square.0 + 1) * 3 + (v - square.1 + 1);
                        assert(about(square, n) == (u, v));
                    }
                }
                assert forall|u: int, v: int|
                    #[trigger] occupied(outline@, (u, v)) <==> (!self.has(u, v) && exists|k: int|
                        0 <= k < i + 1 && touches((#[trigger] self@[k]).0, u, v)) by {
                    if exists|k: int| 0 <= k < i + 1 && touches((#[trigger] self@[k]).0, u, v) {
                        let k = choose|k: int| 0 <= k < i + 1 && touches((#[trigger] self@[k]).0, u, v);
                        if k == i {
                            assert(touches(square, u, v));
                        }
                    }
                    if touches(square, u, v) {
                        assert(touches(self@[i as int].0, u, v));
                    }
                }
            }
            i = i + 1;
        }
        outline
    }
}

/// Adding a place that is not listed keeps the listed places distinct, and adds just
/// that place.
pub proof fn lemma_pushed_place(before: Seq<(usize, usize)>, place: (usize, usize))
    requires
        distinct(before),
        !occupied(before, (place.0 as int, place.1 as int)),
    ensures
        distinct(before.push(place)),
        forall|u: int, v: int|
            #[trigger] occupied(before.push(place), (u, v)) <==> (occupied(before, (u, v)) || (u, v)
                == (place.0 as int, place.1 as int)),
{
    let c = before.push(place);
    let n = before.len() as int;
    assert forall|i: int, j: int| 0 <= i < j < c.len() implies at(c, i) != at(c, j) by {
        assert(at(c, i) == at(before, i));
        if j < n {
            assert(at(c, j) == at(before, j));
            assert(at(before, i) != at(before, j));
        }
    }
    assert forall|u: int, v: int| #[trigger] occupied(c, (u, v)) <==> (occupied(before, (u, v)) || (
    u, v) == (place.0 as int, place.1 as int)) by {
        if occupied(c, (u, v)) {
            let j = choose|j: int| 0 <= j < c.len() && #[trigger] at(c, j) == (u, v);
            if j < n {
                assert(at(before, j) == (u, v));
            }
        }
        if occupied(before, (u, v)) {
            let j = choose|j: int| 0 <= j < before.len() && #[trigger] at(before, j) == (u, v);
            assert(at(c, j) == (u, v));
        }
        if (u, v) == (place.0 as int, place.1 as int) {
            assert(at(c, n) == (u, v));
        }
    }
}

/// Opening a square where none is keeps the squares' coordinates distinct, and adds
/// just that square.
pub proof fn lemma_pushed(before: Seq<Entry>, entry: Entry)
    requires
        distinct(coords_of(before)),
        !occupied(coords_of(before), (entry.0.0 as int, entry.0.1 as int)),
    ensures
        distinct(coords_of(before.push(entry))),
        forall|u: int, v: int|
            #[trigger] occupied(coords_of(before.push(entry)), (u, v)) <==> (occupied(
                coords_of(before),
                (u, v),
            ) || (u, v) == (entry.0.0 as int, entry.0.1 as int)),
{
    let b = coords_of(before);
    let c = coords_of(before.push(entry));
    let n = before.len() as int;
    assert forall|i: int, j: int| 0 <= i < j < c.len() implies at(c, i) != at(c, j) by {
        assert(at(c, i) == at(b, i));
        if j < n {
            assert(at(c, j) == at(b, j));
            assert(at(b, i) != at(b, j));
        }
    }
    assert forall|u: int, v: int| #[trigger] occupied(c, (u, v)) <==> (occupied(b, (u, v)) || (u, v) == (
    entry.0.0 as int, entry.0.1 as int)) by {
        if occupied(c, (u, v)) {
            let j = choose|j: int| 0 <= j < c.len() && #[trigger] at(c, j) == (u, v);
            if j < n {
                assert(at(b, j) == (u, v));
            }
        }
        if occupied(b, (u, v)) {
            let j = choose|j: int| 0 <= j < b.len() && #[trigger] at(b, j) == (u, v);
            assert(at(c, j) == (u, v));
        }
        if (u, v) == (entry.0.0 as int, entry.0.1 as int) {
            assert(at(c, n) == (u, v));
        }
    }
}

} // verus!
