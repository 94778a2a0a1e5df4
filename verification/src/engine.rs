//! The search engine: commits letters to cells, propagates them through the
//! crossing slots, undoes them, and searches for a fill of the whole grid.

use crate::dictionary::Dictionary;
use crate::error::EngineError;
use crate::indices::WordIndices;
use crate::letters::{by_frequency, support_of, LetterInventory, LetterSet};
use crate::line::{line_of, ConstrainResult, LineState};
use crate::model::{
    after_across, after_down, chosen, committed, complete, context_wf, core_wf, frame_of,
    inventory, joint, lemma_chosen, lemma_commit_undo, lemma_committed, lemma_committed_complete,
    lemma_committed_frame, lemma_core_wf_choices, lemma_joint, lemma_joint_frame,
    lemma_narrowed, lemma_narrowed_words, lemma_place, lemma_restored, lemma_slots_differ,
    lemma_undone_frame, max_len, narrowed, narrowed_words, newly_held, restored, state_wf,
    tightness, undone, undone_down, undone_slots, SlotUndo, State, Undo,
};
use crate::prefilter::{
    all_ascending, all_fitting, core_words, count_words, installable, installed, lemma_core,
    lemma_installed, lemma_prefilter_view, prefilter_view, settle, step_ok, total_words, within,
    words_of, work_wf,
};
use crate::puzzle::{Puzzle, PuzzleView, ACROSS, DOWN};
use crate::search::{found, letters_for, pick, search, tightest, try_from, try_one, Found};
use crate::skip_iter::ascending;
use crate::queue::{queue_entries, queue_new, queue_peek, queue_push, queue_remove, CellQueue};
use vstd::prelude::*;

verus! {

/// The priority of a cell whose joint distribution has total `t`: the tighter the cell,
/// the greater its priority.
pub open spec fn priority_of(t: nat) -> i128 {
    (0 - t) as i128
}

/// The queue of a state: the cells without a letter, each with the priority of its
/// tightness.
pub open spec fn mrv_entries(d: Seq<Seq<u8>>, p: PuzzleView, s: State) -> Map<usize, i128> {
    Map::new(
        |c: usize| c < p.cells.len() && s.choices[c as int] is None,
        |c: usize| priority_of(tightness(d, p, s, c as int)),
    )
}

/// Cell `c` is in both queues or in neither, with the same priority.
pub open spec fn same_entry(a: Map<usize, i128>, b: Map<usize, i128>, c: usize) -> bool {
    a.contains_key(c) == b.contains_key(c) && a[c] == b[c]
}

/// Every slot of the grid has a length that some word of the dictionary has.
pub open spec fn slots_have_words(d: Seq<Seq<u8>>, p: PuzzleView) -> bool {
    forall|li: int|
        0 <= li < p.lines.len() ==> crate::indices::ids_of_length(d, (#[trigger] p.lines[li]).len()).len()
            > 0
}

/// How a search ended.
enum Outcome {
    /// Every cell has a letter.
    Solved,
    /// No solution has the letters that the cells had when the search began.
    DeadEnd,
    /// The search came to one dead end more than its budget.
    OutOfBudget,
}

/// What `solve` found.
#[derive(Debug)]
pub enum SolveResult {
    /// The grid is filled: each cell with its letter, by cell index.
    Solved(Vec<(usize, char)>),
    /// The budget ran out: the cells that a single letter fits, each with that letter,
    /// by cell index.
    Incomplete(Vec<(usize, char)>),
    /// No fill exists.
    Unsolvable,
}

/// Each cell with its letter, by cell index.
pub open spec fn filled(choices: Seq<Option<u8>>) -> Seq<(usize, char)> {
    Seq::new(choices.len(), |c: int| (c as usize, crate::letters::index_letter(choices[c]->0)))
}

/// `l` is the only letter that the distribution counts.
pub open spec fn fits_only(dist: Seq<u64>, l: u8) -> bool {
    support_of(dist) == set![l]
}

/// `cells` lists, by cell index, exactly the cells that a single letter fits, each
/// with that letter.
pub open spec fn determined(d: Seq<Seq<u8>>, p: PuzzleView, s: State, cells: Seq<(usize, char)>) -> bool {
    &&& forall|k: int|
        0 <= k < cells.len() ==> (#[trigger] cells[k]).0 < p.cells.len()
            && crate::letters::letter_index(cells[k].1) is Some && support_of(
            joint(d, p, s, cells[k].0 as int),
        ) == set![crate::letters::letter_index(cells[k].1)->0]
    &&& forall|i: int, j: int| 0 <= i < j < cells.len() ==> cells[i].0 < cells[j].0
    &&& forall|c: int, l: u8|
        0 <= c < p.cells.len() && #[trigger] fits_only(joint(d, p, s, c), l) ==> exists|k: int|
            0 <= k < cells.len() && (#[trigger] cells[k]).0 == c
}

/// Every solution with the committed letters in their cells has the letters of `cells`
/// in their cells too.
pub open spec fn in_every_solution(d: Seq<Seq<u8>>, p: PuzzleView, s: State, cells: Seq<(usize, char)>) -> bool {
    forall|sol: Seq<u32>, k: int|
        #![trigger crate::model::is_solution(d, p, sol), cells[k]]
        crate::model::is_solution(d, p, sol) && crate::model::extends(d, p, sol, s.choices) && 0 <= k
            < cells.len() ==> crate::letters::letter_index(cells[k].1) == Some(
            crate::model::letter_of(d, p, sol, cells[k].0 as int),
        )
}

/// How pinning letter `letter` to cell `c` ends in state `s`.
pub open spec fn pin_outcome(d: Seq<Seq<u8>>, p: PuzzleView, s: State, c: int, letter: char) -> Result<
    (),
    EngineError,
> {
    match crate::letters::letter_index(letter) {
        None => Err(EngineError::InvalidLetter),
        Some(l) => if s.choices[c] is Some {
            Err(EngineError::AlreadyChosen)
        } else if joint(d, p, s, c)[l as int] == 0 {
            Err(EngineError::InvalidLetter)
        } else if committed(d, p, s, c, l) is None {
            Err(EngineError::DeadEnd)
        } else {
            Ok(())
        },
    }
}

/// How many words the slots had, all in all, before and after the pre-filter.
#[derive(Clone, Copy, Debug, PartialEq, Eq)]
pub struct Reduction {
    /// The number of words before.
    pub before: u128,
    /// The number of words after.
    pub after: u128,
}

/// A read-only copy of what the engine shows.
pub struct Snapshot {
    /// For each cell, the letter committed to it, if any.
    pub choices: Vec<Option<char>>,
    /// For each cell, its joint letter distribution.
    pub char_dists: Vec<LetterInventory>,
    /// For each slot, the number of words that still fit it.
    pub words_remaining: Vec<usize>,
}

/// The way a search ended in memory, with the state and the budget that it left, is
/// the way that the search as a function ends.
spec fn ended_as(r: Outcome, state: State, before: State, left: u64, f: (Found, nat)) -> bool {
    &&& left == f.1
    &&& match r {
        Outcome::Solved => f.0 == Found::Solved(state),
        Outcome::DeadEnd => f.0 is DeadEnd && state == before,
        Outcome::OutOfBudget => f.0 is OutOfBudget && state == before,
    }
}

/// The grid has a single cell, which has no letter yet, and a letter that fits it: the
/// search fills it with the first letter that it tries.
pub open spec fn fills_at_once(d: Seq<Seq<u8>>, p: PuzzleView, s: State) -> bool {
    crate::model::single_cell(p) && s.choices[0] is None && tightness(d, p, s, 0) > 0
}

/// What the search does next.
#[derive(Debug)]
pub enum Step {
    /// No cell is without a letter: the grid is filled.
    Success,
    /// No letter fits the tightest cell.
    Failure,
    /// A single letter fits the tightest cell: the cell, and the letter.
    Single(usize, u8),
    /// Several letters fit the tightest cell: the cell, and the letters, the most
    /// frequent first.
    Many(usize, Vec<u8>),
}

/// One slot's part of an undo token: the slot, its state before the commit, and the
/// word that the commit claimed for it.
pub struct SlotSnapshot {
    line: usize,
    state: LineState,
    held: Option<u32>,
}

impl View for SlotSnapshot {
    type V = SlotUndo;

    closed spec fn view(&self) -> SlotUndo {
        SlotUndo { line: self.line as int, words: self.state@.words, held: self.held }
    }
}

/// What `undo` needs to take back one commit.
pub struct UndoToken {
    cell: usize,
    across: Option<SlotSnapshot>,
    down: Option<SlotSnapshot>,
}

impl View for UndoToken {
    type V = Undo;

    closed spec fn view(&self) -> Undo {
        Undo {
            cell: self.cell as int,
            across: match self.across {
                Some(e) => Some(e@),
                None => None,
            },
            down: match self.down {
                Some(e) => Some(e@),
                None => None,
            },
        }
    }
}

/// The snapshot `snap` is one of the slot at `place` of a cell, or both are absent.
spec fn snapshot_fits(d: Seq<Seq<u8>>, p: PuzzleView, snap: Option<SlotSnapshot>, place: Option<(usize, usize)>) -> bool {
    match (snap, place) {
        (Some(e), Some(pl)) => e.line == pl.0 && e.line < p.lines.len() && e.state@ == line_of(
            d,
            p.lines[e.line as int].len(),
            e.state@.words,
        ),
        (None, None) => true,
        _ => false,
    }
}

impl UndoToken {
    /// The token is that of the engine's last commit that is not undone yet: undoing it
    /// leads the engine back to a consistent state.
    pub closed spec fn valid_for(&self, e: &Engine<'_>) -> bool {
        let d = e.dict@;
        let p = e.puzzle@;
        let s = e.state();
        &&& self.cell < p.cells.len()
        &&& snapshot_fits(d, p, self.across, p.cells[self.cell as int].across)
        &&& snapshot_fits(d, p, self.down, p.cells[self.cell as int].down)
        &&& core_wf(d, p, undone_down(p, s, self@))
        &&& core_wf(d, p, undone_slots(p, s, self@))
        &&& state_wf(d, p, undone(p, s, self@))
        &&& complete(d, p, undone(p, s, self@))
    }
}

/// The search engine for one grid and one dictionary.
pub struct Engine<'a> {
    dict: &'a Dictionary,
    indices: WordIndices,
    puzzle: Puzzle,
    /// The state of each slot.
    lines: Vec<LineState>,
    /// The letter committed to each cell, if any.
    choices: Vec<Option<u8>>,
    /// The joint letter distribution of each cell.
    dists: Vec<LetterInventory>,
    /// The cells without a letter, by tightness.
    queue: CellQueue,
}

impl<'a> Engine<'a> {
    /// The dictionary.
    pub closed spec fn dictionary(&self) -> Seq<Seq<u8>> {
        self.dict@
    }

    /// The grid's cells and slots.
    pub closed spec fn grid(&self) -> PuzzleView {
        self.puzzle@
    }

    /// The search state.
    pub closed spec fn state(&self) -> State {
        State {
            words: Seq::new(self.lines@.len(), |li: int| self.lines@[li]@.words),
            choices: self.choices@,
            claimed: self.indices.claimed_view(),
        }
    }

    /// The joint letter distribution held for each cell.
    pub closed spec fn char_dists(&self) -> Seq<Seq<u64>> {
        Seq::new(self.dists@.len(), |c: int| self.dists@[c]@)
    }

    /// What the engine shows of each slot.
    pub closed spec fn line_views(&self) -> Seq<crate::line::LineView> {
        Seq::new(self.lines@.len(), |li: int| self.lines@[li]@)
    }

    /// The queue of cells without a letter.
    pub closed spec fn queue(&self) -> Map<usize, i128> {
        queue_entries(self.queue)
    }

    /// The parts fit together, whatever the cells' distributions and priorities are.
    spec fn base_wf(&self) -> bool {
        let d = self.dict@;
        let p = self.puzzle@;
        let s = self.state();
        &&& self.dict.wf()
        &&& self.indices.wf()
        &&& self.indices.dict() == d
        &&& self.indices.spec_max_len() == max_len(d)
        &&& context_wf(d, p)
        &&& core_wf(d, p, s)
        &&& self.lines@.len() == p.lines.len()
        &&& forall|li: int|
            0 <= li < self.lines@.len() ==> (#[trigger] self.lines@[li])@ == line_of(
                d,
                p.lines[li].len(),
                self.lines@[li]@.words,
            )
        &&& self.dists@.len() == p.cells.len()
        &&& forall|c: usize| #[trigger]
            queue_entries(self.queue).contains_key(c) ==> c < p.cells.len() && self.choices@[c as int] is None
    }

    /// Cell `c` has its joint distribution, and, if it has no letter, its priority.
    spec fn fresh(&self, c: int) -> bool {
        let d = self.dict@;
        let p = self.puzzle@;
        let s = self.state();
        &&& self.dists@[c]@ == joint(d, p, s, c)
        &&& s.choices[c] is None ==> queue_entries(self.queue).contains_key(c as usize)
            && queue_entries(self.queue)[c as usize] == priority_of(tightness(d, p, s, c))
    }

    /// The engine is consistent: its state is, no solution is lost, each cell has its
    /// joint distribution, and the queue holds the cells without a letter by tightness.
    pub closed spec fn wf(&self) -> bool {
        let d = self.dict@;
        let p = self.puzzle@;
        let s = self.state();
        &&& self.base_wf()
        &&& state_wf(d, p, s)
        &&& complete(d, p, s)
        &&& forall|c: int| 0 <= c < p.cells.len() ==> #[trigger] self.fresh(c)
    }

    /// The joint distribution of cell `c`, computed from its slots.
    fn joint_of(&self, c: usize) -> (r: LetterInventory)
        requires
            self.base_wf(),
            c < self.puzzle@.cells.len(),
        ensures
            r@ == joint(self.dict@, self.puzzle@, self.state(), c as int),
    {
        let ghost d = self.dict@;
        let ghost p = self.puzzle@;
        let ghost s = self.state();
        proof {
            lemma_joint(d, p, s, c as int);
            assert(p.place(c as int, ACROSS) == p.cells[c as int].across);
            assert(p.place(c as int, DOWN) == p.cells[c as int].down);
        }
        let cell = &self.puzzle.cells[c];
        match (cell.across, cell.down) {
            (Some(a), Some(b)) => {
                proof {
                    crate::model::lemma_place(p, c as int, ACROSS);
                    crate::model::lemma_place(p, c as int, DOWN);
                    assert(self.lines@[a.0 as int]@.inventories[a.1 as int] == inventory(
                        d,
                        s,
                        a.0 as int,
                        a.1 as int,
                    ));
                    assert(self.lines@[b.0 as int]@.inventories[b.1 as int] == inventory(
                        d,
                        s,
                        b.0 as int,
                        b.1 as int,
                    ));
                }
                proof {
                    let ia = inventory(d, s, a.0 as int, a.1 as int);
                    let ib = inventory(d, s, b.0 as int, b.1 as int);
                    assert forall|i: int| 0 <= i < 26 implies ia[i] * ib[i] <= u64::MAX by {
                        assert(joint(d, p, s, c as int)[i] == ia[i] * ib[i]);
                    }
                }
                let r = LetterInventory::product(
                    self.lines[a.0].inventory(a.1),
                    self.lines[b.0].inventory(b.1),
                );
                proof {
                    assert(r@ =~= joint(d, p, s, c as int));
                }
                r
            },
            (Some(a), None) => {
                proof {
                    crate::model::lemma_place(p, c as int, ACROSS);
                    assert(self.lines@[a.0 as int]@.inventories[a.1 as int] == inventory(
                        d,
                        s,
                        a.0 as int,
                        a.1 as int,
                    ));
                }
                *self.lines[a.0].inventory(a.1)
            },
            (None, Some(b)) => {
                proof {
                    crate::model::lemma_place(p, c as int, DOWN);
                    assert(self.lines@[b.0 as int]@.inventories[b.1 as int] == inventory(
                        d,
                        s,
                        b.0 as int,
                        b.1 as int,
                    ));
                }
                *self.lines[b.0].inventory(b.1)
            },
            (None, None) => {
                let r = LetterInventory::new();
                proof {
                    assert(r@ =~= joint(d, p, s, c as int));
                }
                r
            },
        }
    }

    /// Fixes letter `ch` at offset `pos` of slot `li`, and claims the word that the slot
    /// comes to hold. Returns the slot's state before and the word claimed; or `None`,
    /// changing nothing, where no word would be left.
    fn narrow(&mut self, li: usize, pos: usize, ch: u8) -> (r: Option<(LineState, Option<u32>)>)
        requires
            old(self).base_wf(),
            li < old(self).puzzle@.lines.len(),
            pos < old(self).puzzle@.lines[li as int].len(),
            ch < 26,
        ensures
            final(self).dict == old(self).dict,
            final(self).puzzle == old(self).puzzle,
            final(self).choices == old(self).choices,
            final(self).dists == old(self).dists,
            final(self).queue == old(self).queue,
            match r {
                Some((line, held)) => {
                    &&& final(self).base_wf()
                    &&& final(self).state() == narrowed(
                        old(self).dict@,
                        old(self).puzzle@,
                        old(self).state(),
                        li as int,
                        pos as int,
                        ch,
                    )
                    &&& narrowed_words(
                        old(self).dict@,
                        old(self).puzzle@,
                        old(self).state(),
                        li as int,
                        pos as int,
                        ch,
                    ).len() > 0
                    &&& line@ == old(self).lines@[li as int]@
                    &&& held == newly_held(
                        old(self).dict@,
                        old(self).puzzle@,
                        old(self).state(),
                        li as int,
                        pos as int,
                        ch,
                    )
                },
                None => narrowed_words(
                    old(self).dict@,
                    old(self).puzzle@,
                    old(self).state(),
                    li as int,
                    pos as int,
                    ch,
                ).len() == 0 && *final(self) == *old(self),
            },
    {
        let ghost d = self.dict@;
        let ghost p = self.puzzle@;
        let ghost s = self.state();
        proof {
            self.indices.lemma_wf();
            assert(self.lines@[li as int]@ == line_of(
                d,
                p.lines[li as int].len(),
                self.lines@[li as int]@.words,
            ));
            assert(crate::line::fitting(d, p.lines[li as int].len(), s.words[li as int]));
            assert(p.lines[li as int].len() <= max_len(d));
            lemma_narrowed_words(d, p, s, li as int, pos as int, ch);
            crate::indices::lemma_matching(
                d,
                d.len(),
                crate::indices::has_letter(p.lines[li as int].len(), pos as int, ch),
            );
        }
        let len = self.lines[li].len();
        let (next, result) = self.lines[li].constrained(
            self.dict,
            self.indices.by_length_pos_letter(len, pos, ch),
            self.indices.claimed(len),
        );
        assert(next@.words == narrowed_words(d, p, s, li as int, pos as int, ch));
        match result {
            ConstrainResult::Failed => None,
            ConstrainResult::Unique(id) => {
                proof {
                    crate::model::lemma_newly_held(d, p, s, li as int, pos as int, ch);
                    lemma_narrowed(d, p, s, li as int, pos as int, ch);
                    assert(next@.words.contains(id));
                }
                let mut next = next;
                std::mem::swap(&mut self.lines[li], &mut next);
                let claimed = self.indices.claim(len, id);
                proof {
                    assert(claimed);
                    assert(self.state().words =~= narrowed(
                        d,
                        p,
                        s,
                        li as int,
                        pos as int,
                        ch,
                    ).words);
                }
                Some((next, Some(id)))
            },
            ConstrainResult::Narrowed => {
                proof {
                    lemma_narrowed(d, p, s, li as int, pos as int, ch);
                }
                let mut next = next;
                std::mem::swap(&mut self.lines[li], &mut next);
                proof {
                    assert(self.state().words =~= narrowed(
                        d,
                        p,
                        s,
                        li as int,
                        pos as int,
                        ch,
                    ).words);
                }
                Some((next, None))
            },
        }
    }

    /// Sets slot `li` back to the state `line`, and releases the word `held`.
    fn restore(&mut self, li: usize, line: LineState, held: Option<u32>)
        requires
            old(self).base_wf(),
            li < old(self).puzzle@.lines.len(),
            line@ == line_of(
                old(self).dict@,
                old(self).puzzle@.lines[li as int].len(),
                line@.words,
            ),
            core_wf(
                old(self).dict@,
                old(self).puzzle@,
                restored(
                    old(self).puzzle@,
                    old(self).state(),
                    SlotUndo { line: li as int, words: line@.words, held },
                ),
            ),
        ensures
            final(self).base_wf(),
            final(self).dict == old(self).dict,
            final(self).puzzle == old(self).puzzle,
            final(self).choices == old(self).choices,
            final(self).dists == old(self).dists,
            final(self).queue == old(self).queue,
            final(self).state() == restored(
                old(self).puzzle@,
                old(self).state(),
                SlotUndo { line: li as int, words: line@.words, held },
            ),
    {
        let ghost p = self.puzzle@;
        let ghost s = self.state();
        let ghost e = SlotUndo { line: li as int, words: line@.words, held };
        proof {
            self.indices.lemma_wf();
            assert(p.lines[li as int].len() <= max_len(self.dict@));
            assert(self.lines@[li as int]@ == line_of(
                self.dict@,
                p.lines[li as int].len(),
                self.lines@[li as int]@.words,
            ));
        }
        let len = self.lines[li].len();
        let mut line = line;
        std::mem::swap(&mut self.lines[li], &mut line);
        match held {
            Some(id) => {
                self.indices.unclaim(len, id);
            },
            None => {},
        }
        proof {
            assert(self.state().words =~= restored(p, s, e).words);
            assert(self.state() == restored(p, s, e));
        }
    }

    /// Computes anew the joint distribution of each cell of slot `li`, and the priority
    /// of each of those cells that has no letter.
    fn refresh_line(&mut self, li: usize)
        requires
            old(self).base_wf(),
            li < old(self).puzzle@.lines.len(),
        ensures
            final(self).base_wf(),
            final(self).dict == old(self).dict,
            final(self).indices == old(self).indices,
            final(self).puzzle == old(self).puzzle,
            final(self).lines == old(self).lines,
            final(self).choices == old(self).choices,
            final(self).dists@.len() == old(self).dists@.len(),
            forall|c: int|
                0 <= c < old(self).puzzle@.cells.len() && old(self).puzzle@.on_line(c, li as int)
                    ==> #[trigger] final(self).fresh(c),
            forall|c: int|
                0 <= c < old(self).puzzle@.cells.len() && !old(self).puzzle@.on_line(c, li as int)
                    ==> #[trigger] final(self).dists@[c] == old(self).dists@[c],
            forall|c: usize|
                !(c < old(self).puzzle@.cells.len() && old(self).puzzle@.on_line(c as int, li as int))
                    ==> #[trigger] same_entry(
                    queue_entries(final(self).queue),
                    queue_entries(old(self).queue),
                    c,
                ),
    {
        let ghost d = self.dict@;
        let ghost p = self.puzzle@;
        let ghost s = self.state();
        let len = self.puzzle.lines[li].cell_indices.len();
        let mut pos: usize = 0;
        while pos < len
            invariant
                pos <= len,
                len == p.lines[li as int].len(),
                li < p.lines.len(),
                self.base_wf(),
                self.dict == old(self).dict,
                self.indices == old(self).indices,
                self.puzzle == old(self).puzzle,
                self.lines == old(self).lines,
                self.choices == old(self).choices,
                self.dists@.len() == old(self).dists@.len(),
                d == self.dict@,
                p == self.puzzle@,
                s == self.state(),
                forall|q: int| 0 <= q < pos ==> self.fresh(#[trigger] p.lines[li as int][q] as int),
                forall|c: int|
                    0 <= c < p.cells.len() && !(exists|q: int|
                        0 <= q < pos && p.lines[li as int][q] == c) ==> #[trigger] self.dists@[c]
                        == old(self).dists@[c],
                forall|c: usize|
                    !(exists|q: int| 0 <= q < pos && p.lines[li as int][q] == c)
                        ==> #[trigger] same_entry(
                        queue_entries(self.queue),
                        queue_entries(old(self).queue),
                        c,
                    ),
            decreases len - pos,
        {
            let c = self.puzzle.lines[li].cell_indices[pos];
            proof {
                assert(p.lines[li as int][pos as int] == c);
                assert(c < p.cells.len());
                lemma_joint(d, p, s, c as int);
            }
            let dist = self.joint_of(c);
            let ghost before = *self;
            self.dists.set(c, dist);
            if self.choices[c].is_none() {
                let t = dist.total();
                queue_push(&mut self.queue, c, -(t as i128));
            }
            proof {
                assert(self.state() == s);
                assert(self.fresh(c as int));
                assert forall|q: int| 0 <= q < pos + 1 implies self.fresh(
                    #[trigger] p.lines[li as int][q] as int,
                ) by {
                    let c2 = p.lines[li as int][q];
                    if c2 != c {
                        assert(before.fresh(c2 as int));
                        assert(self.dists@[c2 as int] == before.dists@[c2 as int]);
                    }
                }
                assert forall|c2: int|
                    0 <= c2 < p.cells.len() && !(exists|q: int|
                        0 <= q < pos + 1 && p.lines[li as int][q] == c2) implies #[trigger] self.dists@[c2]
                    == old(self).dists@[c2] by {
                    assert(c2 != c);
                    assert(!(exists|q: int| 0 <= q < pos && p.lines[li as int][q] == c2));
                    assert(before.dists@[c2] == old(self).dists@[c2]);
                }
                assert forall|c2: usize|
                    !(exists|q: int| 0 <= q < pos + 1 && p.lines[li as int][q] == c2) implies #[trigger] same_entry(
                    queue_entries(self.queue),
                    queue_entries(old(self).queue),
                    c2,
                ) by {
                    assert(c2 != c);
                    assert(!(exists|q: int| 0 <= q < pos && p.lines[li as int][q] == c2));
                    assert(same_entry(
                        queue_entries(before.queue),
                        queue_entries(old(self).queue),
                        c2,
                    ));
                }
            }
            pos = pos + 1;
        }
        proof {
            assert forall|c: int| 0 <= c < p.cells.len() && p.on_line(c, li as int) implies #[trigger] self.fresh(
                c,
            ) by {
                let q = Self::lemma_on_line(p, c, li as int);
                assert(self.fresh(p.lines[li as int][q] as int));
            }
            assert forall|c: int|
                0 <= c < p.cells.len() && !p.on_line(c, li as int) implies #[trigger] self.dists@[c]
                == old(self).dists@[c] by {
                if exists|q: int| 0 <= q < len && p.lines[li as int][q] == c {
                    let q = choose|q: int| 0 <= q < len && p.lines[li as int][q] == c;
                    Self::lemma_line_cell(p, li as int, q);
                }
            }
            assert forall|c: usize|
                !(c < p.cells.len() && p.on_line(c as int, li as int)) implies #[trigger] same_entry(
                queue_entries(self.queue),
                queue_entries(old(self).queue),
                c,
            ) by {
                if exists|q: int| 0 <= q < len && p.lines[li as int][q] == c {
                    let q = choose|q: int| 0 <= q < len && p.lines[li as int][q] == c;
                    Self::lemma_line_cell(p, li as int, q);
                }
            }
        }
    }

    /// A cell on a slot is the slot's cell at some offset.
    proof fn lemma_on_line(p: PuzzleView, c: int, li: int) -> (q: int)
        requires
            p.wf(),
            0 <= c < p.cells.len(),
            p.on_line(c, li),
        ensures
            0 <= li < p.lines.len(),
            0 <= q < p.lines[li].len(),
            p.lines[li][q] == c,
    {
        assert(p.place(c, ACROSS) == p.cells[c].across);
        assert(p.place(c, DOWN) == p.cells[c].down);
        let a = p.cells[c].across->0;
        let b = p.cells[c].down->0;
        if p.cells[c].across is Some && a.0 == li {
            crate::model::lemma_place(p, c, ACROSS);
            a.1 as int
        } else {
            crate::model::lemma_place(p, c, DOWN);
            b.1 as int
        }
    }

    /// A slot's cell at an offset is a cell of the grid that lies on the slot.
    proof fn lemma_line_cell(p: PuzzleView, li: int, q: int)
        requires
            p.wf(),
            0 <= li < p.lines.len(),
            0 <= q < p.lines[li].len(),
        ensures
            p.lines[li][q] < p.cells.len(),
            p.on_line(p.lines[li][q] as int, li),
    {
        let c = p.lines[li][q];
        assert(p.place(c as int, p.directions[li]) == Some((li as usize, q as usize)));
    }

    /// Records `value` as the letter of cell `cell`.
    fn set_choice(&mut self, cell: usize, value: Option<u8>)
        requires
            old(self).base_wf(),
            cell < old(self).puzzle@.cells.len(),
            value is Some ==> !queue_entries(old(self).queue).contains_key(cell),
        ensures
            final(self).base_wf(),
            final(self).dict == old(self).dict,
            final(self).indices == old(self).indices,
            final(self).puzzle == old(self).puzzle,
            final(self).lines == old(self).lines,
            final(self).dists == old(self).dists,
            final(self).queue == old(self).queue,
            final(self).choices@ == old(self).choices@.update(cell as int, value),
            final(self).state() == (State {
                words: old(self).state().words,
                choices: old(self).state().choices.update(cell as int, value),
                claimed: old(self).state().claimed,
            }),
    {
        proof {
            lemma_core_wf_choices(
                self.dict@,
                self.puzzle@,
                self.state(),
                self.choices@.update(cell as int, value),
            );
        }
        self.choices.set(cell, value);
    }

    /// Takes back the letter of cell `cell` and puts the cell back in the queue.
    fn give_up(&mut self, cell: usize, was: Option<i128>)
        requires
            old(self).base_wf(),
            cell < old(self).puzzle@.cells.len(),
        ensures
            final(self).base_wf(),
            final(self).dict == old(self).dict,
            final(self).indices == old(self).indices,
            final(self).puzzle == old(self).puzzle,
            final(self).lines == old(self).lines,
            final(self).dists == old(self).dists,
            final(self).choices@ == old(self).choices@.update(cell as int, None),
            queue_entries(final(self).queue) == match was {
                Some(v) => queue_entries(old(self).queue).insert(cell, v),
                None => queue_entries(old(self).queue),
            },
    {
        self.set_choice(cell, None);
        match was {
            Some(v) => {
                queue_push(&mut self.queue, cell, v);
            },
            None => {},
        }
    }

    /// Commits letter `letter` to cell `cell`: fixes it in the cell's slots, claims the
    /// words that they come to hold, and computes anew the distributions and priorities
    /// of the cells on those slots. Returns the token to undo this; or `None`, leaving
    /// the state as it was, where a slot would be left without a word.
    pub fn commit(&mut self, cell: usize, letter: u8) -> (r: Option<UndoToken>)
        requires
            old(self).wf(),
            cell < old(self).grid().cells.len(),
            old(self).state().choices[cell as int] is None,
            letter < 26,
            joint(old(self).dictionary(), old(self).grid(), old(self).state(), cell as int)[letter as int]
                > 0,
        ensures
            final(self).wf(),
            final(self).dictionary() == old(self).dictionary(),
            final(self).grid() == old(self).grid(),
            match r {
                Some(token) => {
                    &&& Some(final(self).state()) == committed(
                        old(self).dictionary(),
                        old(self).grid(),
                        old(self).state(),
                        cell as int,
                        letter,
                    )
                    &&& token@ == frame_of(
                        old(self).dictionary(),
                        old(self).grid(),
                        old(self).state(),
                        cell as int,
                        letter,
                    )
                    &&& token.valid_for(final(self))
                },
                None => committed(
                    old(self).dictionary(),
                    old(self).grid(),
                    old(self).state(),
                    cell as int,
                    letter,
                ) is None && final(self).state() == old(self).state(),
            },
    {
        let ghost d = self.dict@;
        let ghost p = self.puzzle@;
        let ghost pre = self.state();
        let ghost e0 = *self;
        let ghost s0 = chosen(pre, cell as int, letter);
        let ghost s1 = after_across(d, p, pre, cell as int, letter);
        let ghost s2 = after_down(d, p, pre, cell as int, letter);
        proof {
            assert(e0.fresh(cell as int));
            lemma_chosen(d, p, pre, cell as int, letter);
            assert(p.place(cell as int, ACROSS) == p.cells[cell as int].across);
            assert(p.place(cell as int, DOWN) == p.cells[cell as int].down);
        }
        let was = queue_remove(&mut self.queue, cell);
        self.set_choice(cell, Some(letter));
        assert(self.state() == s0);
        let across = self.puzzle.cells[cell].across;
        let down = self.puzzle.cells[cell].down;
        let mut a_snap: Option<SlotSnapshot> = None;
        match across {
            Some(a) => {
                proof {
                    lemma_place(p, cell as int, ACROSS);
                }
                match self.narrow(a.0, a.1, letter) {
                    Some((line, held)) => {
                        a_snap = Some(SlotSnapshot { line: a.0, state: line, held });
                    },
                    None => {
                        self.give_up(cell, was);
                        proof {
                            assert(self.state().choices =~= pre.choices);
                            assert(self.state() == pre);
                            assert(queue_entries(self.queue) =~= queue_entries(e0.queue));
                            assert forall|c: int| 0 <= c < p.cells.len() implies #[trigger] self.fresh(
                                c,
                            ) by {
                                assert(e0.fresh(c));
                            }
                        }
                        return None;
                    },
                }
            },
            None => {},
        }
        assert(self.state() == s1);
        let mut d_snap: Option<SlotSnapshot> = None;
        match down {
            Some(b) => {
                proof {
                    lemma_place(p, cell as int, DOWN);
                    if across is Some {
                        lemma_slots_differ(p, cell as int);
                    }
                }
                match self.narrow(b.0, b.1, letter) {
                    Some((line, held)) => {
                        d_snap = Some(SlotSnapshot { line: b.0, state: line, held });
                    },
                    None => {
                        match a_snap {
                            Some(snap) => {
                                proof {
                                    let a = across->0;
                                    lemma_restored(d, p, s0, a.0 as int, a.1 as int, letter);
                                    assert(e0.lines@[a.0 as int]@ == line_of(
                                        d,
                                        p.lines[a.0 as int].len(),
                                        e0.lines@[a.0 as int]@.words,
                                    ));
                                }
                                self.restore(snap.line, snap.state, snap.held);
                            },
                            None => {},
                        }
                        assert(self.state() == s0);
                        self.give_up(cell, was);
                        proof {
                            assert(self.state().choices =~= pre.choices);
                            assert(self.state() == pre);
                            assert(queue_entries(self.queue) =~= queue_entries(e0.queue));
                            assert forall|c: int| 0 <= c < p.cells.len() implies #[trigger] self.fresh(
                                c,
                            ) by {
                                assert(e0.fresh(c));
                            }
                        }
                        return None;
                    },
                }
            },
            None => {},
        }
        assert(self.state() == s2);
        let ghost e2 = *self;
        match across {
            Some(a) => {
                self.refresh_line(a.0);
            },
            None => {},
        }
        let ghost e3 = *self;
        match down {
            Some(b) => {
                self.refresh_line(b.0);
            },
            None => {},
        }
        let token = UndoToken { cell, across: a_snap, down: d_snap };
        proof {
            lemma_committed(d, p, pre, cell as int, letter);
            lemma_committed_complete(d, p, pre, cell as int, letter);
            lemma_committed_frame(d, p, pre, cell as int, letter);
            lemma_commit_undo(d, p, pre, cell as int, letter);
            assert(self.state() == s2);
            assert forall|c: int| 0 <= c < p.cells.len() implies #[trigger] self.fresh(c) by {
                let la = across->0;
                let lb = down->0;
                let on_a = across is Some && p.on_line(c, la.0 as int);
                let on_b = down is Some && p.on_line(c, lb.0 as int);
                if on_b {
                } else if on_a {
                    assert(e3.fresh(c));
                    assert(same_entry(
                        queue_entries(self.queue),
                        queue_entries(e3.queue),
                        c as usize,
                    ));
                } else {
                    assert(c != cell);
                    assert(e0.fresh(c));
                    assert(same_entry(
                        queue_entries(self.queue),
                        queue_entries(e3.queue),
                        c as usize,
                    ));
                    assert(same_entry(
                        queue_entries(e3.queue),
                        queue_entries(e2.queue),
                        c as usize,
                    ));
                    assert(self.dists@[c] == e0.dists@[c]);
                    match p.cells[c].across {
                        Some(a) => {
                            assert(p.on_line(c, a.0 as int));
                            assert(!p.on_line(cell as int, a.0 as int));
                            lemma_place(p, c, ACROSS);
                            assert(s2.words[a.0 as int] == pre.words[a.0 as int]);
                        },
                        None => {},
                    }
                    match p.cells[c].down {
                        Some(b) => {
                            assert(p.on_line(c, b.0 as int));
                            assert(!p.on_line(cell as int, b.0 as int));
                            lemma_place(p, c, DOWN);
                            assert(s2.words[b.0 as int] == pre.words[b.0 as int]);
                        },
                        None => {},
                    }
                    lemma_joint_frame(d, p, pre, s2, c);
                }
            }
            assert(token@ =~= frame_of(d, p, pre, cell as int, letter));
        }
        Some(token)
    }

    /// Takes back the commit of `token`: sets the slots of its cell back, releases the
    /// words claimed for them, takes the cell's letter back, and computes anew the
    /// distributions and priorities of the cells on those slots.
    pub fn undo(&mut self, token: UndoToken)
        requires
            old(self).wf(),
            token.valid_for(old(self)),
        ensures
            final(self).wf(),
            final(self).dictionary() == old(self).dictionary(),
            final(self).grid() == old(self).grid(),
            final(self).state() == undone(old(self).grid(), old(self).state(), token@),
    {
        let ghost d = self.dict@;
        let ghost p = self.puzzle@;
        let ghost post = self.state();
        let ghost f = token@;
        let ghost e0 = *self;
        let UndoToken { cell, across, down } = token;
        proof {
            assert(p.place(cell as int, ACROSS) == p.cells[cell as int].across);
            assert(p.place(cell as int, DOWN) == p.cells[cell as int].down);
        }
        match down {
            Some(snap) => {
                self.restore(snap.line, snap.state, snap.held);
            },
            None => {},
        }
        assert(self.state() == undone_down(p, post, f));
        match across {
            Some(snap) => {
                self.restore(snap.line, snap.state, snap.held);
            },
            None => {},
        }
        assert(self.state() == undone_slots(p, post, f));
        self.set_choice(cell, None);
        assert(self.state() == undone(p, post, f));
        let ghost e1 = *self;
        let ghost back = self.state();
        match self.puzzle.cells[cell].across {
            Some(a) => {
                proof {
                    lemma_place(p, cell as int, ACROSS);
                }
                self.refresh_line(a.0);
            },
            None => {},
        }
        let ghost e2 = *self;
        match self.puzzle.cells[cell].down {
            Some(b) => {
                proof {
                    lemma_place(p, cell as int, DOWN);
                }
                self.refresh_line(b.0);
            },
            None => {},
        }
        proof {
            lemma_undone_frame(p, post, f);
            let pa = p.cells[cell as int].across;
            let pb = p.cells[cell as int].down;
            let la = pa->0;
            let lb = pb->0;
            assert forall|c: int| 0 <= c < p.cells.len() implies #[trigger] self.fresh(c) by {
                let on_a = pa is Some && p.on_line(c, la.0 as int);
                let on_b = pb is Some && p.on_line(c, lb.0 as int);
                if on_b {
                } else if on_a {
                    assert(e2.fresh(c));
                    assert(same_entry(
                        queue_entries(self.queue),
                        queue_entries(e2.queue),
                        c as usize,
                    ));
                } else {
                    assert(c != cell);
                    assert(e0.fresh(c));
                    assert(same_entry(
                        queue_entries(self.queue),
                        queue_entries(e2.queue),
                        c as usize,
                    ));
                    assert(same_entry(
                        queue_entries(e2.queue),
                        queue_entries(e1.queue),
                        c as usize,
                    ));
                    assert(self.dists@[c] == e0.dists@[c]);
                    match p.cells[c].across {
                        Some(a) => {
                            assert(p.on_line(c, a.0 as int));
                            lemma_place(p, c, ACROSS);
                            assert(back.words[a.0 as int] == post.words[a.0 as int]);
                        },
                        None => {},
                    }
                    match p.cells[c].down {
                        Some(b) => {
                            assert(p.on_line(c, b.0 as int));
                            lemma_place(p, c, DOWN);
                            assert(back.words[b.0 as int] == post.words[b.0 as int]);
                        },
                        None => {},
                    }
                    lemma_joint_frame(d, p, post, back, c);
                }
            }
        }
    }

    /// The engine for a grid and a dictionary, in the state in which the search starts:
    /// every slot has the words of its length, and no cell has a letter. Fails with
    /// `InvalidGrid` where the dictionary has no word of some slot's length.
    pub fn new(puzzle: Puzzle, dict: &'a Dictionary) -> (r: Result<Engine<'a>, EngineError>)
        requires
            dict.wf(),
            puzzle@.wf(),
        ensures
            r is Ok <==> slots_have_words(dict@, puzzle@),
            match r {
                Ok(e) => e.wf() && e.dictionary() == dict@ && e.grid() == puzzle@ && e.state()
                    == crate::model::initial(dict@, puzzle@),
                Err(err) => err == EngineError::InvalidGrid,
            },
    {
        let ghost d = dict@;
        let ghost p = puzzle@;
        let mut indices = WordIndices::new(dict);
        proof {
            dict.lemma_valid();
            indices.lemma_wf();
        }
        let line_count = puzzle.lines.len();
        let max = indices.max_len();
        let mut li: usize = 0;
        while li < line_count
            invariant
                li <= line_count,
                line_count == p.lines.len(),
                p == puzzle@,
                d == dict@,
                indices.wf(),
                indices.dict() == d,
                max == indices.spec_max_len(),
                max == max_len(d),
                crate::dictionary::valid_dictionary(d),
                forall|j: int|
                    0 <= j < li ==> (#[trigger] p.lines[j]).len() <= max
                        && crate::indices::ids_of_length(d, p.lines[j].len()).len() > 0,
            decreases line_count - li,
        {
            let len = puzzle.lines[li].cell_indices.len();
            assert(len == p.lines[li as int].len());
            if len > max {
                proof {
                    let ids = crate::indices::ids_of_length(d, len as nat);
                    crate::indices::lemma_matching(d, d.len(), crate::indices::has_length(len as nat));
                    if ids.len() > 0 {
                        assert(ids.contains(ids[0]));
                        crate::indices::lemma_longest(d, d.len(), ids[0] as int);
                    }
                }
                return Err(EngineError::InvalidGrid);
            }
            if indices.by_length(len).len() == 0 {
                return Err(EngineError::InvalidGrid);
            }
            li = li + 1;
        }
        assert(context_wf(d, p));
        assert(slots_have_words(d, p));
        let mut lines: Vec<LineState> = Vec::new();
        let mut k: usize = 0;
        proof {
            crate::model::lemma_seeded(d, p, 0);
            assert(indices.claimed_view() =~= crate::model::seeded(d, p, 0).claimed);
        }
        while k < line_count
            invariant
                k <= line_count,
                line_count == p.lines.len(),
                p == puzzle@,
                d == dict@,
                dict.wf(),
                context_wf(d, p),
                indices.wf(),
                indices.dict() == d,
                indices.spec_max_len() == max_len(d),
                lines@.len() == k,
                indices.claimed_view() == crate::model::seeded(d, p, k as nat).claimed,
                forall|j: int|
                    0 <= j < k ==> (#[trigger] lines@[j])@ == line_of(
                        d,
                        p.lines[j].len(),
                        crate::model::seeded(d, p, k as nat).words[j],
                    ),
            decreases line_count - k,
        {
            let ghost s = crate::model::seeded(d, p, k as nat);
            let ghost t = crate::model::seeded(d, p, (k + 1) as nat);
            proof {
                crate::model::lemma_seeded(d, p, k as nat);
                crate::model::lemma_seed(d, p, s, k as int);
                crate::model::lemma_seed_words(d, p, s, k as int);
                assert(t == crate::model::seed(d, p, s, k as int));
                crate::indices::lemma_matching(
                    d,
                    d.len(),
                    crate::indices::has_length(p.lines[k as int].len()),
                );
                assert(p.lines[k as int].len() <= max_len(d));
            }
            let len = puzzle.lines[k].cell_indices.len();
            proof {
                let all = crate::indices::ids_of_length(d, len as nat);
                assert forall|a: int| 0 <= a < all.len() implies (#[trigger] all[a]) < d.len()
                    && d[all[a] as int].len() == len by {
                    assert(all.contains(all[a]));
                    assert(crate::indices::has_length(len as nat)(d[all[a] as int]) == (d[all[a] as int].len()
                        == len));
                }
            }
            let line = LineState::initial(dict, len, indices.by_length(len), indices.claimed(len));
            assert(line@.words == crate::model::seed_words(d, p, s, k as int));
            if line.word_count() == 1 {
                let id = line.words()[0];
                proof {
                    assert(line@.words.contains(id));
                }
                let claimed = indices.claim(len, id);
                assert(claimed);
            }
            lines.push(line);
            proof {
                assert(indices.claimed_view() == t.claimed);
                assert forall|j: int| 0 <= j < k + 1 implies (#[trigger] lines@[j])@ == line_of(
                    d,
                    p.lines[j].len(),
                    t.words[j],
                ) by {
                    if j < k {
                        assert(t.words[j] == s.words[j]);
                    }
                }
            }
            k = k + 1;
        }
        let cell_count = puzzle.cells.len();
        let mut choices: Vec<Option<u8>> = Vec::new();
        let mut dists: Vec<LetterInventory> = Vec::new();
        let mut c: usize = 0;
        while c < cell_count
            invariant
                c <= cell_count,
                choices@.len() == c,
                dists@.len() == c,
                forall|j: int| 0 <= j < c ==> (#[trigger] choices@[j]) is None,
            decreases cell_count - c,
        {
            choices.push(None);
            dists.push(LetterInventory::new());
            c = c + 1;
        }
        let ghost start = crate::model::initial(d, p);
        proof {
            crate::model::lemma_initial(d, p);
            crate::model::lemma_seeded(d, p, p.lines.len());
        }
        let mut engine = Engine { dict, indices, puzzle, lines, choices, dists, queue: queue_new() };
        proof {
            assert(engine.state().words =~= start.words);
            assert(engine.state().choices =~= start.choices);
            assert(engine.state() == start);
        }
        let mut li: usize = 0;
        while li < line_count
            invariant
                li <= line_count,
                line_count == p.lines.len(),
                engine.base_wf(),
                engine.dict@ == d,
                engine.puzzle@ == p,
                engine.state() == start,
                forall|c: int|
                    0 <= c < p.cells.len() && (exists|j: int| 0 <= j < li && p.on_line(c, j))
                        ==> #[trigger] engine.fresh(c),
            decreases line_count - li,
        {
            let ghost before = engine;
            engine.refresh_line(li);
            proof {
                assert(engine.state() == start);
                assert forall|c: int|
                    0 <= c < p.cells.len() && (exists|j: int| 0 <= j < li + 1 && p.on_line(c, j)) implies #[trigger] engine.fresh(
                    c,
                ) by {
                    if !p.on_line(c, li as int) {
                        let j = choose|j: int| 0 <= j < li + 1 && p.on_line(c, j);
                        assert(0 <= j < li && p.on_line(c, j));
                        assert(before.fresh(c));
                        assert(same_entry(
                            queue_entries(engine.queue),
                            queue_entries(before.queue),
                            c as usize,
                        ));
                        assert(engine.dists@[c] == before.dists@[c]);
                    }
                }
            }
            li = li + 1;
        }
        proof {
            assert forall|c: int| 0 <= c < p.cells.len() implies #[trigger] engine.fresh(c) by {
                assert(p.cells[c].across is Some || p.cells[c].down is Some);
                assert(p.place(c, ACROSS) == p.cells[c].across);
                assert(p.place(c, DOWN) == p.cells[c].down);
                if p.cells[c].across is Some {
                    lemma_place(p, c, ACROSS);
                    let a = p.cells[c].across->0;
                    assert(p.on_line(c, a.0 as int));
                } else {
                    lemma_place(p, c, DOWN);
                    let b = p.cells[c].down->0;
                    assert(p.on_line(c, b.0 as int));
                }
            }
        }
        Ok(engine)
    }

    /// Number of cells.
    pub fn cell_count(&self) -> (n: usize)
        ensures
            n == self.grid().cells.len(),
    {
        self.puzzle.cells.len()
    }

    /// Number of slots.
    pub fn line_count(&self) -> (n: usize)
        ensures
            n == self.grid().lines.len(),
    {
        self.puzzle.lines.len()
    }

    /// The grid's cells and slots.
    pub fn puzzle(&self) -> (p: &Puzzle)
        ensures
            p@ == self.grid(),
    {
        &self.puzzle
    }

    /// The dictionary.
    pub fn dict(&self) -> (d: &'a Dictionary)
        ensures
            d@ == self.dictionary(),
    {
        self.dict
    }

    /// The letter committed to cell `cell`, if any.
    pub fn choice(&self, cell: usize) -> (l: Option<u8>)
        requires
            self.wf(),
            cell < self.grid().cells.len(),
        ensures
            l == self.state().choices[cell as int],
    {
        self.choices[cell]
    }

    /// The joint letter distribution of cell `cell`.
    pub fn char_dist(&self, cell: usize) -> (inv: &LetterInventory)
        requires
            self.wf(),
            cell < self.grid().cells.len(),
        ensures
            inv@ == joint(self.dictionary(), self.grid(), self.state(), cell as int),
    {
        assert(self.fresh(cell as int));
        &self.dists[cell]
    }

    /// The state of slot `li`.
    pub fn line(&self, li: usize) -> (line: &LineState)
        requires
            self.wf(),
            li < self.grid().lines.len(),
        ensures
            line@ == line_of(
                self.dictionary(),
                self.grid().lines[li as int].len(),
                self.state().words[li as int],
            ),
    {
        &self.lines[li]
    }

    /// A consistent engine has a consistent state that has lost no solution; every
    /// slot's fields are those of its words, every cell's distribution is the joint
    /// distribution of its slots, and the queue's members are exactly the cells without
    /// a letter, each with the priority of its tightness.
    pub proof fn lemma_wf(&self)
        requires
            self.wf(),
        ensures
            context_wf(self.dictionary(), self.grid()),
            state_wf(self.dictionary(), self.grid(), self.state()),
            complete(self.dictionary(), self.grid(), self.state()),
            self.line_views().len() == self.grid().lines.len(),
            forall|li: int|
                0 <= li < self.grid().lines.len() ==> #[trigger] self.line_views()[li] == line_of(
                    self.dictionary(),
                    self.grid().lines[li].len(),
                    self.state().words[li],
                ),
            self.char_dists().len() == self.grid().cells.len(),
            forall|c: int|
                0 <= c < self.grid().cells.len() ==> #[trigger] self.char_dists()[c] == joint(
                    self.dictionary(),
                    self.grid(),
                    self.state(),
                    c,
                ),
            self.queue() == mrv_entries(self.dictionary(), self.grid(), self.state()),
    {
        let d = self.dict@;
        let p = self.puzzle@;
        let s = self.state();
        assert forall|c: int| 0 <= c < p.cells.len() implies #[trigger] self.char_dists()[c] == joint(
            d,
            p,
            s,
            c,
        ) by {
            assert(self.fresh(c));
        }
        assert forall|c: usize| #[trigger]
            self.queue().contains_key(c) <==> mrv_entries(d, p, s).contains_key(c) by {
            if c < p.cells.len() {
                assert(self.fresh(c as int));
            }
        }
        assert forall|c: usize| #[trigger] self.queue().contains_key(c) implies self.queue()[c]
            == mrv_entries(d, p, s)[c] by {
            assert(self.fresh(c as int));
        }
        assert(self.queue() =~= mrv_entries(d, p, s));
    }

    /// Picks the cell to fill next, the first of the tightest among those without a
    /// letter, and the letters to try for it.
    pub fn next_choice(&self) -> (step: Step)
        requires
            self.wf(),
        ensures
            crate::model::all_chosen(self.state()) ==> step is Success,
            !(step is Success) ==> by_frequency(
                letters_for(
                    joint(
                        self.dictionary(),
                        self.grid(),
                        self.state(),
                        pick(self.dictionary(), self.grid(), self.state()),
                    ),
                ),
                joint(
                    self.dictionary(),
                    self.grid(),
                    self.state(),
                    pick(self.dictionary(), self.grid(), self.state()),
                ),
            ),
            match step {
                Step::Success => true,
                Step::Failure => letters_for(
                    joint(
                        self.dictionary(),
                        self.grid(),
                        self.state(),
                        pick(self.dictionary(), self.grid(), self.state()),
                    ),
                ) == Seq::<u8>::empty(),
                Step::Single(cell, letter) => cell == pick(
                    self.dictionary(),
                    self.grid(),
                    self.state(),
                ) && letters_for(joint(self.dictionary(), self.grid(), self.state(), cell as int))
                    == seq![letter],
                Step::Many(cell, letters) => cell == pick(
                    self.dictionary(),
                    self.grid(),
                    self.state(),
                ) && letters_for(joint(self.dictionary(), self.grid(), self.state(), cell as int))
                    == letters@,
            },
            match step {
                Step::Success => crate::model::all_chosen(self.state()),
                Step::Failure => exists|c: int| #[trigger]
                    tightest(self.dictionary(), self.grid(), self.state(), c) && support_of(
                        joint(self.dictionary(), self.grid(), self.state(), c),
                    ) == Set::<u8>::empty(),
                Step::Single(cell, letter) => tightest(
                    self.dictionary(),
                    self.grid(),
                    self.state(),
                    cell as int,
                ) && support_of(joint(self.dictionary(), self.grid(), self.state(), cell as int))
                    == set![letter],
                Step::Many(cell, letters) => tightest(
                    self.dictionary(),
                    self.grid(),
                    self.state(),
                    cell as int,
                ) && letters@.len() > 1 && by_frequency(
                    letters@,
                    joint(self.dictionary(), self.grid(), self.state(), cell as int),
                ),
            },
    {
        let ghost d = self.dict@;
        let ghost p = self.puzzle@;
        let ghost s = self.state();
        match queue_peek(&self.queue) {
            None => {
                proof {
                    assert forall|c: int| 0 <= c < s.choices.len() implies (#[trigger] s.choices[c]) is Some by {
                        assert(self.fresh(c));
                        assert(!queue_entries(self.queue).contains_key(c as usize));
                    }
                    assert(crate::model::all_chosen(s));
                }
                Step::Success
            },
            Some((top, priority)) => {
                proof {
                    assert(queue_entries(self.queue).contains_key(top));
                    assert(s.choices[top as int] is None);
                    assert(self.fresh(top as int));
                    lemma_joint(d, p, s, top as int);
                    assert forall|c2: int|
                        0 <= c2 < p.cells.len() && (#[trigger] s.choices[c2]) is None implies tightness(
                        d,
                        p,
                        s,
                        top as int,
                    ) <= tightness(d, p, s, c2) by {
                        assert(self.fresh(c2));
                        lemma_joint(d, p, s, c2);
                        assert(queue_entries(self.queue).contains_key(c2 as usize));
                    }
                    assert(tightest(d, p, s, top as int));
                }
                let least = self.dists[top].total();
                let mut cell: usize = 0;
                loop
                    invariant_except_break
                        cell <= top,
                        top < p.cells.len(),
                        self.wf(),
                        d == self.dict@,
                        p == self.puzzle@,
                        s == self.state(),
                        least == tightness(d, p, s, top as int),
                        tightest(d, p, s, top as int),
                        forall|c2: int|
                            0 <= c2 < cell ==> !(s.choices[c2] is None && #[trigger] tightness(
                                d,
                                p,
                                s,
                                c2,
                            ) == least),
                    ensures
                        cell <= top,
                        s.choices[cell as int] is None,
                        tightness(d, p, s, cell as int) == least,
                        forall|c2: int|
                            0 <= c2 < cell ==> !(s.choices[c2] is None && #[trigger] tightness(
                                d,
                                p,
                                s,
                                c2,
                            ) == least),
                    decreases top - cell,
                {
                    proof {
                        assert(self.fresh(cell as int));
                        lemma_joint(d, p, s, cell as int);
                    }
                    if self.choices[cell].is_none() && self.dists[cell].total() == least {
                        break ;
                    }
                    cell = cell + 1;
                }
                proof {
                    assert(self.fresh(cell as int));
                    assert(tightest(d, p, s, cell as int));
                    assert forall|c2: int| 0 <= c2 < cell implies !#[trigger] tightest(d, p, s, c2) by {
                        if tightest(d, p, s, c2) {
                            assert(s.choices[top as int] is None);
                            assert(tightness(d, p, s, c2) <= tightness(d, p, s, top as int));
                            assert(s.choices[c2] is None);
                            assert(tightness(d, p, s, top as int) <= tightness(d, p, s, c2));
                        }
                    }
                    crate::search::lemma_pick(d, p, s, cell as int);
                }
                let letters = self.dists[cell].letters_by_frequency();
                let ghost dist = joint(d, p, s, cell as int);
                proof {
                    crate::search::lemma_letters_for(letters@, dist);
                }
                if letters.len() == 0 {
                    assert(letters@ =~= Seq::<u8>::empty());
                    proof {
                        assert forall|l: u8| !support_of(dist).contains(l) by {
                            if support_of(dist).contains(l) {
                                assert(letters@.contains(l));
                            }
                        }
                        assert(support_of(dist) =~= Set::<u8>::empty());
                        assert(tightest(
                            self.dictionary(),
                            self.grid(),
                            self.state(),
                            cell as int,
                        ) && support_of(
                            joint(self.dictionary(), self.grid(), self.state(), cell as int),
                        ) == Set::<u8>::empty());
                    }
                    Step::Failure
                } else if letters.len() == 1 {
                    let letter = letters[0];
                    assert(letters@ =~= seq![letter]);
                    proof {
                        assert forall|l: u8| support_of(dist).contains(l) <==> l == letter by {
                            if support_of(dist).contains(l) {
                                assert(letters@.contains(l));
                            }
                            if l == letter {
                                assert(support_of(dist).contains(letters@[0]));
                            }
                        }
                        assert(support_of(dist) =~= set![letter]);
                    }
                    Step::Single(cell, letter)
                } else {
                    Step::Many(cell, letters)
                }
            },
        }
    }

    /// The search, from the engine's state on: fills the tightest cell with each of its
    /// letters in turn and goes on from there, coming back where that ends in a dead
    /// end. `budget` is the number of dead ends that the search may still come to.
    fn search(&mut self, budget: &mut u64) -> (r: Outcome)
        requires
            old(self).wf(),
        ensures
            final(self).wf(),
            final(self).dictionary() == old(self).dictionary(),
            final(self).grid() == old(self).grid(),
            *final(budget) <= *old(budget),
            crate::model::all_chosen(old(self).state()) ==> r is Solved,
            match r {
                Outcome::Solved => crate::model::all_chosen(final(self).state())
                    && crate::model::keeps_choices(
                    old(self).state().choices,
                    final(self).state().choices,
                ),
                Outcome::DeadEnd => final(self).state() == old(self).state()
                    && crate::model::hopeless(
                    old(self).dictionary(),
                    old(self).grid(),
                    old(self).state().choices,
                ),
                Outcome::OutOfBudget => final(self).state() == old(self).state() && *final(budget)
                    == 0,
            },
            ended_as(
                r,
                final(self).state(),
                old(self).state(),
                *final(budget),
                search(
                    old(self).dictionary(),
                    old(self).grid(),
                    old(self).state(),
                    *old(budget) as nat,
                    crate::model::unsolved(old(self).state().choices),
                ),
            ),
            fills_at_once(old(self).dictionary(), old(self).grid(), old(self).state()) ==> r
                is Solved,
        decreases crate::model::unsolved(old(self).state().choices), 1nat,
    {
        let ghost d = self.dict@;
        let ghost p = self.puzzle@;
        let ghost pre = self.state();
        let ghost depth = crate::model::unsolved(pre.choices);
        let ghost start = *budget as nat;
        proof {
            crate::search::lemma_unsolved_none(pre.choices);
        }
        let step = self.next_choice();
        proof {
            if fills_at_once(d, p, pre) {
                assert(pre.choices[0] is None);
                assert(tightest(d, p, pre, 0));
                crate::search::lemma_pick(d, p, pre, 0);
                crate::model::lemma_unsolved_update(pre.choices, 0, 0);
                let dist = joint(d, p, pre, 0);
                let letters = letters_for(dist);
                crate::letters::lemma_sum_below_zero(dist, 26);
                let l = choose|l: int| 0 <= l < 26 && dist[l] != 0;
                assert(support_of(dist).contains(l as u8));
                assert(letters.contains(l as u8));
                assert(support_of(dist).contains(letters[0]));
                crate::model::lemma_single_cell_commit(d, p, pre, letters[0]);
            }
        }
        match step {
            Step::Success => Outcome::Solved,
            Step::Failure => {
                proof {
                    let c = choose|c: int| #[trigger]
                        tightest(d, p, pre, c) && support_of(joint(d, p, pre, c))
                            == Set::<u8>::empty();
                    assert forall|ch: u8|
                        ch < 26 && joint(d, p, pre, c)[ch as int] > 0 implies #[trigger] crate::model::hopeless(
                        d,
                        p,
                        chosen(pre, c, ch).choices,
                    ) by {
                        assert(support_of(joint(d, p, pre, c)).contains(ch));
                    }
                    crate::model::lemma_exhausted(d, p, pre, c);
                }
                dead_end(budget)
            },
            Step::Single(cell, letter) => {
                proof {
                    assert(support_of(joint(d, p, pre, cell as int)).contains(letter));
                    lemma_committed_complete(d, p, pre, cell as int, letter);
                    lemma_committed_frame(d, p, pre, cell as int, letter);
                    crate::model::lemma_unsolved_update(pre.choices, cell as int, letter);
                    assert forall|ch: u8|
                        ch < 26 && joint(d, p, pre, cell as int)[ch as int] > 0 implies ch
                        == letter by {
                        assert(support_of(joint(d, p, pre, cell as int)).contains(ch));
                    }
                }
                let ghost letters = letters_for(joint(d, p, pre, cell as int));
                proof {
                    assert(letters.len() == 1 && letters[0] == letter);
                }
                match self.try_letter(cell, letter, budget) {
                    Outcome::Solved => Outcome::Solved,
                    Outcome::OutOfBudget => Outcome::OutOfBudget,
                    Outcome::DeadEnd => {
                        proof {
                            crate::model::lemma_exhausted(d, p, pre, cell as int);
                            assert(try_from(d, p, pre, cell as int, letters, 1, *budget as nat, depth)
                                == (Found::DeadEnd, *budget as nat));
                        }
                        dead_end(budget)
                    },
                }
            },
            Step::Many(cell, letters) => {
                let mut i: usize = 0;
                while i < letters.len()
                    invariant
                        i <= letters@.len(),
                        self.wf(),
                        self.dict@ == d,
                        self.puzzle@ == p,
                        self.state() == pre,
                        d == old(self).dict@,
                        p == old(self).puzzle@,
                        pre == old(self).state(),
                        *budget <= *old(budget),
                        tightest(d, p, pre, cell as int),
                        by_frequency(letters@, joint(d, p, pre, cell as int)),
                        forall|j: int|
                            0 <= j < i ==> crate::model::hopeless(
                                d,
                                p,
                                chosen(pre, cell as int, #[trigger] letters@[j]).choices,
                            ),
                        depth == crate::model::unsolved(pre.choices),
                        start == *old(budget),
                        fills_at_once(d, p, pre) ==> i == 0 && depth > 0
                            && crate::model::all_chosen(
                            committed(d, p, pre, 0, letters@[0])->0,
                        ) && committed(d, p, pre, 0, letters@[0]) is Some,
                        cell == pick(d, p, pre),
                        letters@ == letters_for(joint(d, p, pre, cell as int)),
                        !crate::model::all_chosen(pre),
                        try_from(d, p, pre, cell as int, letters@, i as int, *budget as nat, depth)
                            == try_from(d, p, pre, cell as int, letters@, 0, start, depth),
                    decreases letters@.len() - i,
                {
                    let letter = letters[i];
                    proof {
                        assert(support_of(joint(d, p, pre, cell as int)).contains(letters@[i as int]));
                    }
                    match self.try_letter(cell, letter, budget) {
                        Outcome::Solved => {
                            return Outcome::Solved;
                        },
                        Outcome::OutOfBudget => {
                            return Outcome::OutOfBudget;
                        },
                        Outcome::DeadEnd => {},
                    }
                    i = i + 1;
                }
                proof {
                    assert forall|ch: u8|
                        ch < 26 && joint(d, p, pre, cell as int)[ch as int] > 0 implies #[trigger] crate::model::hopeless(
                        d,
                        p,
                        chosen(pre, cell as int, ch).choices,
                    ) by {
                        assert(support_of(joint(d, p, pre, cell as int)).contains(ch));
                        assert(letters@.contains(ch));
                        let j = choose|j: int| 0 <= j < letters@.len() && letters@[j] == ch;
                        assert(crate::model::hopeless(
                            d,
                            p,
                            chosen(pre, cell as int, letters@[j]).choices,
                        ));
                    }
                    crate::model::lemma_exhausted(d, p, pre, cell as int);
                }
                dead_end(budget)
            },
        }
    }

    /// Commits `letter` to `cell` and searches on from there; takes the letter back
    /// unless that fills the grid.
    fn try_letter(&mut self, cell: usize, letter: u8, budget: &mut u64) -> (r: Outcome)
        requires
            old(self).wf(),
            cell < old(self).grid().cells.len(),
            old(self).state().choices[cell as int] is None,
            letter < 26,
            joint(old(self).dictionary(), old(self).grid(), old(self).state(), cell as int)[letter as int]
                > 0,
        ensures
            final(self).wf(),
            final(self).dictionary() == old(self).dictionary(),
            final(self).grid() == old(self).grid(),
            *final(budget) <= *old(budget),
            match r {
                Outcome::Solved => crate::model::all_chosen(final(self).state())
                    && crate::model::keeps_choices(
                    old(self).state().choices,
                    final(self).state().choices,
                ),
                Outcome::DeadEnd => final(self).state() == old(self).state()
                    && crate::model::hopeless(
                    old(self).dictionary(),
                    old(self).grid(),
                    chosen(old(self).state(), cell as int, letter).choices,
                ),
                Outcome::OutOfBudget => final(self).state() == old(self).state() && *final(budget)
                    == 0,
            },
            ended_as(
                r,
                final(self).state(),
                old(self).state(),
                *final(budget),
                try_one(
                    old(self).dictionary(),
                    old(self).grid(),
                    old(self).state(),
                    cell as int,
                    letter,
                    *old(budget) as nat,
                    crate::model::unsolved(old(self).state().choices),
                ),
            ),
        decreases crate::model::unsolved(old(self).state().choices), 0nat,
    {
        let ghost d = self.dict@;
        let ghost p = self.puzzle@;
        let ghost pre = self.state();
        proof {
            lemma_committed_complete(d, p, pre, cell as int, letter);
            lemma_committed_frame(d, p, pre, cell as int, letter);
            crate::model::lemma_unsolved_update(pre.choices, cell as int, letter);
        }
        match self.commit(cell, letter) {
            None => Outcome::DeadEnd,
            Some(token) => {
                let ghost post = self.state();
                proof {
                    lemma_commit_undo(d, p, pre, cell as int, letter);
                    assert(post.choices == pre.choices.update(cell as int, Some(letter)));
                }
                let r = self.search(budget);
                match r {
                    Outcome::Solved => {
                        proof {
                            assert(crate::model::keeps_choices(pre.choices, self.state().choices)) by {
                                assert forall|c: int|
                                    0 <= c < pre.choices.len() && (#[trigger] pre.choices[c]) is Some implies self.state().choices[c]
                                    == pre.choices[c] by {
                                    assert(post.choices[c] == pre.choices[c]);
                                }
                            }
                        }
                        Outcome::Solved
                    },
                    Outcome::DeadEnd => {
                        assert(token.valid_for(self));
                        self.undo(token);
                        Outcome::DeadEnd
                    },
                    Outcome::OutOfBudget => {
                        assert(token.valid_for(self));
                        self.undo(token);
                        Outcome::OutOfBudget
                    },
                }
            },
        }
    }

    /// Each cell with its letter, once every cell has one.
    fn assignment(&self) -> (fill: Vec<(usize, char)>)
        requires
            self.wf(),
            crate::model::all_chosen(self.state()),
        ensures
            fill@ == filled(self.state().choices),
    {
        let ghost s = self.state();
        let mut fill: Vec<(usize, char)> = Vec::new();
        let mut c: usize = 0;
        while c < self.choices.len()
            invariant
                c <= self.choices@.len(),
                self.wf(),
                s == self.state(),
                crate::model::all_chosen(s),
                fill@.len() == c,
                forall|k: int| 0 <= k < c ==> #[trigger] fill@[k] == filled(s.choices)[k],
            decreases self.choices@.len() - c,
        {
            assert(s.choices[c as int] is Some);
            match self.choices[c] {
                Some(l) => {
                    fill.push((c, LetterSet::letter(l)));
                },
                None => {},
            }
            c = c + 1;
        }
        assert(fill@ =~= filled(s.choices));
        fill
    }

    /// The cells that a single letter fits, each with that letter.
    fn determined_cells(&self) -> (cells: Vec<(usize, char)>)
        requires
            self.wf(),
        ensures
            determined(self.dictionary(), self.grid(), self.state(), cells@),
            in_every_solution(self.dictionary(), self.grid(), self.state(), cells@),
    {
        let ghost d = self.dict@;
        let ghost p = self.puzzle@;
        let ghost s = self.state();
        let mut cells: Vec<(usize, char)> = Vec::new();
        let mut c: usize = 0;
        while c < self.dists.len()
            invariant
                c <= self.dists@.len(),
                self.wf(),
                d == self.dict@,
                p == self.puzzle@,
                s == self.state(),
                forall|k: int|
                    0 <= k < cells@.len() ==> (#[trigger] cells@[k]).0 < c
                        && crate::letters::letter_index(cells@[k].1) is Some && support_of(
                        joint(d, p, s, cells@[k].0 as int),
                    ) == set![crate::letters::letter_index(cells@[k].1)->0],
                forall|i: int, j: int| 0 <= i < j < cells@.len() ==> cells@[i].0 < cells@[j].0,
                forall|c2: int, l: u8|
                    0 <= c2 < c && #[trigger] fits_only(joint(d, p, s, c2), l) ==> exists|k: int|
                        0 <= k < cells@.len() && (#[trigger] cells@[k]).0 == c2,
            decreases self.dists@.len() - c,
        {
            assert(self.fresh(c as int));
            let set = self.dists[c].letter_set();
            let ghost before = cells@;
            if set.len() == 1 {
                let indices = set.indices();
                let l = indices[0];
                proof {
                    set.lemma_view();
                    assert(indices@.contains(l));
                    assert(set@.contains(l));
                    assert(set@ =~= set![l]) by {
                        assert(set@.remove(l).len() == 0);
                        assert forall|m: u8| set@.contains(m) implies m == l by {
                            if m != l {
                                assert(set@.remove(l).contains(m));
                            }
                        }
                    }
                }
                cells.push((c, LetterSet::letter(l)));
                proof {
                    assert forall|c2: int, m: u8|
                        0 <= c2 < c + 1 && #[trigger] fits_only(joint(d, p, s, c2), m) implies exists|
                        k: int,
                    |
                        0 <= k < cells@.len() && (#[trigger] cells@[k]).0 == c2 by {
                        if c2 < c {
                            let k = choose|k: int| 0 <= k < before.len() && (#[trigger] before[k]).0 == c2;
                            assert(cells@[k].0 == c2);
                        } else {
                            assert(cells@[before.len() as int].0 == c2);
                        }
                    }
                }
            } else {
                proof {
                    set.lemma_view();
                    assert forall|c2: int, m: u8|
                        0 <= c2 < c + 1 && #[trigger] fits_only(joint(d, p, s, c2), m) implies exists|
                        k: int,
                    |
                        0 <= k < cells@.len() && (#[trigger] cells@[k]).0 == c2 by {
                        if c2 == c {
                            assert(set@ == set![m]);
                            assert(set![m].len() == 1);
                        }
                    }
                }
            }
            c = c + 1;
        }
        proof {
            assert forall|sol: Seq<u32>, k: int|
                #![trigger crate::model::is_solution(d, p, sol), cells@[k]]
                crate::model::is_solution(d, p, sol) && crate::model::extends(
                    d,
                    p,
                    sol,
                    s.choices,
                ) && 0 <= k < cells@.len() implies crate::letters::letter_index(cells@[k].1)
                == Some(crate::model::letter_of(d, p, sol, cells@[k].0 as int)) by {
                let c2 = cells@[k].0 as int;
                assert(crate::model::keeps(s, sol));
                crate::model::lemma_solution_letter_fits(d, p, s, c2, sol);
                let l = crate::model::letter_of(d, p, sol, c2);
                assert(support_of(joint(d, p, s, c2)).contains(l));
            }
        }
        cells
    }

    /// Searches for a fill of the grid that keeps the letters committed so far.
    ///
    /// `Solved` leaves the engine with a letter in every cell. `Unsolvable` and
    /// `Incomplete` leave it as it was: the first where no fill exists, the second
    /// where the search came to more than `budget` dead ends. Which of the three it
    /// is, and which fill, is a function of the state and the budget.
    pub fn solve(&mut self, budget: u64) -> (r: SolveResult)
        requires
            old(self).wf(),
        ensures
            final(self).wf(),
            final(self).dictionary() == old(self).dictionary(),
            final(self).grid() == old(self).grid(),
            crate::model::all_chosen(old(self).state()) ==> r is Solved,
            match found(
                old(self).dictionary(),
                old(self).grid(),
                old(self).state(),
                budget as nat,
            ) {
                Found::Solved(state) => r is Solved && final(self).state() == state,
                Found::DeadEnd => r is Unsolvable,
                Found::OutOfBudget => r is Incomplete,
            },
            fills_at_once(old(self).dictionary(), old(self).grid(), old(self).state()) ==> r
                is Solved,
            match r {
                SolveResult::Solved(fill) => {
                    &&& crate::model::all_chosen(final(self).state())
                    &&& crate::model::keeps_choices(
                        old(self).state().choices,
                        final(self).state().choices,
                    )
                    &&& crate::model::is_solution(
                        old(self).dictionary(),
                        old(self).grid(),
                        crate::model::solution_of(final(self).state()),
                    )
                    &&& crate::model::extends(
                        old(self).dictionary(),
                        old(self).grid(),
                        crate::model::solution_of(final(self).state()),
                        final(self).state().choices,
                    )
                    &&& fill@ == filled(final(self).state().choices)
                },
                SolveResult::Incomplete(cells) => {
                    &&& final(self).state() == old(self).state()
                    &&& determined(
                        old(self).dictionary(),
                        old(self).grid(),
                        old(self).state(),
                        cells@,
                    )
                    &&& in_every_solution(
                        old(self).dictionary(),
                        old(self).grid(),
                        old(self).state(),
                        cells@,
                    )
                },
                SolveResult::Unsolvable => final(self).state() == old(self).state()
                    && crate::model::hopeless(
                    old(self).dictionary(),
                    old(self).grid(),
                    old(self).state().choices,
                ),
            },
    {
        let mut remaining = budget;
        let r = self.search(&mut remaining);
        match r {
            Outcome::Solved => {
                proof {
                    crate::model::lemma_solved(self.dict@, self.puzzle@, self.state());
                }
                SolveResult::Solved(self.assignment())
            },
            Outcome::DeadEnd => SolveResult::Unsolvable,
            Outcome::OutOfBudget => SolveResult::Incomplete(self.determined_cells()),
        }
    }

    /// Pins letter `letter` to cell `cell`: commits it for good.
    pub fn pin(&mut self, cell: usize, letter: char) -> (r: Result<(), EngineError>)
        requires
            old(self).wf(),
            cell < old(self).grid().cells.len(),
        ensures
            final(self).wf(),
            final(self).dictionary() == old(self).dictionary(),
            final(self).grid() == old(self).grid(),
            r == pin_outcome(
                old(self).dictionary(),
                old(self).grid(),
                old(self).state(),
                cell as int,
                letter,
            ),
            match r {
                Ok(_) => Some(final(self).state()) == committed(
                    old(self).dictionary(),
                    old(self).grid(),
                    old(self).state(),
                    cell as int,
                    crate::letters::letter_index(letter)->0,
                ),
                Err(_) => final(self).state() == old(self).state(),
            },
    {
        match LetterSet::index(letter) {
            None => Err(EngineError::InvalidLetter),
            Some(l) => {
                if self.choices[cell].is_some() {
                    return Err(EngineError::AlreadyChosen);
                }
                assert(self.fresh(cell as int));
                if self.dists[cell].count(l) == 0 {
                    return Err(EngineError::InvalidLetter);
                }
                match self.commit(cell, l) {
                    Some(_) => Ok(()),
                    None => Err(EngineError::DeadEnd),
                }
            },
        }
    }

    /// Releases the words that the first `k` slots were given to hold when they took
    /// their words of `work`.
    fn release(&mut self, work: &Vec<LineState>, k: usize, Ghost(s): Ghost<State>)
        requires
            old(self).indices.wf(),
            old(self).indices.dict() == old(self).dict@,
            old(self).indices.spec_max_len() == max_len(old(self).dict@),
            context_wf(old(self).dict@, old(self).puzzle@),
            core_wf(old(self).dict@, old(self).puzzle@, s),
            work_wf(old(self).dict@, old(self).puzzle@, work@),
            within(words_of(work@), s.words),
            k <= old(self).puzzle@.lines.len(),
            s.words == words_of(old(self).lines@),
            old(self).lines@.len() == old(self).puzzle@.lines.len(),
            installable(old(self).puzzle@, s, words_of(work@), k as nat),
            old(self).indices.claimed_view() == installed(
                old(self).puzzle@,
                s,
                words_of(work@),
                k as nat,
            ).claimed,
        ensures
            final(self).indices.wf(),
            final(self).indices.dict() == old(self).indices.dict(),
            final(self).indices.spec_max_len() == old(self).indices.spec_max_len(),
            final(self).indices.claimed_view() == s.claimed,
            final(self).dict == old(self).dict,
            final(self).puzzle == old(self).puzzle,
            final(self).lines == old(self).lines,
            final(self).choices == old(self).choices,
            final(self).dists == old(self).dists,
            final(self).queue == old(self).queue,
    {
        let ghost d = self.dict@;
        let ghost p = self.puzzle@;
        let ghost r = words_of(work@);
        assert(all_fitting(d, p, r)) by {
            assert forall|li: int| 0 <= li < p.lines.len() implies crate::line::fitting(
                d,
                p.lines[li].len(),
                #[trigger] r[li],
            ) by {
                assert(r[li] == work@[li]@.words);
            }
        }
        let mut j: usize = k;
        while j > 0
            invariant
                j <= k,
                k <= p.lines.len(),
                d == self.dict@,
                p == self.puzzle@,
                r == words_of(work@),
                self.indices.wf(),
                self.indices.dict() == old(self).indices.dict(),
                self.indices.spec_max_len() == old(self).indices.spec_max_len(),
                self.indices.spec_max_len() == max_len(d),
                context_wf(d, p),
                core_wf(d, p, s),
                all_fitting(d, p, r),
                within(r, s.words),
                work_wf(d, p, work@),
                s.words == words_of(self.lines@),
                self.lines@.len() == p.lines.len(),
                installable(p, s, r, k as nat),
                self.indices.claimed_view() == installed(p, s, r, j as nat).claimed,
                self.dict == old(self).dict,
                self.puzzle == old(self).puzzle,
                self.lines == old(self).lines,
                self.choices == old(self).choices,
                self.dists == old(self).dists,
                self.queue == old(self).queue,
            decreases j,
        {
            j = j - 1;
            let ghost t = installed(p, s, r, j as nat);
            proof {
                assert(installable(p, s, r, j as nat)) by {
                    assert forall|li: int| 0 <= li < j implies #[trigger] step_ok(p, s, r, li) by {}
                }
                lemma_installed(d, p, s, r, j as nat);
                assert(step_ok(p, s, r, j as int));
                assert(t.words[j as int] == s.words[j as int]);
                assert(r[j as int] == work@[j as int]@.words);
                assert(s.words[j as int] == self.lines@[j as int]@.words);
                assert(p.lines[j as int].len() <= max_len(d));
            }
            if work[j].word_count() == 1 && self.lines[j].word_count() != 1 {
                let id = work[j].words()[0];
                let len = self.puzzle.lines[j].cell_indices.len();
                proof {
                    let c = t.claimed[len as int];
                    assert(crate::model::held_anew(s.words[j as int], r[j as int]) == Some(id));
                    crate::indices::lemma_with_then_without(c, id);
                    let added = crate::indices::with_id(c, id);
                    assert(t.claimed.update(len as int, added).update(
                        len as int,
                        crate::indices::without_id(added, id),
                    ) =~= t.claimed);
                }
                self.indices.unclaim(len, id);
            }
        }
    }

    /// Removes from each slot the words that the crossing slots do not support, again
    /// and again until none is left to remove, and claims the words that slots come to
    /// hold. Returns the number of words before and after.
    ///
    /// Fails with `DeadEnd`, leaving the state as it was, where a slot would be left
    /// without a word, or two slots with the same single word: no fill exists then.
    pub fn prefilter(&mut self) -> (r: Result<Reduction, EngineError>)
        requires
            old(self).wf(),
        ensures
            final(self).wf(),
            final(self).dictionary() == old(self).dictionary(),
            final(self).grid() == old(self).grid(),
            match r {
                Ok(counts) => {
                    &&& prefilter_view(old(self).dictionary(), old(self).grid(), old(self).state())
                        == Some(final(self).state())
                    &&& counts.before == total_words(old(self).state().words)
                    &&& counts.after == total_words(final(self).state().words)
                    &&& counts.after <= counts.before
                },
                Err(e) => {
                    &&& e == EngineError::DeadEnd
                    &&& prefilter_view(old(self).dictionary(), old(self).grid(), old(self).state())
                        is None
                    &&& final(self).state() == old(self).state()
                },
            },
    {
        let ghost d = self.dict@;
        let ghost p = self.puzzle@;
        let ghost s = self.state();
        let ghost e0 = *self;
        proof {
            assert(words_of(self.lines@) =~= s.words);
            assert(work_wf(d, p, self.lines@)) by {
                assert forall|li: int| 0 <= li < self.lines@.len() implies (#[trigger] self.lines@[li])@
                    == line_of(d, p.lines[li].len(), self.lines@[li]@.words) && crate::line::fitting(
                    d,
                    p.lines[li].len(),
                    self.lines@[li]@.words,
                ) by {
                    assert(crate::line::fitting(d, p.lines[li].len(), s.words[li]));
                }
            }
        }
        let n = self.lines.len();
        let settled = settle(self.dict, &self.puzzle, &self.lines);
        let mut work = match settled {
            Some(work) => work,
            None => {
                proof {
                    let core = core_words(d, p, s.words);
                    let li = choose|li: int| 0 <= li < p.lines.len() && (#[trigger] core[li]).len() == 0;
                    assert(!step_ok(p, s, core, li));
                }
                return Err(EngineError::DeadEnd);
            },
        };
        let ghost r = words_of(work@);
        proof {
            assert(all_ascending(s.words)) by {
                assert forall|li: int| 0 <= li < s.words.len() implies ascending(#[trigger] s.words[li]) by {
                    assert(crate::line::fitting(d, p.lines[li].len(), s.words[li]));
                }
            }
            lemma_core(d, p, s.words);
            assert(all_fitting(d, p, r)) by {
                assert forall|li: int| 0 <= li < p.lines.len() implies crate::line::fitting(
                    d,
                    p.lines[li].len(),
                    #[trigger] r[li],
                ) by {
                    assert(r[li] == work@[li]@.words);
                }
            }
        }
        let before = count_words(&self.lines);
        let after = count_words(&work);
        proof {
            assert forall|li: int| 0 <= li < r.len() implies (#[trigger] r[li]).len() <= s.words[li].len() by {
                s.words[li].lemma_filter_len(crate::prefilter::in_core(d, p, s.words, li));
            }
            crate::prefilter::lemma_total_le(r, s.words);
        }
        let mut li: usize = 0;
        while li < n
            invariant
                li <= n,
                n == p.lines.len(),
                d == self.dict@,
                p == self.puzzle@,
                r == words_of(work@),
                r == core_words(d, p, s.words),
                self.indices.wf(),
                self.indices.dict() == d,
                self.indices.spec_max_len() == max_len(d),
                context_wf(d, p),
                core_wf(d, p, s),
                all_fitting(d, p, r),
                within(r, s.words),
                work_wf(d, p, work@),
                forall|j: int| 0 <= j < work@.len() ==> (#[trigger] work@[j])@.words.len() > 0,
                s.words == words_of(self.lines@),
                s == e0.state(),
                self.lines@.len() == p.lines.len(),
                installable(p, s, r, li as nat),
                self.indices.claimed_view() == installed(p, s, r, li as nat).claimed,
                self.dict == e0.dict,
                self.puzzle == e0.puzzle,
                self.lines == e0.lines,
                self.choices == e0.choices,
                self.dists == e0.dists,
                self.queue == e0.queue,
                e0.wf(),
                e0 == *old(self),
            decreases n - li,
        {
            let ghost t = installed(p, s, r, li as nat);
            proof {
                lemma_installed(d, p, s, r, li as nat);
                assert(t.words[li as int] == s.words[li as int]);
                assert(r[li as int] == work@[li as int]@.words);
                assert(s.words[li as int] == self.lines@[li as int]@.words);
                assert(p.lines[li as int].len() <= max_len(d));
                assert(crate::line::fitting(d, p.lines[li as int].len(), r[li as int]));
            }
            if work[li].word_count() == 1 && self.lines[li].word_count() != 1 {
                let id = work[li].words()[0];
                let len = self.puzzle.lines[li].cell_indices.len();
                let claimed = self.indices.claim(len, id);
                if !claimed {
                    proof {
                        assert(!step_ok(p, s, r, li as int));
                    }
                    self.release(&work, li, Ghost(s));
                    proof {
                        assert(self.state() == s);
                        assert forall|c: int| 0 <= c < p.cells.len() implies #[trigger] self.fresh(c) by {
                            assert(e0.fresh(c));
                        }
                    }
                    return Err(EngineError::DeadEnd);
                }
            }
            proof {
                assert(step_ok(p, s, r, li as int));
                assert forall|j: int| 0 <= j < li + 1 implies #[trigger] step_ok(p, s, r, j) by {}
            }
            li = li + 1;
        }
        let ghost t = installed(p, s, r, n as nat);
        proof {
            lemma_installed(d, p, s, r, n as nat);
            lemma_prefilter_view(d, p, s);
        }
        let mut li: usize = 0;
        while li < n
            invariant
                li <= n,
                n == p.lines.len(),
                work@.len() == n,
                self.lines@.len() == n,
                d == self.dict@,
                p == self.puzzle@,
                forall|j: int|
                    0 <= j < li ==> (#[trigger] self.lines@[j])@ == line_of(
                        d,
                        p.lines[j].len(),
                        r[j],
                    ),
                forall|j: int|
                    li <= j < n ==> (#[trigger] work@[j])@ == line_of(d, p.lines[j].len(), r[j]),
                self.dict == e0.dict,
                self.puzzle == e0.puzzle,
                self.choices == e0.choices,
                self.dists == e0.dists,
                self.queue == e0.queue,
                self.indices.wf(),
                self.indices.dict() == d,
                self.indices.spec_max_len() == max_len(d),
                self.indices.claimed_view() == t.claimed,
            decreases n - li,
        {
            std::mem::swap(&mut self.lines[li], &mut work[li]);
            li = li + 1;
        }
        proof {
            assert(self.state().words =~= t.words);
            assert(self.state() == t);
            assert(self.base_wf());
        }
        let mut li: usize = 0;
        while li < n
            invariant
                li <= n,
                n == p.lines.len(),
                self.base_wf(),
                self.dict@ == d,
                self.puzzle@ == p,
                self.state() == t,
                forall|c: int|
                    0 <= c < p.cells.len() && (exists|j: int| 0 <= j < li && p.on_line(c, j))
                        ==> #[trigger] self.fresh(c),
            decreases n - li,
        {
            let ghost prior = *self;
            self.refresh_line(li);
            proof {
                assert(self.state() == t);
                assert forall|c: int|
                    0 <= c < p.cells.len() && (exists|j: int| 0 <= j < li + 1 && p.on_line(c, j)) implies #[trigger] self.fresh(
                    c,
                ) by {
                    if !p.on_line(c, li as int) {
                        let j = choose|j: int| 0 <= j < li + 1 && p.on_line(c, j);
                        assert(0 <= j < li && p.on_line(c, j));
                        assert(prior.fresh(c));
                        assert(same_entry(
                            queue_entries(self.queue),
                            queue_entries(prior.queue),
                            c as usize,
                        ));
                        assert(self.dists@[c] == prior.dists@[c]);
                    }
                }
            }
            li = li + 1;
        }
        proof {
            assert forall|c: int| 0 <= c < p.cells.len() implies #[trigger] self.fresh(c) by {
                assert(p.cells[c].across is Some || p.cells[c].down is Some);
                assert(p.place(c, ACROSS) == p.cells[c].across);
                assert(p.place(c, DOWN) == p.cells[c].down);
                if p.cells[c].across is Some {
                    lemma_place(p, c, ACROSS);
                    let a = p.cells[c].across->0;
                    assert(p.on_line(c, a.0 as int));
                } else {
                    lemma_place(p, c, DOWN);
                    let b = p.cells[c].down->0;
                    assert(p.on_line(c, b.0 as int));
                }
            }
        }
        Ok(Reduction { before, after })
    }

    /// A copy of what the engine shows: each cell's letter and joint distribution, and
    /// the number of words left to each slot.
    pub fn snapshot(&self) -> (snap: Snapshot)
        requires
            self.wf(),
        ensures
            snap.choices@.len() == self.grid().cells.len(),
            snap.char_dists@.len() == self.grid().cells.len(),
            snap.words_remaining@.len() == self.grid().lines.len(),
            forall|c: int|
                0 <= c < self.grid().cells.len() ==> #[trigger] snap.choices@[c] == match self.state().choices[c] {
                    Some(l) => Some(crate::letters::index_letter(l)),
                    None => None,
                },
            forall|c: int|
                0 <= c < self.grid().cells.len() ==> (#[trigger] snap.char_dists@[c])@ == joint(
                    self.dictionary(),
                    self.grid(),
                    self.state(),
                    c,
                ),
            forall|li: int|
                0 <= li < self.grid().lines.len() ==> #[trigger] snap.words_remaining@[li]
                    == self.state().words[li].len(),
    {
        let ghost s = self.state();
        let mut choices: Vec<Option<char>> = Vec::new();
        let mut char_dists: Vec<LetterInventory> = Vec::new();
        let mut c: usize = 0;
        while c < self.choices.len()
            invariant
                c <= self.choices@.len(),
                self.wf(),
                s == self.state(),
                choices@.len() == c,
                char_dists@.len() == c,
                forall|k: int|
                    0 <= k < c ==> #[trigger] choices@[k] == match s.choices[k] {
                        Some(l) => Some(crate::letters::index_letter(l)),
                        None => None,
                    },
                forall|k: int|
                    0 <= k < c ==> (#[trigger] char_dists@[k])@ == joint(
                        self.dict@,
                        self.puzzle@,
                        s,
                        k,
                    ),
            decreases self.choices@.len() - c,
        {
            assert(self.fresh(c as int));
            assert(match #[trigger] s.choices[c as int] {
                Some(ch) => ch < 26,
                None => true,
            });
            let shown = match self.choices[c] {
                Some(l) => Some(LetterSet::letter(l)),
                None => None,
            };
            choices.push(shown);
            char_dists.push(self.dists[c]);
            c = c + 1;
        }
        let mut words_remaining: Vec<usize> = Vec::new();
        let mut li: usize = 0;
        while li < self.lines.len()
            invariant
                li <= self.lines@.len(),
                self.wf(),
                s == self.state(),
                words_remaining@.len() == li,
                forall|k: int| 0 <= k < li ==> #[trigger] words_remaining@[k] == s.words[k].len(),
            decreases self.lines@.len() - li,
        {
            words_remaining.push(self.lines[li].word_count());
            li = li + 1;
        }
        Snapshot { choices, char_dists, words_remaining }
    }
}

/// Counts a dead end against the budget.
fn dead_end(budget: &mut u64) -> (r: Outcome)
    ensures
        match r {
            Outcome::DeadEnd => *old(budget) > 0 && *final(budget) == *old(budget) - 1,
            Outcome::OutOfBudget => *old(budget) == 0 && *final(budget) == 0,
            Outcome::Solved => false,
        },
{
    if *budget == 0 {
        Outcome::OutOfBudget
    } else {
        *budget = *budget - 1;
        Outcome::DeadEnd
    }
}


} // verus!
