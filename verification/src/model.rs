//! The search state as a mathematical value, the rules that change it, and
//! the properties that those rules keep.

use crate::dictionary::{valid_dictionary, valid_word};
use crate::indices::{
    has_letter, lemma_matching, lemma_with_id, lemma_with_then_without, longest, posting,
    with_id, without_id,
};
use crate::letters::{lemma_sum_below_bounds, sum_below};
use crate::line::{
    constrained_words, fitting, histogram, lemma_constrained_words, lemma_histogram_total,
    lemma_occurrences_bound, lemma_occurrences_positive, occurrences,
};
use crate::puzzle::{PuzzleView, ACROSS, DOWN};
use crate::skip_iter::ascending;
use vstd::prelude::*;

verus! {

/// The part of the search state that changes: what determines every
/// observable field of the slots, the cells and the registry of claimed words.
pub struct State {
    /// For each slot, the ids of the words that still fit it, ascending.
    pub words: Seq<Seq<u32>>,
    /// For each cell, the letter committed to it, if any.
    pub choices: Seq<Option<u8>>,
    /// For each word length, the ids of the words in use, ascending.
    pub claimed: Seq<Seq<u32>>,
}

/// The word that a slot holds: its only fitting word, once a single one is left.
pub open spec fn own_word(words: Seq<u32>) -> Option<u32> {
    if words.len() == 1 {
        Some(words[0])
    } else {
        None
    }
}

/// The length of the longest word of `d`.
pub open spec fn max_len(d: Seq<Seq<u8>>) -> nat {
    longest(d, d.len())
}

/// All the words of slot `li` have letter `ch` at offset `pos`.
pub open spec fn all_have(d: Seq<Seq<u8>>, words: Seq<u32>, pos: int, ch: u8) -> bool {
    forall|k: int| 0 <= k < words.len() ==> d[#[trigger] words[k] as int][pos] == ch
}

/// The slot of cell `c` in the given direction, if it has one, has words left, and
/// all of them have `ch` at the cell's offset.
pub open spec fn agrees(d: Seq<Seq<u8>>, p: PuzzleView, s: State, c: int, direction: u8, ch: u8) -> bool {
    p.place(c, direction) matches Some(pl) ==> s.words[pl.0 as int].len() > 0 && all_have(
        d,
        s.words[pl.0 as int],
        pl.1 as int,
        ch,
    )
}

/// The dictionary is valid, the grid's cells and slots are consistent, and no slot is
/// longer than the longest word.
pub open spec fn context_wf(d: Seq<Seq<u8>>, p: PuzzleView) -> bool {
    &&& valid_dictionary(d)
    &&& p.wf()
    &&& forall|li: int| 0 <= li < p.lines.len() ==> (#[trigger] p.lines[li]).len() <= max_len(d)
}

/// Slot `li` holds the single word `x`.
pub open spec fn holds(s: State, li: int, x: u32) -> bool {
    0 <= li < s.words.len() && s.words[li].len() == 1 && s.words[li][0] == x
}

/// What holds of the slots and the registry, whatever the cells' letters:
/// each slot's words fit it; a slot left with a single word has it claimed; every
/// claimed word is a word of its length that some slot holds; and no two slots hold
/// the same word.
pub open spec fn core_wf(d: Seq<Seq<u8>>, p: PuzzleView, s: State) -> bool {
    &&& s.words.len() == p.lines.len()
    &&& s.choices.len() == p.cells.len()
    &&& s.claimed.len() == max_len(d) + 1
    &&& forall|li: int|
        0 <= li < p.lines.len() ==> fitting(d, p.lines[li].len(), #[trigger] s.words[li])
    &&& forall|len: int| 0 <= len <= max_len(d) ==> ascending(#[trigger] s.claimed[len])
    &&& forall|len: int, x: u32|
        0 <= len <= max_len(d) && #[trigger] s.claimed[len].contains(x) ==> x < d.len()
            && d[x as int].len() == len && exists|li: int| holds(s, li, x)
    &&& forall|li: int|
        0 <= li < p.lines.len() && (#[trigger] s.words[li]).len() == 1 ==> s.claimed[p.lines[li].len() as int].contains(
            s.words[li][0],
        )
    &&& forall|i: int, j: int, x: u32| holds(s, i, x) && holds(s, j, x) ==> i == j
}

/// The state is consistent: the slots and the registry are, and each committed letter
/// is a letter index that all the words of the cell's slots have at the cell's offset.
pub open spec fn state_wf(d: Seq<Seq<u8>>, p: PuzzleView, s: State) -> bool {
    &&& core_wf(d, p, s)
    &&& forall|c: int|
        0 <= c < p.cells.len() ==> match #[trigger] s.choices[c] {
            Some(ch) => ch < 26 && agrees(d, p, s, c, ACROSS, ch) && agrees(d, p, s, c, DOWN, ch),
            None => true,
        }
}

/// The words of slot `li` once letter `ch` is fixed at its offset `pos`.
pub open spec fn narrowed_words(d: Seq<Seq<u8>>, p: PuzzleView, s: State, li: int, pos: int, ch: u8) -> Seq<u32> {
    let len = p.lines[li].len();
    constrained_words(
        s.words[li],
        posting(d, len, pos, ch),
        s.claimed[len as int],
        own_word(s.words[li]),
    )
}

/// The word that a slot comes to hold when its words `old` become `new`: the single
/// word left to it, if it did not hold it before.
pub open spec fn held_anew(old: Seq<u32>, new: Seq<u32>) -> Option<u32> {
    if new.len() == 1 && old.len() != 1 {
        Some(new[0])
    } else {
        None
    }
}

/// The state once the words of slot `li` are `new`: the word that the slot comes to hold
/// is claimed.
pub open spec fn replaced(p: PuzzleView, s: State, li: int, new: Seq<u32>) -> State {
    let len = p.lines[li].len();
    State {
        words: s.words.update(li, new),
        choices: s.choices,
        claimed: match held_anew(s.words[li], new) {
            Some(id) => s.claimed.update(len as int, with_id(s.claimed[len as int], id)),
            None => s.claimed,
        },
    }
}

/// The word that slot `li` comes to hold when letter `ch` is fixed at its offset `pos`:
/// the single word left to it, if more were there before.
pub open spec fn newly_held(d: Seq<Seq<u8>>, p: PuzzleView, s: State, li: int, pos: int, ch: u8) -> Option<u32> {
    held_anew(s.words[li], narrowed_words(d, p, s, li, pos, ch))
}

/// The state once letter `ch` is fixed at offset `pos` of slot `li`: the slot keeps the
/// words with that letter in place that no other slot has claimed, and the word that it
/// comes to hold is claimed.
pub open spec fn narrowed(d: Seq<Seq<u8>>, p: PuzzleView, s: State, li: int, pos: int, ch: u8) -> State {
    replaced(p, s, li, narrowed_words(d, p, s, li, pos, ch))
}

/// The words left to a slot when a letter is fixed: among its words, those with the
/// letter in place that are not claimed, or are the slot's own.
pub proof fn lemma_narrowed_words(d: Seq<Seq<u8>>, p: PuzzleView, s: State, li: int, pos: int, ch: u8)
    requires
        context_wf(d, p),
        core_wf(d, p, s),
        0 <= li < p.lines.len(),
        0 <= pos < p.lines[li].len(),
    ensures
        fitting(d, p.lines[li].len(), narrowed_words(d, p, s, li, pos, ch)),
        all_have(d, narrowed_words(d, p, s, li, pos, ch), pos, ch),
        forall|x: u32| #[trigger]
            narrowed_words(d, p, s, li, pos, ch).contains(x) <==> (s.words[li].contains(x)
                && d[x as int][pos] == ch && !(s.claimed[p.lines[li].len() as int].contains(x)
                && Some(x) != own_word(s.words[li]))),
{
    let len = p.lines[li].len();
    let old = s.words[li];
    let new = narrowed_words(d, p, s, li, pos, ch);
    let post = posting(d, len, pos, ch);
    assert(fitting(d, len, old));
    assert(ascending(s.claimed[len as int]));
    lemma_constrained_words(old, post, s.claimed[len as int], own_word(old));
    lemma_matching(d, d.len(), has_letter(len, pos, ch));
    assert forall|x: u32| old.contains(x) implies (post.contains(x) <==> d[x as int][pos] == ch) by {
        let k = choose|k: int| 0 <= k < old.len() && old[k] == x;
        assert(old[k] < d.len() && d[old[k] as int].len() == len);
        assert(has_letter(len, pos, ch)(d[x as int]) == (d[x as int].len() == len && d[x as int][pos]
            == ch));
    }
    assert forall|k: int| 0 <= k < new.len() implies (#[trigger] new[k]) < d.len() && d[new[k] as int].len()
        == len && d[new[k] as int][pos] == ch by {
        assert(new.contains(new[k]));
        assert(old.contains(new[k]));
        let a = choose|a: int| 0 <= a < old.len() && old[a] == new[k];
        assert(old[a] < d.len());
    }
}

/// Leaving a slot with some of its words, and at least one, keeps the slots and the
/// registry consistent, as long as a word that the slot comes to hold is not claimed;
/// it keeps each other slot's words, and what the words of each slot agreed on.
pub proof fn lemma_replaced(d: Seq<Seq<u8>>, p: PuzzleView, s: State, li: int, new: Seq<u32>)
    requires
        context_wf(d, p),
        core_wf(d, p, s),
        0 <= li < p.lines.len(),
        fitting(d, p.lines[li].len(), new),
        new.len() > 0,
        forall|x: u32| new.contains(x) ==> s.words[li].contains(x),
        held_anew(s.words[li], new) matches Some(id) ==> !s.claimed[p.lines[li].len() as int].contains(
            id,
        ),
    ensures
        core_wf(d, p, replaced(p, s, li, new)),
        forall|c: int, direction: u8, l: u8|
            0 <= c < p.cells.len() && (direction == ACROSS || direction == DOWN) && agrees(
                d,
                p,
                s,
                c,
                direction,
                l,
            ) ==> #[trigger] agrees(d, p, replaced(p, s, li, new), c, direction, l),
{
    let len = p.lines[li].len();
    let old = s.words[li];
    let t = replaced(p, s, li, new);
    assert(len <= max_len(d));
    lemma_with_id(s.claimed[len as int], new[0]);
    assert(new.contains(new[0]));
    assert(old.contains(new[0]));
    // A slot that held a single word holds it still.
    if old.len() == 1 {
        assert forall|x: u32| new.contains(x) implies x == old[0] by {
            let k = choose|k: int| 0 <= k < old.len() && old[k] == x;
        }
        assert(new[0] == old[0]);
        if new.len() > 1 {
            assert(new.contains(new[1]));
            assert(new[0] < new[1]);
        }
        assert(new =~= old);
        assert(t.words =~= s.words);
        assert(t == s);
    } else {
        assert forall|j: int| 0 <= j < p.lines.len() implies fitting(
            d,
            p.lines[j].len(),
            #[trigger] t.words[j],
        ) by {
            if j != li {
                assert(t.words[j] == s.words[j]);
            }
        }
        assert forall|j: int, x: u32| holds(s, j, x) implies holds(t, j, x) by {
            assert(j != li);
        }
        if new.len() == 1 {
            let id = new[0];
            assert(held_anew(old, new) == Some(id));
            assert(!s.claimed[len as int].contains(id));
            assert(holds(t, li, id));
            assert forall|k: int| 0 <= k <= max_len(d) implies ascending(#[trigger] t.claimed[k]) by {
                if k != len {
                    assert(t.claimed[k] == s.claimed[k]);
                }
            }
            assert forall|k: int, x: u32|
                0 <= k <= max_len(d) && #[trigger] t.claimed[k].contains(x) implies x < d.len()
                && d[x as int].len() == k && exists|j: int| holds(t, j, x) by {
                if k == len && x == id {
                    let a = choose|a: int| 0 <= a < old.len() && old[a] == id;
                    assert(old[a] < d.len());
                } else {
                    if k != len {
                        assert(t.claimed[k] == s.claimed[k]);
                    }
                    assert(s.claimed[k].contains(x));
                    let j = choose|j: int| holds(s, j, x);
                    assert(holds(t, j, x));
                }
            }
            assert forall|j: int|
                0 <= j < p.lines.len() && (#[trigger] t.words[j]).len() == 1 implies t.claimed[p.lines[j].len() as int].contains(
                t.words[j][0],
            ) by {
                if j != li {
                    assert(t.words[j] == s.words[j]);
                    assert(s.claimed[p.lines[j].len() as int].contains(s.words[j][0]));
                    if p.lines[j].len() != len {
                        assert(t.claimed[p.lines[j].len() as int] == s.claimed[p.lines[j].len() as int]);
                    }
                }
            }
            assert forall|i: int, j: int, x: u32| holds(t, i, x) && holds(t, j, x) implies i == j by {
                if i != j {
                    if i == li {
                        assert(holds(s, j, x));
                        assert(s.words[j].len() == 1);
                        assert(s.claimed[p.lines[j].len() as int].contains(x));
                        assert(fitting(d, p.lines[j].len(), s.words[j]));
                        assert(s.words[j][0] < d.len() && d[s.words[j][0] as int].len() == p.lines[j].len());
                    } else if j == li {
                        assert(holds(s, i, x));
                        assert(s.words[i].len() == 1);
                        assert(s.claimed[p.lines[i].len() as int].contains(x));
                        assert(fitting(d, p.lines[i].len(), s.words[i]));
                        assert(s.words[i][0] < d.len() && d[s.words[i][0] as int].len() == p.lines[i].len());
                    } else {
                        assert(holds(s, i, x) && holds(s, j, x));
                    }
                }
            }
        } else {
            assert(held_anew(old, new) == None::<u32>);
            assert(t.claimed == s.claimed);
            assert forall|k: int, x: u32|
                0 <= k <= max_len(d) && #[trigger] t.claimed[k].contains(x) implies x < d.len()
                && d[x as int].len() == k && exists|j: int| holds(t, j, x) by {
                let j = choose|j: int| holds(s, j, x);
                assert(holds(t, j, x));
            }
            assert forall|j: int|
                0 <= j < p.lines.len() && (#[trigger] t.words[j]).len() == 1 implies t.claimed[p.lines[j].len() as int].contains(
                t.words[j][0],
            ) by {
                assert(j != li);
                assert(t.words[j] == s.words[j]);
            }
            assert forall|i: int, j: int, x: u32| holds(t, i, x) && holds(t, j, x) implies i == j by {
                assert(holds(s, i, x) && holds(s, j, x));
            }
        }
    }
    assert forall|c: int, direction: u8, l: u8|
        0 <= c < p.cells.len() && (direction == ACROSS || direction == DOWN) && agrees(
            d,
            p,
            s,
            c,
            direction,
            l,
        ) implies #[trigger] agrees(d, p, t, c, direction, l) by {
        if p.place(c, direction) is Some {
            let pl = p.place(c, direction)->0;
            if pl.0 == li {
                assert forall|k: int| 0 <= k < new.len() implies d[#[trigger] new[k] as int][pl.1 as int]
                    == l by {
                    assert(new.contains(new[k]));
                    assert(old.contains(new[k]));
                    let a = choose|a: int| 0 <= a < old.len() && old[a] == new[k];
                    assert(d[old[a] as int][pl.1 as int] == l);
                }
            } else {
                assert(t.words[pl.0 as int] == s.words[pl.0 as int]);
            }
        }
    }
}

/// Fixing a letter in a slot that keeps a word keeps the slots and the registry
/// consistent, keeps each other slot's words, and keeps what the words of each slot
/// agreed on.
pub proof fn lemma_narrowed(d: Seq<Seq<u8>>, p: PuzzleView, s: State, li: int, pos: int, ch: u8)
    requires
        context_wf(d, p),
        core_wf(d, p, s),
        0 <= li < p.lines.len(),
        0 <= pos < p.lines[li].len(),
        narrowed_words(d, p, s, li, pos, ch).len() > 0,
    ensures
        core_wf(d, p, narrowed(d, p, s, li, pos, ch)),
        forall|c: int, direction: u8, l: u8|
            0 <= c < p.cells.len() && (direction == ACROSS || direction == DOWN) && agrees(
                d,
                p,
                s,
                c,
                direction,
                l,
            ) ==> #[trigger] agrees(d, p, narrowed(d, p, s, li, pos, ch), c, direction, l),
{
    let new = narrowed_words(d, p, s, li, pos, ch);
    lemma_narrowed_words(d, p, s, li, pos, ch);
    if held_anew(s.words[li], new) is Some {
        assert(new.contains(new[0]));
    }
    lemma_replaced(d, p, s, li, new);
}

/// The state with letter `ch` recorded for cell `c`.
pub open spec fn chosen(s: State, c: int, ch: u8) -> State {
    State { words: s.words, choices: s.choices.update(c, Some(ch)), claimed: s.claimed }
}

/// The state once letter `ch` is recorded for cell `c` and fixed in its across slot.
pub open spec fn after_across(d: Seq<Seq<u8>>, p: PuzzleView, s: State, c: int, ch: u8) -> State {
    match p.cells[c].across {
        Some(a) => narrowed(d, p, chosen(s, c, ch), a.0 as int, a.1 as int, ch),
        None => chosen(s, c, ch),
    }
}

/// Fixing letter `ch` for cell `c` leaves its across slot without a word.
pub open spec fn across_fails(d: Seq<Seq<u8>>, p: PuzzleView, s: State, c: int, ch: u8) -> bool {
    p.cells[c].across matches Some(a) && narrowed_words(
        d,
        p,
        chosen(s, c, ch),
        a.0 as int,
        a.1 as int,
        ch,
    ).len() == 0
}

/// The state once letter `ch` is recorded for cell `c` and fixed in both its slots.
pub open spec fn after_down(d: Seq<Seq<u8>>, p: PuzzleView, s: State, c: int, ch: u8) -> State {
    match p.cells[c].down {
        Some(b) => narrowed(d, p, after_across(d, p, s, c, ch), b.0 as int, b.1 as int, ch),
        None => after_across(d, p, s, c, ch),
    }
}

/// Fixing letter `ch` for cell `c` leaves its down slot without a word.
pub open spec fn down_fails(d: Seq<Seq<u8>>, p: PuzzleView, s: State, c: int, ch: u8) -> bool {
    p.cells[c].down matches Some(b) && narrowed_words(
        d,
        p,
        after_across(d, p, s, c, ch),
        b.0 as int,
        b.1 as int,
        ch,
    ).len() == 0
}

/// The state after committing letter `ch` to cell `c`, or `None` where that is a dead
/// end: where it leaves one of the cell's slots without a word.
pub open spec fn committed(d: Seq<Seq<u8>>, p: PuzzleView, s: State, c: int, ch: u8) -> Option<State> {
    if across_fails(d, p, s, c, ch) || down_fails(d, p, s, c, ch) {
        None
    } else {
        Some(after_down(d, p, s, c, ch))
    }
}

/// Recording a letter for a cell without one keeps the slots and the registry consistent.
pub proof fn lemma_chosen(d: Seq<Seq<u8>>, p: PuzzleView, s: State, c: int, ch: u8)
    requires
        core_wf(d, p, s),
        0 <= c < p.cells.len(),
    ensures
        core_wf(d, p, chosen(s, c, ch)),
        forall|c2: int, direction: u8, l: u8|
            agrees(d, p, s, c2, direction, l) == #[trigger] agrees(
                d,
                p,
                chosen(s, c, ch),
                c2,
                direction,
                l,
            ),
{
    let t = chosen(s, c, ch);
    assert forall|k: int, x: u32|
        0 <= k <= max_len(d) && #[trigger] t.claimed[k].contains(x) implies x < d.len()
        && d[x as int].len() == k && exists|j: int| holds(t, j, x) by {
        let j = choose|j: int| holds(s, j, x);
        assert(holds(t, j, x));
    }
    assert forall|i: int, j: int, x: u32| holds(t, i, x) && holds(t, j, x) implies i == j by {
        assert(holds(s, i, x) && holds(s, j, x));
    }
}

/// A cell's two slots are different slots.
pub proof fn lemma_slots_differ(p: PuzzleView, c: int)
    requires
        p.wf(),
        0 <= c < p.cells.len(),
        p.cells[c].across is Some,
        p.cells[c].down is Some,
    ensures
        match (p.cells[c].across, p.cells[c].down) {
            (Some(a), Some(b)) => a.0 != b.0 && a.0 < p.lines.len() && b.0 < p.lines.len(),
            _ => true,
        },
{
    assert(p.place(c, ACROSS) == p.cells[c].across);
    assert(p.place(c, DOWN) == p.cells[c].down);
}

/// A cell's place is a slot of the grid and an offset in it.
pub proof fn lemma_place(p: PuzzleView, c: int, direction: u8)
    requires
        p.wf(),
        0 <= c < p.cells.len(),
        direction == ACROSS || direction == DOWN,
        p.place(c, direction) is Some,
    ensures
        match p.place(c, direction) {
            Some(pl) => pl.0 < p.lines.len() && pl.1 < p.lines[pl.0 as int].len()
                && p.lines[pl.0 as int][pl.1 as int] == c && p.directions[pl.0 as int]
                == direction,
            None => true,
        },
{
}

/// Committing a letter that does not end in a dead end keeps the state consistent.
pub proof fn lemma_committed(d: Seq<Seq<u8>>, p: PuzzleView, s: State, c: int, ch: u8)
    requires
        context_wf(d, p),
        state_wf(d, p, s),
        0 <= c < p.cells.len(),
        ch < 26,
        committed(d, p, s, c, ch) is Some,
    ensures
        state_wf(d, p, committed(d, p, s, c, ch)->0),
{
    let s0 = chosen(s, c, ch);
    let s1 = after_across(d, p, s, c, ch);
    let s2 = after_down(d, p, s, c, ch);
    lemma_chosen(d, p, s, c, ch);
    if p.cells[c].across is Some {
        let a = p.cells[c].across->0;
        assert(p.place(c, ACROSS) == Some(a));
        lemma_place(p, c, ACROSS);
        lemma_narrowed_words(d, p, s0, a.0 as int, a.1 as int, ch);
        lemma_narrowed(d, p, s0, a.0 as int, a.1 as int, ch);
        assert(agrees(d, p, s1, c, ACROSS, ch));
    }
    assert(core_wf(d, p, s1));
    assert(agrees(d, p, s1, c, ACROSS, ch));
    if p.cells[c].down is Some {
        let b = p.cells[c].down->0;
        assert(p.place(c, DOWN) == Some(b));
        lemma_place(p, c, DOWN);
        lemma_narrowed_words(d, p, s1, b.0 as int, b.1 as int, ch);
        lemma_narrowed(d, p, s1, b.0 as int, b.1 as int, ch);
        assert(agrees(d, p, s2, c, DOWN, ch));
    }
    assert(core_wf(d, p, s2));
    assert(agrees(d, p, s2, c, ACROSS, ch));
    assert(agrees(d, p, s2, c, DOWN, ch));
    assert forall|c2: int| 0 <= c2 < p.cells.len() implies match #[trigger] s2.choices[c2] {
        Some(l) => l < 26 && agrees(d, p, s2, c2, ACROSS, l) && agrees(d, p, s2, c2, DOWN, l),
        None => true,
    } by {
        if c2 != c {
            assert(s2.choices[c2] == s.choices[c2]);
            if s.choices[c2] is Some {
                let l = s.choices[c2]->0;
                assert(agrees(d, p, s, c2, ACROSS, l) && agrees(d, p, s, c2, DOWN, l));
                assert(agrees(d, p, s0, c2, ACROSS, l) && agrees(d, p, s0, c2, DOWN, l));
                assert(agrees(d, p, s1, c2, ACROSS, l) && agrees(d, p, s1, c2, DOWN, l));
                assert(agrees(d, p, s2, c2, ACROSS, l) && agrees(d, p, s2, c2, DOWN, l));
            }
        }
    }
}

/// What undoing a commit needs of one slot: the slot, its words before the commit, and
/// the word that the commit claimed for it, if any.
pub struct SlotUndo {
    /// The slot.
    pub line: int,
    /// The slot's words before the commit.
    pub words: Seq<u32>,
    /// The word that the commit claimed for the slot.
    pub held: Option<u32>,
}

/// What undoing a commit needs: the cell, and an entry for each of its slots.
pub struct Undo {
    /// The committed cell.
    pub cell: int,
    /// The entry of the cell's across slot.
    pub across: Option<SlotUndo>,
    /// The entry of the cell's down slot.
    pub down: Option<SlotUndo>,
}

/// The undo frame of committing letter `ch` to cell `c` in state `s`.
pub open spec fn frame_of(d: Seq<Seq<u8>>, p: PuzzleView, s: State, c: int, ch: u8) -> Undo {
    Undo {
        cell: c,
        across: match p.cells[c].across {
            Some(a) => Some(
                SlotUndo {
                    line: a.0 as int,
                    words: s.words[a.0 as int],
                    held: newly_held(d, p, chosen(s, c, ch), a.0 as int, a.1 as int, ch),
                },
            ),
            None => None,
        },
        down: match p.cells[c].down {
            Some(b) => Some(
                SlotUndo {
                    line: b.0 as int,
                    words: s.words[b.0 as int],
                    held: newly_held(
                        d,
                        p,
                        after_across(d, p, s, c, ch),
                        b.0 as int,
                        b.1 as int,
                        ch,
                    ),
                },
            ),
            None => None,
        },
    }
}

/// The state with one slot set back: its words are those of the entry, and the word
/// that the commit claimed for it is released.
pub open spec fn restored(p: PuzzleView, s: State, e: SlotUndo) -> State {
    let len = p.lines[e.line].len() as int;
    State {
        words: s.words.update(e.line, e.words),
        choices: s.choices,
        claimed: match e.held {
            Some(id) => s.claimed.update(len, without_id(s.claimed[len], id)),
            None => s.claimed,
        },
    }
}

/// The state with the down slot of a commit set back.
pub open spec fn undone_down(p: PuzzleView, s: State, f: Undo) -> State {
    match f.down {
        Some(e) => restored(p, s, e),
        None => s,
    }
}

/// The state with both slots of a commit set back.
pub open spec fn undone_slots(p: PuzzleView, s: State, f: Undo) -> State {
    match f.across {
        Some(e) => restored(p, undone_down(p, s, f), e),
        None => undone_down(p, s, f),
    }
}

/// The state with a commit undone: the down slot, then the across slot set back, and
/// the cell without a letter.
pub open spec fn undone(p: PuzzleView, s: State, f: Undo) -> State {
    let t = undone_slots(p, s, f);
    State { words: t.words, choices: t.choices.update(f.cell, None), claimed: t.claimed }
}

/// A word that a slot comes to hold was not claimed before.
pub proof fn lemma_newly_held(d: Seq<Seq<u8>>, p: PuzzleView, s: State, li: int, pos: int, ch: u8)
    requires
        context_wf(d, p),
        core_wf(d, p, s),
        0 <= li < p.lines.len(),
        0 <= pos < p.lines[li].len(),
        newly_held(d, p, s, li, pos, ch) is Some,
    ensures
        !s.claimed[p.lines[li].len() as int].contains(newly_held(d, p, s, li, pos, ch)->0),
        ascending(s.claimed[p.lines[li].len() as int]),
        p.lines[li].len() < s.claimed.len(),
        li < s.words.len(),
{
    let new = narrowed_words(d, p, s, li, pos, ch);
    lemma_narrowed_words(d, p, s, li, pos, ch);
    assert(new.contains(new[0]));
    assert(p.lines[li].len() <= max_len(d));
}

proof fn lemma_update_back<A>(s: Seq<A>, i: int, a: A)
    requires
        0 <= i < s.len(),
    ensures
        s.update(i, a).update(i, s[i]) == s,
{
    assert(s.update(i, a).update(i, s[i]) =~= s);
}

proof fn lemma_update_twice<A>(s: Seq<A>, i: int, a: A, b: A)
    requires
        0 <= i < s.len(),
    ensures
        s.update(i, a).update(i, b) == s.update(i, b),
        s.update(i, a)[i] == a,
{
    assert(s.update(i, a).update(i, b) =~= s.update(i, b));
}

proof fn lemma_restored_none(p: PuzzleView, s: State, li: int, new: Seq<u32>)
    requires
        0 <= li < s.words.len(),
    ensures
        restored(
            p,
            State { words: s.words.update(li, new), choices: s.choices, claimed: s.claimed },
            SlotUndo { line: li, words: s.words[li], held: None },
        ) == s,
{
    lemma_update_back(s.words, li, new);
}

proof fn lemma_restored_some(p: PuzzleView, s: State, li: int, new: Seq<u32>, id: u32)
    requires
        0 <= li < s.words.len(),
        p.lines[li].len() < s.claimed.len(),
        ascending(s.claimed[p.lines[li].len() as int]),
        !s.claimed[p.lines[li].len() as int].contains(id),
    ensures
        restored(
            p,
            State {
                words: s.words.update(li, new),
                choices: s.choices,
                claimed: s.claimed.update(
                    p.lines[li].len() as int,
                    with_id(s.claimed[p.lines[li].len() as int], id),
                ),
            },
            SlotUndo { line: li, words: s.words[li], held: Some(id) },
        ) == s,
{
    let len = p.lines[li].len() as int;
    lemma_update_back(s.words, li, new);
    lemma_with_then_without(s.claimed[len], id);
    let added = with_id(s.claimed[len], id);
    lemma_update_twice(s.claimed, len, added, without_id(added, id));
    lemma_update_back(s.claimed, len, added);
}

/// Setting back a slot in which a letter was fixed gives the state before.
pub proof fn lemma_restored(d: Seq<Seq<u8>>, p: PuzzleView, s: State, li: int, pos: int, ch: u8)
    requires
        context_wf(d, p),
        core_wf(d, p, s),
        0 <= li < p.lines.len(),
        0 <= pos < p.lines[li].len(),
    ensures
        restored(
            p,
            narrowed(d, p, s, li, pos, ch),
            SlotUndo { line: li, words: s.words[li], held: newly_held(d, p, s, li, pos, ch) },
        ) == s,
{
    let new = narrowed_words(d, p, s, li, pos, ch);
    match newly_held(d, p, s, li, pos, ch) {
        Some(id) => {
            lemma_newly_held(d, p, s, li, pos, ch);
            lemma_restored_some(p, s, li, new, id);
        },
        None => {
            lemma_restored_none(p, s, li, new);
        },
    }
}

/// Commit, then undo, is the identity: undoing a commit with its frame gives back the
/// state in which the letter was committed.
pub proof fn lemma_commit_undo(d: Seq<Seq<u8>>, p: PuzzleView, s: State, c: int, ch: u8)
    requires
        context_wf(d, p),
        state_wf(d, p, s),
        0 <= c < p.cells.len(),
        s.choices[c] is None,
        ch < 26,
        committed(d, p, s, c, ch) is Some,
    ensures
        undone(p, committed(d, p, s, c, ch)->0, frame_of(d, p, s, c, ch)) == s,
        undone_down(p, committed(d, p, s, c, ch)->0, frame_of(d, p, s, c, ch)) == after_across(
            d,
            p,
            s,
            c,
            ch,
        ),
        undone_slots(p, committed(d, p, s, c, ch)->0, frame_of(d, p, s, c, ch)) == chosen(s, c, ch),
        core_wf(d, p, after_across(d, p, s, c, ch)),
        core_wf(d, p, chosen(s, c, ch)),
{
    let s0 = chosen(s, c, ch);
    let s1 = after_across(d, p, s, c, ch);
    let s2 = after_down(d, p, s, c, ch);
    let f = frame_of(d, p, s, c, ch);
    lemma_chosen(d, p, s, c, ch);
    if p.cells[c].across is Some {
        let a = p.cells[c].across->0;
        assert(p.place(c, ACROSS) == Some(a));
        lemma_place(p, c, ACROSS);
        lemma_narrowed(d, p, s0, a.0 as int, a.1 as int, ch);
        lemma_restored(d, p, s0, a.0 as int, a.1 as int, ch);
    }
    let back1 = undone_down(p, s2, f);
    if p.cells[c].down is Some {
        let b = p.cells[c].down->0;
        assert(p.place(c, DOWN) == Some(b));
        lemma_place(p, c, DOWN);
        lemma_restored(d, p, s1, b.0 as int, b.1 as int, ch);
        if p.cells[c].across is Some {
            lemma_slots_differ(p, c);
        }
        assert(s1.words[b.0 as int] == s.words[b.0 as int]);
    }
    assert(back1 == s1);
    let back2 = undone_slots(p, s2, f);
    assert(back2 == s0);
    assert(undone(p, s2, f).choices =~= s.choices);
}


/// A strictly ascending list of ids below `n` has at most `n` items.
pub proof fn lemma_ascending_len(s: Seq<u32>, n: nat)
    requires
        ascending(s),
        forall|k: int| 0 <= k < s.len() ==> (#[trigger] s[k]) < n,
    ensures
        s.len() <= n,
    decreases s.len(),
{
    if s.len() > 0 {
        let sub = s.drop_last();
        let m = s.last();
        assert forall|k: int| 0 <= k < sub.len() implies (#[trigger] sub[k]) < m by {
            assert(sub[k] == s[k]);
        }
        lemma_ascending_len(sub, m as nat);
    }
}

/// The component-wise product of two histograms.
pub open spec fn product(a: Seq<u64>, b: Seq<u64>) -> Seq<u64> {
    Seq::new(26, |l: int| (a[l] * b[l]) as u64)
}

/// The letter histogram of a slot at an offset.
pub open spec fn inventory(d: Seq<Seq<u8>>, s: State, li: int, pos: int) -> Seq<u64> {
    histogram(d, s.words[li], pos)
}

/// The joint letter distribution of cell `c`: the product of the histograms of its
/// slots at the cell's offsets, or the histogram of its only slot.
pub open spec fn joint(d: Seq<Seq<u8>>, p: PuzzleView, s: State, c: int) -> Seq<u64> {
    match (p.cells[c].across, p.cells[c].down) {
        (Some(a), Some(b)) => product(
            inventory(d, s, a.0 as int, a.1 as int),
            inventory(d, s, b.0 as int, b.1 as int),
        ),
        (Some(a), None) => inventory(d, s, a.0 as int, a.1 as int),
        (None, Some(b)) => inventory(d, s, b.0 as int, b.1 as int),
        (None, None) => Seq::new(26, |l: int| 0u64),
    }
}

/// The tightness of cell `c`: the total of its joint distribution.
pub open spec fn tightness(d: Seq<Seq<u8>>, p: PuzzleView, s: State, c: int) -> nat {
    sum_below(joint(d, p, s, c), 26)
}

/// The sum of the products of the entries below `n` is at most the product of the sums.
pub proof fn lemma_product_sum(a: Seq<u64>, b: Seq<u64>, n: nat)
    requires
        n <= 26,
        a.len() == 26,
        b.len() == 26,
        sum_below(a, 26) * sum_below(b, 26) <= u64::MAX,
    ensures
        sum_below(product(a, b), n) <= sum_below(a, n) * sum_below(b, n),
        sum_below(a, n) * sum_below(b, n) <= sum_below(a, 26) * sum_below(b, 26),
        forall|l: int| 0 <= l < 26 ==> a[l] * b[l] <= u64::MAX,
    decreases n,
{
    assert forall|l: int| 0 <= l < 26 implies a[l] * b[l] <= sum_below(a, 26) * sum_below(b, 26) by {
        lemma_sum_below_bounds(a, 26, l);
        lemma_sum_below_bounds(b, 26, l);
        lemma_mul_le(a[l] as int, sum_below(a, 26) as int, b[l] as int, sum_below(b, 26) as int);
    }
    crate::letters::lemma_sum_below_mono(a, n, 26);
    crate::letters::lemma_sum_below_mono(b, n, 26);
    lemma_mul_le(
        sum_below(a, n) as int,
        sum_below(a, 26) as int,
        sum_below(b, n) as int,
        sum_below(b, 26) as int,
    );
    if n > 0 {
        let m = (n - 1) as nat;
        lemma_product_sum(a, b, m);
        let x = sum_below(a, m) as int;
        let y = sum_below(b, m) as int;
        let u = a[n - 1] as int;
        let v = b[n - 1] as int;
        assert(product(a, b)[n - 1] == u * v);
        assert((x + u) * (y + v) >= x * y + u * v) by (nonlinear_arith)
            requires
                x >= 0,
                y >= 0,
                u >= 0,
                v >= 0,
        ;
    }
}

proof fn lemma_mul_le(a: int, b: int, c: int, e: int)
    requires
        0 <= a <= b,
        0 <= c <= e,
    ensures
        a * c <= b * e,
{
    assert(a * c <= b * e) by (nonlinear_arith)
        requires
            0 <= a <= b,
            0 <= c <= e,
    ;
}

/// The words of a consistent state's slot are fewer than 2^32, and their histogram at an
/// offset of the slot counts each of them once.
pub proof fn lemma_inventory(d: Seq<Seq<u8>>, p: PuzzleView, s: State, li: int, pos: int)
    requires
        context_wf(d, p),
        core_wf(d, p, s),
        0 <= li < p.lines.len(),
        0 <= pos < p.lines[li].len(),
    ensures
        s.words[li].len() <= u32::MAX,
        inventory(d, s, li, pos).len() == 26,
        sum_below(inventory(d, s, li, pos), 26) == s.words[li].len(),
{
    let w = s.words[li];
    assert(fitting(d, p.lines[li].len(), w));
    lemma_ascending_len(w, d.len());
    assert forall|k: int| 0 <= k < w.len() implies d[#[trigger] w[k] as int][pos] < 26 by {
        assert(w[k] < d.len());
        assert(valid_word(d[w[k] as int]));
    }
    lemma_histogram_total(d, w, pos);
}

/// The joint distribution of a cell has 26 counts, whose total fits in 64 bits; where
/// the cell has two slots, each count is the product of the two slots' counts.
pub proof fn lemma_joint(d: Seq<Seq<u8>>, p: PuzzleView, s: State, c: int)
    requires
        context_wf(d, p),
        core_wf(d, p, s),
        0 <= c < p.cells.len(),
    ensures
        joint(d, p, s, c).len() == 26,
        tightness(d, p, s, c) <= u64::MAX,
        match (p.cells[c].across, p.cells[c].down) {
            (Some(a), Some(b)) => forall|l: int|
                0 <= l < 26 ==> inventory(d, s, a.0 as int, a.1 as int)[l] * inventory(
                    d,
                    s,
                    b.0 as int,
                    b.1 as int,
                )[l] <= u64::MAX && #[trigger] joint(d, p, s, c)[l] == inventory(
                    d,
                    s,
                    a.0 as int,
                    a.1 as int,
                )[l] * inventory(d, s, b.0 as int, b.1 as int)[l],
            _ => true,
        },
{
    if p.cells[c].across is Some {
        assert(p.place(c, ACROSS) == p.cells[c].across);
        lemma_place(p, c, ACROSS);
        let a = p.cells[c].across->0;
        lemma_inventory(d, p, s, a.0 as int, a.1 as int);
    }
    if p.cells[c].down is Some {
        assert(p.place(c, DOWN) == p.cells[c].down);
        lemma_place(p, c, DOWN);
        let b = p.cells[c].down->0;
        lemma_inventory(d, p, s, b.0 as int, b.1 as int);
    }
    if p.cells[c].across is Some && p.cells[c].down is Some {
        let a = p.cells[c].across->0;
        let b = p.cells[c].down->0;
        let ia = inventory(d, s, a.0 as int, a.1 as int);
        let ib = inventory(d, s, b.0 as int, b.1 as int);
        lemma_mul_le(
            sum_below(ia, 26) as int,
            u32::MAX as int,
            sum_below(ib, 26) as int,
            u32::MAX as int,
        );
        assert(u32::MAX * u32::MAX <= u64::MAX);
        lemma_product_sum(ia, ib, 26);
    } else if p.cells[c].across is None && p.cells[c].down is None {
        crate::letters::lemma_sum_below_zero(joint(d, p, s, c), 26);
    }
}

/// An assignment of a word to each slot that fills the grid: each word has its slot's
/// length, no word is used twice, and where two slots cross their words have the same
/// letter.
pub open spec fn is_solution(d: Seq<Seq<u8>>, p: PuzzleView, sol: Seq<u32>) -> bool {
    &&& sol.len() == p.lines.len()
    &&& forall|li: int|
        0 <= li < p.lines.len() ==> (#[trigger] sol[li]) < d.len() && d[sol[li] as int].len()
            == p.lines[li].len()
    &&& forall|i: int, j: int| 0 <= i < j < p.lines.len() ==> sol[i] != sol[j]
    &&& forall|c: int|
        0 <= c < p.cells.len() ==> match ((#[trigger] p.cells[c]).across, p.cells[c].down) {
            (Some(a), Some(b)) => d[sol[a.0 as int] as int][a.1 as int] == d[sol[b.0 as int] as int][b.1 as int],
            _ => true,
        }
}

/// The letter that the assignment `sol` puts in cell `c`.
pub open spec fn letter_of(d: Seq<Seq<u8>>, p: PuzzleView, sol: Seq<u32>, c: int) -> u8 {
    match p.cells[c].across {
        Some(a) => d[sol[a.0 as int] as int][a.1 as int],
        None => match p.cells[c].down {
            Some(b) => d[sol[b.0 as int] as int][b.1 as int],
            None => 0,
        },
    }
}

/// The assignment `sol` has each committed letter in its cell.
pub open spec fn extends(d: Seq<Seq<u8>>, p: PuzzleView, sol: Seq<u32>, choices: Seq<Option<u8>>) -> bool {
    forall|c: int|
        0 <= c < p.cells.len() ==> match #[trigger] choices[c] {
            Some(ch) => letter_of(d, p, sol, c) == ch,
            None => true,
        }
}

/// Each slot still has the word that `sol` assigns to it among its words.
pub open spec fn keeps(s: State, sol: Seq<u32>) -> bool {
    forall|li: int| 0 <= li < s.words.len() ==> (#[trigger] s.words[li]).contains(sol[li])
}

/// No solution is lost: every solution with the committed letters in their cells has
/// each of its words among the words of the word's slot.
pub open spec fn complete(d: Seq<Seq<u8>>, p: PuzzleView, s: State) -> bool {
    forall|sol: Seq<u32>| #[trigger]
        is_solution(d, p, sol) && extends(d, p, sol, s.choices) ==> keeps(s, sol)
}

/// The letter that a solution puts in a cell is the letter of each of the cell's slots
/// at the cell's offset.
pub proof fn lemma_letter_of(d: Seq<Seq<u8>>, p: PuzzleView, sol: Seq<u32>, c: int, direction: u8)
    requires
        p.wf(),
        is_solution(d, p, sol),
        0 <= c < p.cells.len(),
        direction == ACROSS || direction == DOWN,
    ensures
        match p.place(c, direction) {
            Some(pl) => d[sol[pl.0 as int] as int][pl.1 as int] == letter_of(d, p, sol, c),
            None => true,
        },
{
    let cell = p.cells[c];
    assert(match (cell.across, cell.down) {
        (Some(a), Some(b)) => d[sol[a.0 as int] as int][a.1 as int] == d[sol[b.0 as int] as int][b.1 as int],
        _ => true,
    });
}

/// Fixing in a slot the letter that a solution has there keeps the solution's words.
pub proof fn lemma_narrowed_keeps(
    d: Seq<Seq<u8>>,
    p: PuzzleView,
    s: State,
    li: int,
    pos: int,
    ch: u8,
    sol: Seq<u32>,
)
    requires
        context_wf(d, p),
        core_wf(d, p, s),
        0 <= li < p.lines.len(),
        0 <= pos < p.lines[li].len(),
        is_solution(d, p, sol),
        keeps(s, sol),
        d[sol[li] as int][pos] == ch,
    ensures
        keeps(narrowed(d, p, s, li, pos, ch), sol),
{
    let t = narrowed(d, p, s, li, pos, ch);
    let len = p.lines[li].len() as int;
    let x = sol[li];
    lemma_narrowed_words(d, p, s, li, pos, ch);
    assert(s.words[li].contains(x));
    if s.claimed[len].contains(x) {
        assert(len <= max_len(d));
        let j = choose|j: int| holds(s, j, x);
        assert(s.words[j].contains(sol[j]));
        let k = choose|k: int| 0 <= k < s.words[j].len() && s.words[j][k] == sol[j];
        assert(sol[j] == x);
        assert(j == li);
    }
    assert(t.words[li].contains(x));
    assert forall|j: int| 0 <= j < t.words.len() implies (#[trigger] t.words[j]).contains(sol[j]) by {
        if j != li {
            assert(t.words[j] == s.words[j]);
        }
    }
}

/// Committing a letter loses no solution; and where it is a dead end, no solution has
/// that letter in that cell beside the letters committed before.
pub proof fn lemma_committed_complete(d: Seq<Seq<u8>>, p: PuzzleView, s: State, c: int, ch: u8)
    requires
        context_wf(d, p),
        state_wf(d, p, s),
        complete(d, p, s),
        0 <= c < p.cells.len(),
        s.choices[c] is None,
        ch < 26,
    ensures
        match committed(d, p, s, c, ch) {
            Some(t) => complete(d, p, t),
            None => forall|sol: Seq<u32>| #[trigger]
                is_solution(d, p, sol) ==> !extends(d, p, sol, chosen(s, c, ch).choices),
        },
{
    let s0 = chosen(s, c, ch);
    let s1 = after_across(d, p, s, c, ch);
    let s2 = after_down(d, p, s, c, ch);
    lemma_chosen(d, p, s, c, ch);
    assert forall|sol: Seq<u32>| #[trigger]
        is_solution(d, p, sol) && extends(d, p, sol, s0.choices) implies keeps(s2, sol)
        && !across_fails(d, p, s, c, ch) && !down_fails(d, p, s, c, ch) by {
        assert forall|c2: int| 0 <= c2 < p.cells.len() implies match #[trigger] s.choices[c2] {
            Some(l) => letter_of(d, p, sol, c2) == l,
            None => true,
        } by {
            if c2 != c {
                assert(s0.choices[c2] == s.choices[c2]);
            }
        }
        assert(extends(d, p, sol, s.choices));
        assert(keeps(s, sol));
        assert(keeps(s0, sol));
        assert(s0.choices[c] == Some(ch));
        assert(letter_of(d, p, sol, c) == ch);
        if p.cells[c].across is Some {
            let a = p.cells[c].across->0;
            assert(p.place(c, ACROSS) == Some(a));
            lemma_place(p, c, ACROSS);
            lemma_letter_of(d, p, sol, c, ACROSS);
            lemma_narrowed_keeps(d, p, s0, a.0 as int, a.1 as int, ch, sol);
            assert(s1.words[a.0 as int].contains(sol[a.0 as int]));
            lemma_narrowed(d, p, s0, a.0 as int, a.1 as int, ch);
        }
        assert(keeps(s1, sol));
        assert(core_wf(d, p, s1));
        if p.cells[c].down is Some {
            let b = p.cells[c].down->0;
            assert(p.place(c, DOWN) == Some(b));
            lemma_place(p, c, DOWN);
            lemma_letter_of(d, p, sol, c, DOWN);
            lemma_narrowed_keeps(d, p, s1, b.0 as int, b.1 as int, ch, sol);
            assert(s2.words[b.0 as int].contains(sol[b.0 as int]));
        }
    }
    match committed(d, p, s, c, ch) {
        Some(t) => {
            assert(t == s2);
            assert(t.choices == s0.choices);
        },
        None => {},
    }
}

/// The letter that a solution puts in a cell is a letter index that the cell's joint
/// distribution counts, as long as the slots keep the solution's words.
pub proof fn lemma_solution_letter_fits(d: Seq<Seq<u8>>, p: PuzzleView, s: State, c: int, sol: Seq<u32>)
    requires
        context_wf(d, p),
        core_wf(d, p, s),
        0 <= c < p.cells.len(),
        is_solution(d, p, sol),
        keeps(s, sol),
    ensures
        letter_of(d, p, sol, c) < 26,
        joint(d, p, s, c)[letter_of(d, p, sol, c) as int] > 0,
{
    let l = letter_of(d, p, sol, c);
    lemma_joint(d, p, s, c);
    assert(p.cells[c].across is Some || p.cells[c].down is Some);
    if p.cells[c].across is Some {
        let a = p.cells[c].across->0;
        assert(p.place(c, ACROSS) == Some(a));
        lemma_place(p, c, ACROSS);
        lemma_letter_of(d, p, sol, c, ACROSS);
        lemma_word_counted(d, p, s, a.0 as int, a.1 as int, sol[a.0 as int]);
    }
    if p.cells[c].down is Some {
        let b = p.cells[c].down->0;
        assert(p.place(c, DOWN) == Some(b));
        lemma_place(p, c, DOWN);
        lemma_letter_of(d, p, sol, c, DOWN);
        lemma_word_counted(d, p, s, b.0 as int, b.1 as int, sol[b.0 as int]);
    }
    if p.cells[c].across is Some && p.cells[c].down is Some {
        let a = p.cells[c].across->0;
        let b = p.cells[c].down->0;
        let u = inventory(d, s, a.0 as int, a.1 as int)[l as int] as int;
        let v = inventory(d, s, b.0 as int, b.1 as int)[l as int] as int;
        assert(u * v > 0) by (nonlinear_arith)
            requires
                u > 0,
                v > 0,
        ;
    }
}

/// A word among a slot's words is counted by the slot's histogram at each offset, under
/// its letter there, which is a letter index.
pub proof fn lemma_word_counted(d: Seq<Seq<u8>>, p: PuzzleView, s: State, li: int, pos: int, x: u32)
    requires
        context_wf(d, p),
        core_wf(d, p, s),
        0 <= li < p.lines.len(),
        0 <= pos < p.lines[li].len(),
        s.words[li].contains(x),
    ensures
        d[x as int][pos] < 26,
        inventory(d, s, li, pos)[d[x as int][pos] as int] > 0,
{
    let w = s.words[li];
    let l = d[x as int][pos];
    let k = choose|k: int| 0 <= k < w.len() && w[k] == x;
    assert(fitting(d, p.lines[li].len(), w));
    assert(w[k] < d.len());
    assert(valid_word(d[x as int]));
    lemma_occurrences_positive(d, w, pos, l);
    assert(d[w[k] as int][pos] == l);
    lemma_occurrences_bound(d, w, pos, l);
    lemma_ascending_len(w, d.len());
}

/// The assignment that gives each slot the first of its words.
pub open spec fn solution_of(s: State) -> Seq<u32> {
    Seq::new(s.words.len(), |li: int| s.words[li][0])
}

/// Every cell has a letter.
pub open spec fn all_chosen(s: State) -> bool {
    forall|c: int| 0 <= c < s.choices.len() ==> (#[trigger] s.choices[c]) is Some
}

/// Once every cell has a letter, each slot is left with a single word, and these words
/// are a solution with the committed letters in their cells.
pub proof fn lemma_solved(d: Seq<Seq<u8>>, p: PuzzleView, s: State)
    requires
        context_wf(d, p),
        state_wf(d, p, s),
        all_chosen(s),
    ensures
        forall|li: int| 0 <= li < p.lines.len() ==> (#[trigger] s.words[li]).len() == 1,
        is_solution(d, p, solution_of(s)),
        extends(d, p, solution_of(s), s.choices),
{
    let sol = solution_of(s);
    assert forall|li: int| 0 <= li < p.lines.len() implies (#[trigger] s.words[li]).len() == 1 by {
        let w = s.words[li];
        let len = p.lines[li].len();
        assert(fitting(d, len, w));
        let c0 = p.lines[li][0];
        assert(p.place(c0 as int, p.directions[li]) == Some((li as usize, 0usize)));
        assert(s.choices[c0 as int] is Some);
        let l0 = s.choices[c0 as int]->0;
        let dir = p.directions[li];
        assert(p.lines[li].len() >= 1 && (dir == ACROSS || dir == DOWN));
        assert(agrees(d, p, s, c0 as int, ACROSS, l0) && agrees(d, p, s, c0 as int, DOWN, l0));
        assert(agrees(d, p, s, c0 as int, dir, l0));
        assert(w.len() > 0);
        if w.len() > 1 {
            assert(w[0] < w[1]);
            assert(w[0] < d.len() && w[1] < d.len());
            let u = d[w[0] as int];
            let v = d[w[1] as int];
            assert forall|pos: int| 0 <= pos < len implies u[pos] == v[pos] by {
                let c = p.lines[li][pos];
                assert(p.place(c as int, p.directions[li]) == Some((li as usize, pos as usize)));
                assert(s.choices[c as int] is Some);
                let l = s.choices[c as int]->0;
                assert(agrees(d, p, s, c as int, ACROSS, l) && agrees(d, p, s, c as int, DOWN, l));
                assert(agrees(d, p, s, c as int, dir, l));
                assert(all_have(d, w, pos, l));
                assert(d[w[0] as int][pos] == l);
                assert(d[w[1] as int][pos] == l);
            }
            assert(u =~= v);
            assert(false);
        }
    }
    assert forall|i: int, j: int| 0 <= i < j < p.lines.len() implies sol[i] != sol[j] by {
        assert(s.words[i].len() == 1 && s.words[j].len() == 1);
        if sol[i] == sol[j] {
            assert(holds(s, i, sol[i]) && holds(s, j, sol[i]));
        }
    }
    assert forall|li: int| 0 <= li < p.lines.len() implies (#[trigger] sol[li]) < d.len()
        && d[sol[li] as int].len() == p.lines[li].len() by {
        assert(s.words[li].len() == 1);
        assert(fitting(d, p.lines[li].len(), s.words[li]));
        assert(s.words[li][0] < d.len());
    }
    assert forall|c: int|
        #![trigger p.cells[c]]
        #![trigger s.choices[c]]
        0 <= c < p.cells.len() implies letter_of(d, p, sol, c) == s.choices[c]->0 && match (
        p.cells[c].across,
        p.cells[c].down,
    ) {
        (Some(a), Some(b)) => d[sol[a.0 as int] as int][a.1 as int] == d[sol[b.0 as int] as int][b.1 as int],
        _ => true,
    } by {
        assert(s.choices[c] is Some);
        let l = s.choices[c]->0;
        assert(agrees(d, p, s, c, ACROSS, l) && agrees(d, p, s, c, DOWN, l));
        assert(p.cells[c].across is Some || p.cells[c].down is Some);
        if p.cells[c].across is Some {
            let a = p.cells[c].across->0;
            assert(p.place(c, ACROSS) == Some(a));
            lemma_place(p, c, ACROSS);
            assert(s.words[a.0 as int].len() == 1);
            assert(d[s.words[a.0 as int][0] as int][a.1 as int] == l);
        }
        if p.cells[c].down is Some {
            let b = p.cells[c].down->0;
            assert(p.place(c, DOWN) == Some(b));
            lemma_place(p, c, DOWN);
            assert(s.words[b.0 as int].len() == 1);
            assert(d[s.words[b.0 as int][0] as int][b.1 as int] == l);
        }
    }
}


/// The state in which no slot has any word yet, no cell a letter, and no word is claimed.
pub open spec fn blank(d: Seq<Seq<u8>>, p: PuzzleView) -> State {
    State {
        words: Seq::new(p.lines.len(), |li: int| Seq::<u32>::empty()),
        choices: Seq::new(p.cells.len(), |c: int| None::<u8>),
        claimed: Seq::new(max_len(d) + 1, |len: int| Seq::<u32>::empty()),
    }
}

/// The words that slot `li` starts with: the words of its length that no slot has claimed.
pub open spec fn seed_words(d: Seq<Seq<u8>>, p: PuzzleView, s: State, li: int) -> Seq<u32> {
    let len = p.lines[li].len();
    crate::skip_iter::without(crate::indices::ids_of_length(d, len), s.claimed[len as int])
}

/// The state once slot `li` has its first words: if that is a single word, the slot
/// holds it, and it is claimed.
pub open spec fn seed(d: Seq<Seq<u8>>, p: PuzzleView, s: State, li: int) -> State {
    let len = p.lines[li].len() as int;
    let w = seed_words(d, p, s, li);
    State {
        words: s.words.update(li, w),
        choices: s.choices,
        claimed: if w.len() == 1 {
            s.claimed.update(len, with_id(s.claimed[len], w[0]))
        } else {
            s.claimed
        },
    }
}

/// The state once the first `k` slots have their first words, in order.
pub open spec fn seeded(d: Seq<Seq<u8>>, p: PuzzleView, k: nat) -> State
    decreases k,
{
    if k == 0 {
        blank(d, p)
    } else {
        seed(d, p, seeded(d, p, (k - 1) as nat), k - 1)
    }
}

/// The state in which the search starts: every slot has its first words.
pub open spec fn initial(d: Seq<Seq<u8>>, p: PuzzleView) -> State {
    seeded(d, p, p.lines.len())
}

/// The first `k` slots still have the words that `sol` assigns to them.
pub open spec fn keeps_first(s: State, sol: Seq<u32>, k: int) -> bool {
    forall|li: int| 0 <= li < k ==> (#[trigger] s.words[li]).contains(sol[li])
}

/// The slots from `k` on have no word yet.
pub open spec fn blank_from(s: State, k: int) -> bool {
    forall|li: int| k <= li < s.words.len() ==> (#[trigger] s.words[li]).len() == 0
}

/// The first words of a slot: the words of its length that are not claimed.
pub proof fn lemma_seed_words(d: Seq<Seq<u8>>, p: PuzzleView, s: State, li: int)
    requires
        context_wf(d, p),
        core_wf(d, p, s),
        0 <= li < p.lines.len(),
    ensures
        fitting(d, p.lines[li].len(), seed_words(d, p, s, li)),
        forall|x: u32| #[trigger]
            seed_words(d, p, s, li).contains(x) <==> (x < d.len() && d[x as int].len()
                == p.lines[li].len() && !s.claimed[p.lines[li].len() as int].contains(x)),
{
    let len = p.lines[li].len();
    let all = crate::indices::ids_of_length(d, len);
    let w = seed_words(d, p, s, li);
    lemma_matching(d, d.len(), crate::indices::has_length(len));
    crate::skip_iter::lemma_without(all, s.claimed[len as int]);
    assert forall|x: u32| #[trigger] all.contains(x) <==> (x < d.len() && d[x as int].len() == len) by {
        assert(crate::indices::has_length(len)(d[x as int]) == (d[x as int].len() == len));
    }
    assert forall|k: int| 0 <= k < w.len() implies (#[trigger] w[k]) < d.len() && d[w[k] as int].len()
        == len by {
        assert(w.contains(w[k]));
    }
}

/// Giving a slot without words its first words keeps the slots and the registry
/// consistent, keeps the other slots' words, and keeps the solutions whose words the
/// slots before kept.
pub proof fn lemma_seed(d: Seq<Seq<u8>>, p: PuzzleView, s: State, li: int)
    requires
        context_wf(d, p),
        core_wf(d, p, s),
        0 <= li < p.lines.len(),
        blank_from(s, li),
    ensures
        core_wf(d, p, seed(d, p, s, li)),
        blank_from(seed(d, p, s, li), li + 1),
        seed(d, p, s, li).choices == s.choices,
        forall|sol: Seq<u32>| #[trigger]
            is_solution(d, p, sol) && keeps_first(s, sol, li) ==> keeps_first(
                seed(d, p, s, li),
                sol,
                li + 1,
            ),
{
    let len = p.lines[li].len();
    let w = seed_words(d, p, s, li);
    let t = seed(d, p, s, li);
    lemma_seed_words(d, p, s, li);
    assert(len <= max_len(d));
    assert(s.words[li].len() == 0);
    assert forall|j: int| 0 <= j < p.lines.len() implies fitting(
        d,
        p.lines[j].len(),
        #[trigger] t.words[j],
    ) by {
        if j != li {
            assert(t.words[j] == s.words[j]);
        }
    }
    assert forall|j: int, x: u32| holds(s, j, x) implies holds(t, j, x) by {
        assert(j != li);
    }
    if w.len() == 1 {
        let id = w[0];
        assert(w.contains(id));
        lemma_with_id(s.claimed[len as int], id);
        assert(holds(t, li, id));
        assert forall|k: int| 0 <= k <= max_len(d) implies ascending(#[trigger] t.claimed[k]) by {
            if k != len {
                assert(t.claimed[k] == s.claimed[k]);
            }
        }
        assert forall|k: int, x: u32|
            0 <= k <= max_len(d) && #[trigger] t.claimed[k].contains(x) implies x < d.len()
            && d[x as int].len() == k && exists|j: int| holds(t, j, x) by {
            if k == len && x == id {
            } else {
                if k != len {
                    assert(t.claimed[k] == s.claimed[k]);
                }
                assert(s.claimed[k].contains(x));
                let j = choose|j: int| holds(s, j, x);
                assert(holds(t, j, x));
            }
        }
        assert forall|j: int|
            0 <= j < p.lines.len() && (#[trigger] t.words[j]).len() == 1 implies t.claimed[p.lines[j].len() as int].contains(
            t.words[j][0],
        ) by {
            if j != li {
                assert(t.words[j] == s.words[j]);
                assert(s.claimed[p.lines[j].len() as int].contains(s.words[j][0]));
                if p.lines[j].len() != len {
                    assert(t.claimed[p.lines[j].len() as int] == s.claimed[p.lines[j].len() as int]);
                }
            }
        }
        assert forall|i: int, j: int, x: u32| holds(t, i, x) && holds(t, j, x) implies i == j by {
            if i != j {
                if i == li {
                    assert(holds(s, j, x));
                    assert(s.words[j].len() == 1);
                    assert(s.claimed[p.lines[j].len() as int].contains(x));
                    assert(fitting(d, p.lines[j].len(), s.words[j]));
                    assert(s.words[j][0] < d.len() && d[s.words[j][0] as int].len() == p.lines[j].len());
                } else if j == li {
                    assert(holds(s, i, x));
                    assert(s.words[i].len() == 1);
                    assert(s.claimed[p.lines[i].len() as int].contains(x));
                    assert(fitting(d, p.lines[i].len(), s.words[i]));
                    assert(s.words[i][0] < d.len() && d[s.words[i][0] as int].len() == p.lines[i].len());
                } else {
                    assert(holds(s, i, x) && holds(s, j, x));
                }
            }
        }
    } else {
        assert(t.claimed == s.claimed);
        assert forall|k: int, x: u32|
            0 <= k <= max_len(d) && #[trigger] t.claimed[k].contains(x) implies x < d.len()
            && d[x as int].len() == k && exists|j: int| holds(t, j, x) by {
            let j = choose|j: int| holds(s, j, x);
            assert(holds(t, j, x));
        }
        assert forall|j: int|
            0 <= j < p.lines.len() && (#[trigger] t.words[j]).len() == 1 implies t.claimed[p.lines[j].len() as int].contains(
            t.words[j][0],
        ) by {
            assert(j != li);
            assert(t.words[j] == s.words[j]);
        }
        assert forall|i: int, j: int, x: u32| holds(t, i, x) && holds(t, j, x) implies i == j by {
            assert(holds(s, i, x) && holds(s, j, x));
        }
    }
    assert forall|j: int| li + 1 <= j < t.words.len() implies (#[trigger] t.words[j]).len() == 0 by {
        assert(t.words[j] == s.words[j]);
    }
    assert forall|sol: Seq<u32>| #[trigger]
        is_solution(d, p, sol) && keeps_first(s, sol, li) implies keeps_first(t, sol, li + 1) by {
        let x = sol[li];
        assert(x < d.len() && d[x as int].len() == len);
        if s.claimed[len as int].contains(x) {
            let j = choose|j: int| holds(s, j, x);
            assert(s.words[j].len() == 1);
            assert(j < li);
            assert(s.words[j].contains(sol[j]));
            let k = choose|k: int| 0 <= k < s.words[j].len() && s.words[j][k] == sol[j];
            assert(sol[j] == x);
            assert(false);
        }
        assert(w.contains(x));
        assert forall|j: int| 0 <= j < li + 1 implies (#[trigger] t.words[j]).contains(sol[j]) by {
            if j != li {
                assert(t.words[j] == s.words[j]);
            }
        }
    }
}

/// After the first `k` slots have their first words, the slots and the registry are
/// consistent, no cell has a letter, and no solution has lost a word in those slots.
pub proof fn lemma_seeded(d: Seq<Seq<u8>>, p: PuzzleView, k: nat)
    requires
        context_wf(d, p),
        k <= p.lines.len(),
    ensures
        core_wf(d, p, seeded(d, p, k)),
        blank_from(seeded(d, p, k), k as int),
        seeded(d, p, k).choices == blank(d, p).choices,
        forall|sol: Seq<u32>| #[trigger] is_solution(d, p, sol) ==> keeps_first(seeded(d, p, k), sol, k as int),
    decreases k,
{
    if k == 0 {
        let s = blank(d, p);
        assert forall|li: int| 0 <= li < p.lines.len() implies fitting(
            d,
            p.lines[li].len(),
            #[trigger] s.words[li],
        ) by {
        }
    } else {
        lemma_seeded(d, p, (k - 1) as nat);
        lemma_seed(d, p, seeded(d, p, (k - 1) as nat), k - 1);
    }
}

/// The state in which the search starts is consistent and has lost no solution.
pub proof fn lemma_initial(d: Seq<Seq<u8>>, p: PuzzleView)
    requires
        context_wf(d, p),
    ensures
        state_wf(d, p, initial(d, p)),
        complete(d, p, initial(d, p)),
        forall|c: int| 0 <= c < p.cells.len() ==> (#[trigger] initial(d, p).choices[c]) is None,
{
    lemma_seeded(d, p, p.lines.len());
    let s = initial(d, p);
    assert forall|sol: Seq<u32>| #[trigger]
        is_solution(d, p, sol) && extends(d, p, sol, s.choices) implies keeps(s, sol) by {
        assert(keeps_first(s, sol, p.lines.len() as int));
    }
}


/// The joint distribution of a cell depends on the words of the cell's slots alone.
pub proof fn lemma_joint_frame(d: Seq<Seq<u8>>, p: PuzzleView, s: State, t: State, c: int)
    requires
        p.cells[c].across matches Some(a) ==> s.words[a.0 as int] == t.words[a.0 as int],
        p.cells[c].down matches Some(b) ==> s.words[b.0 as int] == t.words[b.0 as int],
    ensures
        joint(d, p, s, c) == joint(d, p, t, c),
        tightness(d, p, s, c) == tightness(d, p, t, c),
{
}

/// Committing a letter to a cell changes the words of the cell's slots alone, and the
/// letter of that cell alone.
pub proof fn lemma_committed_frame(d: Seq<Seq<u8>>, p: PuzzleView, s: State, c: int, ch: u8)
    requires
        context_wf(d, p),
        core_wf(d, p, s),
        0 <= c < p.cells.len(),
    ensures
        after_down(d, p, s, c, ch).choices == s.choices.update(c, Some(ch)),
        after_down(d, p, s, c, ch).words.len() == s.words.len(),
        forall|li: int|
            0 <= li < s.words.len() && !p.on_line(c, li) ==> #[trigger] after_down(
                d,
                p,
                s,
                c,
                ch,
            ).words[li] == s.words[li],
{
    assert(p.place(c, ACROSS) == p.cells[c].across);
    assert(p.place(c, DOWN) == p.cells[c].down);
    if p.cells[c].across is Some {
        lemma_place(p, c, ACROSS);
    }
    if p.cells[c].down is Some {
        lemma_place(p, c, DOWN);
    }
}

/// Undoing a commit changes the words of the slots in its frame alone, and the letter
/// of its cell alone.
pub proof fn lemma_undone_frame(p: PuzzleView, s: State, f: Undo)
    requires
        f.across matches Some(e) ==> 0 <= e.line < s.words.len(),
        f.down matches Some(e) ==> 0 <= e.line < s.words.len(),
    ensures
        undone(p, s, f).choices == s.choices.update(f.cell, None),
        undone(p, s, f).words.len() == s.words.len(),
        forall|li: int|
            0 <= li < s.words.len() && !(f.across matches Some(e) && e.line == li) && !(
            f.down matches Some(e) && e.line == li) ==> #[trigger] undone(p, s, f).words[li]
                == s.words[li],
{
}

/// The slots and the registry stay consistent whatever letters the cells have.
pub proof fn lemma_core_wf_choices(d: Seq<Seq<u8>>, p: PuzzleView, s: State, choices: Seq<Option<u8>>)
    requires
        core_wf(d, p, s),
        choices.len() == s.choices.len(),
    ensures
        core_wf(d, p, State { words: s.words, choices, claimed: s.claimed }),
{
    let t = State { words: s.words, choices, claimed: s.claimed };
    assert forall|k: int, x: u32|
        0 <= k <= max_len(d) && #[trigger] t.claimed[k].contains(x) implies x < d.len()
        && d[x as int].len() == k && exists|j: int| holds(t, j, x) by {
        let j = choose|j: int| holds(s, j, x);
        assert(holds(t, j, x));
    }
    assert forall|i: int, j: int, x: u32| holds(t, i, x) && holds(t, j, x) implies i == j by {
        assert(holds(s, i, x) && holds(s, j, x));
    }
}


/// No solution has the committed letters in their cells.
pub open spec fn hopeless(d: Seq<Seq<u8>>, p: PuzzleView, choices: Seq<Option<u8>>) -> bool {
    forall|sol: Seq<u32>| #[trigger] is_solution(d, p, sol) ==> !extends(d, p, sol, choices)
}

/// Number of cells without a letter.
pub open spec fn unsolved(choices: Seq<Option<u8>>) -> nat
    decreases choices.len(),
{
    if choices.len() == 0 {
        0
    } else {
        unsolved(choices.drop_last()) + if choices.last() is None {
            1nat
        } else {
            0nat
        }
    }
}

/// Giving a letter to a cell without one leaves one cell less without a letter.
pub proof fn lemma_unsolved_update(choices: Seq<Option<u8>>, c: int, ch: u8)
    requires
        0 <= c < choices.len(),
        choices[c] is None,
    ensures
        unsolved(choices.update(c, Some(ch))) + 1 == unsolved(choices),
    decreases choices.len(),
{
    let next = choices.update(c, Some(ch));
    if c == choices.len() - 1 {
        assert(next.drop_last() =~= choices.drop_last());
    } else {
        lemma_unsolved_update(choices.drop_last(), c, ch);
        assert(next.drop_last() =~= choices.drop_last().update(c, Some(ch)));
    }
}

/// The `later` letters keep each of the `earlier` ones.
pub open spec fn keeps_choices(earlier: Seq<Option<u8>>, later: Seq<Option<u8>>) -> bool {
    earlier.len() == later.len() && forall|c: int|
        0 <= c < earlier.len() && (#[trigger] earlier[c]) is Some ==> later[c] == earlier[c]
}

/// Where no solution has the letter `ch` in cell `c`, for any `ch` that the cell's joint
/// distribution counts, no solution has the committed letters in their cells.
pub proof fn lemma_exhausted(d: Seq<Seq<u8>>, p: PuzzleView, s: State, c: int)
    requires
        context_wf(d, p),
        state_wf(d, p, s),
        complete(d, p, s),
        0 <= c < p.cells.len(),
        forall|ch: u8|
            ch < 26 && joint(d, p, s, c)[ch as int] > 0 ==> #[trigger] hopeless(
                d,
                p,
                chosen(s, c, ch).choices,
            ),
    ensures
        hopeless(d, p, s.choices),
{
    assert forall|sol: Seq<u32>| #[trigger] is_solution(d, p, sol) implies !extends(
        d,
        p,
        sol,
        s.choices,
    ) by {
        if extends(d, p, sol, s.choices) {
            assert(keeps(s, sol));
            lemma_solution_letter_fits(d, p, s, c, sol);
            let ch = letter_of(d, p, sol, c);
            assert(hopeless(d, p, chosen(s, c, ch).choices));
            let next = chosen(s, c, ch).choices;
            assert forall|c2: int| 0 <= c2 < p.cells.len() implies match #[trigger] next[c2] {
                Some(l) => letter_of(d, p, sol, c2) == l,
                None => true,
            } by {
                if c2 != c {
                    assert(next[c2] == s.choices[c2]);
                }
            }
            assert(extends(d, p, sol, next));
        }
    }
}


/// A slot with words has, at each of its offsets, a histogram that counts each of its
/// words once: the histogram is not empty, and a letter's count is the number of the
/// slot's words with that letter there.
pub proof fn lemma_line_histograms(d: Seq<Seq<u8>>, p: PuzzleView, s: State, li: int, pos: int)
    requires
        context_wf(d, p),
        core_wf(d, p, s),
        0 <= li < p.lines.len(),
        0 <= pos < p.lines[li].len(),
        s.words[li].len() > 0,
    ensures
        crate::line::line_of(d, p.lines[li].len(), s.words[li]).inventories[pos] == histogram(
            d,
            s.words[li],
            pos,
        ),
        sum_below(histogram(d, s.words[li], pos), 26) == s.words[li].len(),
        crate::letters::support_of(histogram(d, s.words[li], pos)) != Set::<u8>::empty(),
        forall|l: int|
            0 <= l < 26 ==> #[trigger] histogram(d, s.words[li], pos)[l] == occurrences(
                d,
                s.words[li],
                pos,
                l as u8,
            ),
{
    let w = s.words[li];
    lemma_inventory(d, p, s, li, pos);
    assert(w.contains(w[0]));
    lemma_word_counted(d, p, s, li, pos, w[0]);
    let l0 = d[w[0] as int][pos];
    assert(crate::letters::support_of(histogram(d, w, pos)).contains(l0));
    assert forall|l: int| 0 <= l < 26 implies #[trigger] histogram(d, w, pos)[l] == occurrences(
        d,
        w,
        pos,
        l as u8,
    ) by {
        lemma_occurrences_bound(d, w, pos, l as u8);
    }
}

/// The word that a slot holds is claimed, under the slot's length.
pub proof fn lemma_held_is_claimed(d: Seq<Seq<u8>>, p: PuzzleView, s: State, li: int)
    requires
        core_wf(d, p, s),
        0 <= li < p.lines.len(),
        own_word(s.words[li]) is Some,
    ensures
        s.claimed[p.lines[li].len() as int].contains(own_word(s.words[li])->0),
{
}

/// A claimed word is held by exactly one slot, and that slot has the length under
/// which the word is claimed.
pub proof fn lemma_claimed_has_one_holder(d: Seq<Seq<u8>>, p: PuzzleView, s: State, len: int, x: u32) -> (li:
    int)
    requires
        context_wf(d, p),
        core_wf(d, p, s),
        0 <= len <= max_len(d),
        s.claimed[len].contains(x),
    ensures
        0 <= li < p.lines.len(),
        p.lines[li].len() == len,
        own_word(s.words[li]) == Some(x),
        forall|j: int| 0 <= j < p.lines.len() && own_word(#[trigger] s.words[j]) == Some(x) ==> j == li,
{
    let li = choose|li: int| holds(s, li, x);
    assert(fitting(d, p.lines[li].len(), s.words[li]));
    assert(s.words[li][0] < d.len() && d[s.words[li][0] as int].len() == p.lines[li].len());
    assert forall|j: int| 0 <= j < p.lines.len() && own_word(#[trigger] s.words[j]) == Some(x) implies j
        == li by {
        assert(holds(s, j, x));
    }
    li
}


/// The grid has a single cell, which is a slot of its own.
pub open spec fn single_cell(p: PuzzleView) -> bool {
    p.cells.len() == 1 && p.lines.len() == 1
}

/// In a grid of a single cell, committing a letter that the cell's distribution counts
/// is no dead end, and leaves no cell without a letter.
pub proof fn lemma_single_cell_commit(d: Seq<Seq<u8>>, p: PuzzleView, s: State, l: u8)
    requires
        context_wf(d, p),
        state_wf(d, p, s),
        single_cell(p),
        s.choices[0] is None,
        l < 26,
        joint(d, p, s, 0)[l as int] > 0,
    ensures
        committed(d, p, s, 0, l) is Some,
        all_chosen(committed(d, p, s, 0, l)->0),
{
    let s0 = chosen(s, 0, l);
    lemma_chosen(d, p, s, 0, l);
    lemma_committed_frame(d, p, s, 0, l);
    assert(p.place(0, ACROSS) == p.cells[0].across);
    assert(p.place(0, DOWN) == p.cells[0].down);
    assert(p.cells[0].across is Some || p.cells[0].down is Some);
    let direction = if p.cells[0].across is Some {
        ACROSS
    } else {
        DOWN
    };
    lemma_place(p, 0, direction);
    if p.cells[0].across is Some && p.cells[0].down is Some {
        lemma_slots_differ(p, 0);
    }
    let pl = p.place(0, direction)->0;
    let pos = pl.1 as int;
    assert(pl.0 == 0);
    let words = s.words[0];
    assert(joint(d, p, s, 0) == inventory(d, s, 0, pos));
    lemma_occurrences_positive(d, words, pos, l);
    lemma_occurrences_bound(d, words, pos, l);
    assert(fitting(d, p.lines[0].len(), words));
    lemma_ascending_len(words, d.len());
    let k = choose|k: int| 0 <= k < words.len() && d[#[trigger] words[k] as int][pos] == l;
    let x = words[k];
    assert(words.contains(x));
    let len = p.lines[0].len() as int;
    assert(len <= max_len(d));
    if s.claimed[len].contains(x) {
        let j = choose|j: int| holds(s, j, x);
        assert(j == 0);
    }
    lemma_narrowed_words(d, p, s0, 0, pos, l);
    assert(narrowed_words(d, p, s0, 0, pos, l).contains(x));
    let t = committed(d, p, s, 0, l)->0;
    assert forall|c: int| 0 <= c < t.choices.len() implies (#[trigger] t.choices[c]) is Some by {
        assert(c == 0);
    }
}

/// In a grid of a single cell, with a word for its slot, the search starts with a cell
/// without a letter whose distribution counts a letter.
pub proof fn lemma_single_cell_start(d: Seq<Seq<u8>>, p: PuzzleView)
    requires
        context_wf(d, p),
        single_cell(p),
        crate::indices::ids_of_length(d, p.lines[0].len()).len() > 0,
    ensures
        initial(d, p).choices[0] is None,
        tightness(d, p, initial(d, p), 0) > 0,
{
    let s = initial(d, p);
    lemma_initial(d, p);
    lemma_seeded(d, p, 0);
    let b = blank(d, p);
    assert(seeded(d, p, 1) == seed(d, p, b, 0));
    lemma_seed_words(d, p, b, 0);
    let len = p.lines[0].len();
    let ids = crate::indices::ids_of_length(d, len);
    lemma_matching(d, d.len(), crate::indices::has_length(len));
    let x = ids[0];
    assert(ids.contains(x));
    assert(crate::indices::has_length(len)(d[x as int]) == (d[x as int].len() == len));
    assert(len <= max_len(d));
    assert(b.claimed[len as int] =~= Seq::<u32>::empty());
    assert(seed_words(d, p, b, 0).contains(x));
    assert(s.words[0].contains(x));
    assert(p.place(0, ACROSS) == p.cells[0].across);
    assert(p.place(0, DOWN) == p.cells[0].down);
    assert(p.cells[0].across is Some || p.cells[0].down is Some);
    let direction = if p.cells[0].across is Some {
        ACROSS
    } else {
        DOWN
    };
    lemma_place(p, 0, direction);
    if p.cells[0].across is Some && p.cells[0].down is Some {
        lemma_slots_differ(p, 0);
    }
    let pl = p.place(0, direction)->0;
    let pos = pl.1 as int;
    assert(pl.0 == 0);
    assert(joint(d, p, s, 0) == inventory(d, s, 0, pos));
    lemma_word_counted(d, p, s, 0, pos, x);
    lemma_joint(d, p, s, 0);
    lemma_sum_below_bounds(joint(d, p, s, 0), 26, d[x as int][pos] as int);
}

} // verus!
