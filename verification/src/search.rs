//! The search as a function of the state and the budget: which cell it fills
//! next, which letters it tries for it, and how it ends.

use crate::letters::{by_frequency, support_of};
use crate::model::{all_chosen, committed, joint, tightness, unsolved, State};
use crate::puzzle::PuzzleView;
use crate::skip_iter::lemma_rising_unique;
use vstd::prelude::*;

verus! {

/// Cell `c` has no letter, and no cell without a letter is tighter.
pub open spec fn tightest(d: Seq<Seq<u8>>, p: PuzzleView, s: State, c: int) -> bool {
    &&& 0 <= c < p.cells.len()
    &&& s.choices[c] is None
    &&& forall|c2: int|
        0 <= c2 < p.cells.len() && (#[trigger] s.choices[c2]) is None ==> tightness(d, p, s, c)
            <= tightness(d, p, s, c2)
}

/// Cell `c` is the first of the tightest cells.
pub open spec fn is_pick(d: Seq<Seq<u8>>, p: PuzzleView, s: State, c: int) -> bool {
    tightest(d, p, s, c) && forall|c2: int| 0 <= c2 < c ==> !#[trigger] tightest(d, p, s, c2)
}

/// The cell that the search fills next: the first of the tightest cells.
pub open spec fn pick(d: Seq<Seq<u8>>, p: PuzzleView, s: State) -> int {
    choose|c: int| is_pick(d, p, s, c)
}

/// The first of the tightest cells is the cell that the search fills next.
pub proof fn lemma_pick(d: Seq<Seq<u8>>, p: PuzzleView, s: State, c: int)
    requires
        is_pick(d, p, s, c),
    ensures
        pick(d, p, s) == c,
{
    let c2 = pick(d, p, s);
    assert(is_pick(d, p, s, c2));
    if c2 < c {
        assert(!tightest(d, p, s, c2));
    }
    if c < c2 {
        assert(!tightest(d, p, s, c));
    }
}

/// The letters that the search tries for a cell with the joint distribution `dist`:
/// those that it counts, the most frequent first, and letters of equal count in
/// alphabetical order.
pub open spec fn letters_for(dist: Seq<u64>) -> Seq<u8> {
    choose|letters: Seq<u8>| by_frequency(letters, dist)
}

/// The rank of letter `l` in the order by falling count and rising letter index.
spec fn rank(dist: Seq<u64>, l: u8) -> int {
    (0x1_0000_0000_0000_0000 - dist[l as int]) * 32 + l
}

/// A histogram has one list of its letters by frequency.
pub proof fn lemma_letters_for(letters: Seq<u8>, dist: Seq<u64>)
    requires
        by_frequency(letters, dist),
    ensures
        letters_for(dist) == letters,
{
    let other = letters_for(dist);
    assert(by_frequency(other, dist));
    let a = Seq::new(letters.len(), |i: int| rank(dist, letters[i]));
    let b = Seq::new(other.len(), |i: int| rank(dist, other[i]));
    assert forall|i: int, j: int| 0 <= i < j < a.len() implies a[i] < a[j] by {
        assert(support_of(dist).contains(letters[i]));
        assert(support_of(dist).contains(letters[j]));
    }
    assert forall|i: int, j: int| 0 <= i < j < b.len() implies b[i] < b[j] by {
        assert(support_of(dist).contains(other[i]));
        assert(support_of(dist).contains(other[j]));
    }
    assert forall|x: int| a.contains(x) <==> b.contains(x) by {
        if a.contains(x) {
            let i = choose|i: int| 0 <= i < a.len() && a[i] == x;
            assert(support_of(dist).contains(letters[i]));
            assert(other.contains(letters[i]));
            let j = choose|j: int| 0 <= j < other.len() && other[j] == letters[i];
            assert(b[j] == x);
        }
        if b.contains(x) {
            let j = choose|j: int| 0 <= j < b.len() && b[j] == x;
            assert(support_of(dist).contains(other[j]));
            assert(letters.contains(other[j]));
            let i = choose|i: int| 0 <= i < letters.len() && letters[i] == other[j];
            assert(a[i] == x);
        }
    }
    lemma_rising_unique(a, b);
    assert forall|i: int| 0 <= i < letters.len() implies letters[i] == other[i] by {
        assert(a[i] == b[i]);
        assert(support_of(dist).contains(letters[i]));
        assert(support_of(dist).contains(other[i]));
    }
    assert(letters =~= other);
}

/// How a search ends.
pub enum Found {
    /// With a letter in every cell: the state then.
    Solved(State),
    /// At a dead end: no letter of the cell that was to be filled leads to a fill.
    DeadEnd,
    /// With one dead end more than the budget.
    OutOfBudget,
}

/// Counts a dead end against what is left of the budget.
pub open spec fn count_dead_end(left: nat) -> (Found, nat) {
    if left == 0 {
        (Found::OutOfBudget, 0)
    } else {
        (Found::DeadEnd, (left - 1) as nat)
    }
}

/// How the search from state `s` ends, and what it leaves of the budget of dead ends
/// `budget`. `depth` is the number of cells without a letter.
///
/// Where every cell has a letter, the grid is filled. Else the search tries, for the
/// first of the tightest cells, each of the cell's letters in turn, the most frequent
/// first; where none leads to a fill, it is at a dead end.
pub open spec fn search(d: Seq<Seq<u8>>, p: PuzzleView, s: State, budget: nat, depth: nat) -> (
    Found,
    nat,
)
    decreases depth, 2nat, 0nat,
{
    if all_chosen(s) {
        (Found::Solved(s), budget)
    } else {
        let c = pick(d, p, s);
        let r = try_from(d, p, s, c, letters_for(joint(d, p, s, c)), 0, budget, depth);
        match r.0 {
            Found::DeadEnd => count_dead_end(r.1),
            _ => r,
        }
    }
}

/// How trying the letters of `letters` from the `i`-th on, for cell `c`, ends: with the
/// first that leads to a fill or runs out of budget, or at a dead end where none does.
pub open spec fn try_from(
    d: Seq<Seq<u8>>,
    p: PuzzleView,
    s: State,
    c: int,
    letters: Seq<u8>,
    i: int,
    budget: nat,
    depth: nat,
) -> (Found, nat)
    decreases depth, 1nat, letters.len() - i,
{
    if i < 0 || i >= letters.len() {
        (Found::DeadEnd, budget)
    } else {
        let r = try_one(d, p, s, c, letters[i], budget, depth);
        match r.0 {
            Found::DeadEnd => try_from(d, p, s, c, letters, i + 1, r.1, depth),
            _ => r,
        }
    }
}

/// How trying letter `l` for cell `c` ends: at a dead end where committing it is one,
/// else as the search from the state with the letter committed ends.
pub open spec fn try_one(
    d: Seq<Seq<u8>>,
    p: PuzzleView,
    s: State,
    c: int,
    l: u8,
    budget: nat,
    depth: nat,
) -> (Found, nat)
    decreases depth, 0nat, 0nat,
{
    match committed(d, p, s, c, l) {
        None => (Found::DeadEnd, budget),
        Some(t) => if depth == 0 {
            (Found::DeadEnd, budget)
        } else {
            search(d, p, t, budget, (depth - 1) as nat)
        },
    }
}

/// How the search from state `s` with the budget `budget` ends.
pub open spec fn found(d: Seq<Seq<u8>>, p: PuzzleView, s: State, budget: nat) -> Found {
    search(d, p, s, budget, unsolved(s.choices)).0
}

/// No cell is without a letter exactly when every cell has one.
pub proof fn lemma_unsolved_none(choices: Seq<Option<u8>>)
    ensures
        unsolved(choices) == 0 <==> (forall|c: int|
            0 <= c < choices.len() ==> (#[trigger] choices[c]) is Some),
    decreases choices.len(),
{
    if choices.len() > 0 {
        let sub = choices.drop_last();
        lemma_unsolved_none(sub);
        if unsolved(choices) == 0 {
            assert forall|c: int| 0 <= c < choices.len() implies (#[trigger] choices[c]) is Some by {
                if c < sub.len() {
                    assert(sub[c] == choices[c]);
                }
            }
        }
        if forall|c: int| 0 <= c < choices.len() ==> (#[trigger] choices[c]) is Some {
            assert forall|c: int| 0 <= c < sub.len() implies (#[trigger] sub[c]) is Some by {
                assert(sub[c] == choices[c]);
            }
        }
    }
}

/// The search is a function of the state and the budget: from equal states, with
/// equal budgets, it ends the same way.
pub proof fn lemma_search_deterministic(
    d: Seq<Seq<u8>>,
    p: PuzzleView,
    s1: State,
    s2: State,
    budget1: nat,
    budget2: nat,
)
    requires
        s1 == s2,
        budget1 == budget2,
    ensures
        found(d, p, s1, budget1) == found(d, p, s2, budget2),
{
}

} // verus!
