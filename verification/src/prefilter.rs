//! The pre-filter: removes from each slot the words that the crossing slots
//! do not support, until none is left to remove. Stated as a rule on the
//! search state, with what the rule keeps, and computed on the slots' words.

use crate::dictionary::Dictionary;
use crate::line::{fitting, line_of, LineState};
use crate::model::{
    agrees, complete, context_wf, core_wf, extends, held_anew, holds, hopeless, is_solution, keeps,
    lemma_letter_of, lemma_place, lemma_replaced, replaced, state_wf, State,
};
use crate::puzzle::{Place, Puzzle, PuzzleView, ACROSS, DOWN};
use crate::skip_iter::{ascending, lemma_ascending_unique, lemma_filter_ascending};
use vstd::prelude::*;

verus! {

/// The other direction.
pub open spec fn other(direction: u8) -> u8 {
    if direction == ACROSS {
        DOWN
    } else {
        ACROSS
    }
}

/// The place, in the slot that crosses slot `li` at its offset `pos`, of the cell
/// where they cross; `None` where no slot crosses there.
pub open spec fn crossing(p: PuzzleView, li: int, pos: int) -> Option<Place> {
    p.place(p.lines[li][pos] as int, other(p.directions[li]))
}

/// Some word of `words` has letter `l` at offset `pos`.
pub open spec fn offers(d: Seq<Seq<u8>>, words: Seq<u32>, pos: int, l: u8) -> bool {
    exists|x: u32| #[trigger] words.contains(x) && d[x as int][pos] == l
}

/// The word `w` of slot `li` has, at each offset where a slot crosses, a letter that
/// some word of the crossing slot has there.
pub open spec fn supported(d: Seq<Seq<u8>>, p: PuzzleView, ws: Seq<Seq<u32>>, li: int, w: u32) -> bool {
    forall|pos: int|
        0 <= pos < p.lines[li].len() ==> match #[trigger] crossing(p, li, pos) {
            Some(pl) => offers(d, ws[pl.0 as int], pl.1 as int, d[w as int][pos]),
            None => true,
        }
}

/// Every word of every slot is supported: the pre-filter has nothing to remove.
pub open spec fn prefiltered(d: Seq<Seq<u8>>, p: PuzzleView, ws: Seq<Seq<u32>>) -> bool {
    forall|li: int, x: u32|
        0 <= li < ws.len() && #[trigger] ws[li].contains(x) ==> supported(d, p, ws, li, x)
}

/// Each slot's words in `g` are among its words in `s`.
pub open spec fn within(g: Seq<Seq<u32>>, s: Seq<Seq<u32>>) -> bool {
    g.len() == s.len() && forall|li: int, x: u32|
        0 <= li < g.len() && #[trigger] g[li].contains(x) ==> s[li].contains(x)
}

/// The words of slot `li` that some selection of the slots' words `s` with nothing to
/// remove still has.
pub open spec fn in_core(d: Seq<Seq<u8>>, p: PuzzleView, s: Seq<Seq<u32>>, li: int) -> spec_fn(
    u32,
) -> bool {
    |w: u32|
        exists|g: Seq<Seq<u32>>| #[trigger] within(g, s) && prefiltered(d, p, g) && g[li].contains(w)
}

/// What the pre-filter leaves of the slots' words `s`: the largest selection of them
/// in which every word is supported.
pub open spec fn core_words(d: Seq<Seq<u8>>, p: PuzzleView, s: Seq<Seq<u32>>) -> Seq<Seq<u32>> {
    Seq::new(s.len(), |li: int| s[li].filter(in_core(d, p, s, li)))
}

/// Every slot's words are strictly ascending.
pub open spec fn all_ascending(s: Seq<Seq<u32>>) -> bool {
    forall|li: int| 0 <= li < s.len() ==> ascending(#[trigger] s[li])
}

/// What the pre-filter leaves is a selection of the slots' words in which every word
/// is supported, and it holds every such selection.
pub proof fn lemma_core(d: Seq<Seq<u8>>, p: PuzzleView, s: Seq<Seq<u32>>)
    requires
        p.wf(),
        s.len() == p.lines.len(),
        all_ascending(s),
    ensures
        all_ascending(core_words(d, p, s)),
        within(core_words(d, p, s), s),
        prefiltered(d, p, core_words(d, p, s)),
        forall|g: Seq<Seq<u32>>| #[trigger]
            within(g, s) && prefiltered(d, p, g) ==> within(g, core_words(d, p, s)),
{
    let c = core_words(d, p, s);
    assert forall|li: int| 0 <= li < s.len() implies ascending(#[trigger] c[li]) && (forall|x: u32|
        c[li].contains(x) <==> (s[li].contains(x) && in_core(d, p, s, li)(x))) by {
        lemma_filter_ascending(s[li], in_core(d, p, s, li));
    }
    assert forall|li: int, x: u32| 0 <= li < c.len() && #[trigger] c[li].contains(x) implies supported(
        d,
        p,
        c,
        li,
        x,
    ) by {
        assert(in_core(d, p, s, li)(x));
        let g = choose|g: Seq<Seq<u32>>| #[trigger]
            within(g, s) && prefiltered(d, p, g) && g[li].contains(x);
        assert(supported(d, p, g, li, x));
        assert forall|pos: int| 0 <= pos < p.lines[li].len() implies match #[trigger] crossing(
            p,
            li,
            pos,
        ) {
            Some(pl) => offers(d, c[pl.0 as int], pl.1 as int, d[x as int][pos]),
            None => true,
        } by {
            match crossing(p, li, pos) {
                Some(pl) => {
                    lemma_crossing(p, li, pos);
                    let lj = pl.0 as int;
                    assert(offers(d, g[lj], pl.1 as int, d[x as int][pos]));
                    let y = choose|y: u32| #[trigger]
                        g[lj].contains(y) && d[y as int][pl.1 as int] == d[x as int][pos];
                    assert(within(g, s) && prefiltered(d, p, g) && g[lj].contains(y));
                    assert(in_core(d, p, s, lj)(y));
                    assert(s[lj].contains(y));
                    assert(c[lj].contains(y));
                },
                None => {},
            }
        }
    }
    assert forall|g: Seq<Seq<u32>>| #[trigger] within(g, s) && prefiltered(d, p, g) implies within(
        g,
        c,
    ) by {
        assert forall|li: int, x: u32| 0 <= li < g.len() && #[trigger] g[li].contains(x) implies c[li].contains(
            x,
        ) by {
            assert(within(g, s) && prefiltered(d, p, g) && g[li].contains(x));
            assert(in_core(d, p, s, li)(x));
        }
    }
}

/// The slot that crosses a slot of a consistent grid at an offset is a slot of the
/// grid, and the place is an offset in it.
pub proof fn lemma_crossing(p: PuzzleView, li: int, pos: int)
    requires
        p.wf(),
        0 <= li < p.lines.len(),
        0 <= pos < p.lines[li].len(),
    ensures
        p.lines[li][pos] < p.cells.len(),
        p.place(p.lines[li][pos] as int, p.directions[li]) == Some((li as usize, pos as usize)),
        match crossing(p, li, pos) {
            Some(pl) => pl.0 < p.lines.len() && pl.1 < p.lines[pl.0 as int].len() && pl.0 != li
                && p.lines[pl.0 as int][pl.1 as int] == p.lines[li][pos],
            None => true,
        },
{
    let c = p.lines[li][pos];
    assert(p.place(c as int, p.directions[li]) == Some((li as usize, pos as usize)));
    let dir = other(p.directions[li]);
    if p.place(c as int, dir) is Some {
        lemma_place(p, c as int, dir);
    }
}

/// A selection of the slots' words in which every word is supported, and which holds
/// every such selection, is what the pre-filter leaves.
pub proof fn lemma_core_unique(d: Seq<Seq<u8>>, p: PuzzleView, s: Seq<Seq<u32>>, r: Seq<Seq<u32>>)
    requires
        p.wf(),
        s.len() == p.lines.len(),
        all_ascending(s),
        all_ascending(r),
        within(r, s),
        prefiltered(d, p, r),
        forall|g: Seq<Seq<u32>>| #[trigger] within(g, s) && prefiltered(d, p, g) ==> within(g, r),
    ensures
        r == core_words(d, p, s),
{
    let c = core_words(d, p, s);
    lemma_core(d, p, s);
    assert(within(c, s) && prefiltered(d, p, c));
    assert(within(c, r));
    assert(within(r, s) && prefiltered(d, p, r));
    assert(within(r, c));
    assert forall|li: int| 0 <= li < r.len() implies #[trigger] r[li] == c[li] by {
        assert forall|x: u32| r[li].contains(x) <==> c[li].contains(x) by {
        }
        lemma_ascending_unique(r[li], c[li]);
    }
    assert(r =~= c);
}

/// Where the pre-filter has nothing to remove, it leaves the slots' words as they are.
pub proof fn lemma_core_fixed(d: Seq<Seq<u8>>, p: PuzzleView, s: Seq<Seq<u32>>)
    requires
        p.wf(),
        s.len() == p.lines.len(),
        all_ascending(s),
        prefiltered(d, p, s),
    ensures
        core_words(d, p, s) == s,
{
    assert forall|g: Seq<Seq<u32>>| #[trigger] within(g, s) && prefiltered(d, p, g) implies within(
        g,
        s,
    ) by {}
    assert(within(s, s));
    lemma_core_unique(d, p, s, s);
}

/// The words of a solution, one for each slot.
pub open spec fn words_of_solution(sol: Seq<u32>) -> Seq<Seq<u32>> {
    Seq::new(sol.len(), |li: int| seq![sol[li]])
}

/// The words of a solution are a selection in which every word is supported.
pub proof fn lemma_solution_prefiltered(d: Seq<Seq<u8>>, p: PuzzleView, sol: Seq<u32>)
    requires
        p.wf(),
        is_solution(d, p, sol),
    ensures
        prefiltered(d, p, words_of_solution(sol)),
        forall|li: int| 0 <= li < sol.len() ==> #[trigger] words_of_solution(sol)[li].contains(sol[li]),
{
    let g = words_of_solution(sol);
    assert forall|li: int| 0 <= li < sol.len() implies #[trigger] g[li].contains(sol[li]) by {
        assert(g[li][0] == sol[li]);
    }
    assert forall|li: int, x: u32| 0 <= li < g.len() && #[trigger] g[li].contains(x) implies supported(
        d,
        p,
        g,
        li,
        x,
    ) by {
        assert(x == sol[li]);
        assert forall|pos: int| 0 <= pos < p.lines[li].len() implies match #[trigger] crossing(
            p,
            li,
            pos,
        ) {
            Some(pl) => offers(d, g[pl.0 as int], pl.1 as int, d[x as int][pos]),
            None => true,
        } by {
            match crossing(p, li, pos) {
                Some(pl) => {
                    lemma_crossing(p, li, pos);
                    let c = p.lines[li][pos] as int;
                    let dir = p.directions[li];
                    assert(dir == ACROSS || dir == DOWN);
                    lemma_letter_of(d, p, sol, c, dir);
                    lemma_letter_of(d, p, sol, c, other(dir));
                    assert(g[pl.0 as int].contains(sol[pl.0 as int]));
                },
                None => {},
            }
        }
    }
}

/// What the pre-filter leaves of the words of a state that has lost no solution has
/// lost none either.
pub proof fn lemma_core_keeps(d: Seq<Seq<u8>>, p: PuzzleView, s: State, sol: Seq<u32>)
    requires
        p.wf(),
        s.words.len() == p.lines.len(),
        all_ascending(s.words),
        is_solution(d, p, sol),
        keeps(s, sol),
    ensures
        forall|li: int|
            0 <= li < p.lines.len() ==> (#[trigger] core_words(d, p, s.words)[li]).contains(sol[li]),
{
    let g = words_of_solution(sol);
    lemma_solution_prefiltered(d, p, sol);
    lemma_core(d, p, s.words);
    assert forall|li: int, x: u32| 0 <= li < g.len() && #[trigger] g[li].contains(x) implies s.words[li].contains(
        x,
    ) by {
        assert(x == sol[li]);
    }
    assert(within(g, s.words) && prefiltered(d, p, g));
    assert(within(g, core_words(d, p, s.words)));
    assert forall|li: int| 0 <= li < p.lines.len() implies (#[trigger] core_words(
        d,
        p,
        s.words,
    )[li]).contains(sol[li]) by {
        assert(g[li].contains(sol[li]));
    }
}


/// The state once the first `k` slots have the words `r` in place of their own.
pub open spec fn installed(p: PuzzleView, s: State, r: Seq<Seq<u32>>, k: nat) -> State
    decreases k,
{
    if k == 0 {
        s
    } else {
        replaced(p, installed(p, s, r, (k - 1) as nat), k - 1, r[k - 1])
    }
}

/// Slot `li` can take the words `r[li]` once the slots before it have taken theirs:
/// it is left with a word, and a word that it comes to hold is not claimed.
pub open spec fn step_ok(p: PuzzleView, s: State, r: Seq<Seq<u32>>, li: int) -> bool {
    r[li].len() > 0 && match held_anew(s.words[li], r[li]) {
        Some(id) => !installed(p, s, r, li as nat).claimed[p.lines[li].len() as int].contains(id),
        None => true,
    }
}

/// Each of the first `k` slots can take its words of `r`, in order.
pub open spec fn installable(p: PuzzleView, s: State, r: Seq<Seq<u32>>, k: nat) -> bool {
    forall|li: int| 0 <= li < k ==> #[trigger] step_ok(p, s, r, li)
}

/// The state that the pre-filter leaves: each slot with the words that it keeps, and
/// the words claimed that slots come to hold. `None` where a slot would be left without
/// a word, or two slots with the same single word.
pub open spec fn prefilter_view(d: Seq<Seq<u8>>, p: PuzzleView, s: State) -> Option<State> {
    let r = core_words(d, p, s.words);
    if installable(p, s, r, p.lines.len()) {
        Some(installed(p, s, r, p.lines.len()))
    } else {
        None
    }
}

/// Each slot's words in `r` fit the slot.
pub open spec fn all_fitting(d: Seq<Seq<u8>>, p: PuzzleView, r: Seq<Seq<u32>>) -> bool {
    r.len() == p.lines.len() && forall|li: int|
        0 <= li < p.lines.len() ==> fitting(d, p.lines[li].len(), #[trigger] r[li])
}

/// A word is claimed after the first `k` slots have taken their words exactly when it
/// was claimed before or one of those slots has come to hold it.
pub open spec fn claimed_after(p: PuzzleView, s: State, r: Seq<Seq<u32>>, k: int, len: int, x: u32) -> bool {
    s.claimed[len].contains(x) || exists|j: int|
        0 <= j < k && #[trigger] held_anew(s.words[j], r[j]) == Some(x) && p.lines[j].len() == len
}

/// Taking the words of `r`, slot by slot, keeps the slots and the registry consistent.
pub proof fn lemma_installed(d: Seq<Seq<u8>>, p: PuzzleView, s: State, r: Seq<Seq<u32>>, k: nat)
    requires
        context_wf(d, p),
        core_wf(d, p, s),
        all_fitting(d, p, r),
        within(r, s.words),
        k <= p.lines.len(),
        installable(p, s, r, k),
    ensures
        core_wf(d, p, installed(p, s, r, k)),
        installed(p, s, r, k).choices == s.choices,
        forall|j: int|
            0 <= j < p.lines.len() ==> #[trigger] installed(p, s, r, k).words[j] == if j < k {
                r[j]
            } else {
                s.words[j]
            },
        forall|c: int, direction: u8, l: u8|
            0 <= c < p.cells.len() && (direction == ACROSS || direction == DOWN) && agrees(
                d,
                p,
                s,
                c,
                direction,
                l,
            ) ==> #[trigger] agrees(d, p, installed(p, s, r, k), c, direction, l),
        forall|len: int, x: u32|
            0 <= len < s.claimed.len() ==> (#[trigger] installed(p, s, r, k).claimed[len].contains(x)
                <==> claimed_after(p, s, r, k as int, len, x)),
    decreases k,
{
    if k > 0 {
        let li = k - 1;
        let t = installed(p, s, r, li as nat);
        let u = installed(p, s, r, k);
        lemma_installed(d, p, s, r, li as nat);
        assert(step_ok(p, s, r, li));
        assert(t.words[li] == s.words[li]);
        assert(fitting(d, p.lines[li].len(), r[li]));
        let len_li = p.lines[li].len() as int;
        assert(len_li <= crate::model::max_len(d));
        lemma_replaced(d, p, t, li, r[li]);
        assert forall|j: int| 0 <= j < p.lines.len() implies #[trigger] u.words[j] == if j < k {
            r[j]
        } else {
            s.words[j]
        } by {
            if j != li {
                assert(u.words[j] == t.words[j]);
            }
        }
        assert forall|len: int, x: u32| 0 <= len < s.claimed.len() implies (#[trigger] u.claimed[len].contains(
            x,
        ) <==> claimed_after(p, s, r, k as int, len, x)) by {
            assert(t.claimed[len].contains(x) <==> claimed_after(p, s, r, li, len, x));
            match held_anew(s.words[li], r[li]) {
                Some(id) => {
                    crate::indices::lemma_with_id(t.claimed[len_li], id);
                    if len != len_li {
                        assert(u.claimed[len] == t.claimed[len]);
                    }
                },
                None => {
                    assert(u.claimed == t.claimed);
                },
            }
            if claimed_after(p, s, r, li, len, x) {
                if !s.claimed[len].contains(x) {
                    let j = choose|j: int|
                        0 <= j < li && #[trigger] held_anew(s.words[j], r[j]) == Some(x)
                            && p.lines[j].len() == len;
                    assert(0 <= j < k && held_anew(s.words[j], r[j]) == Some(x));
                }
            }
            if claimed_after(p, s, r, k as int, len, x) && !claimed_after(p, s, r, li, len, x) {
                let j = choose|j: int|
                    0 <= j < k && #[trigger] held_anew(s.words[j], r[j]) == Some(x) && p.lines[j].len()
                        == len;
                assert(j == li);
            }
            if held_anew(s.words[li], r[li]) == Some(x) && len == len_li {
                assert(claimed_after(p, s, r, k as int, len, x));
            }
        }
    }
}

/// Where not all of the first `k` slots can take their words, one of them cannot after
/// all those before it could.
pub proof fn lemma_first_failure(p: PuzzleView, s: State, r: Seq<Seq<u32>>, k: nat) -> (li: int)
    requires
        !installable(p, s, r, k),
    ensures
        0 <= li < k,
        installable(p, s, r, li as nat),
        !step_ok(p, s, r, li),
    decreases k,
{
    if k == 0 {
        arbitrary()
    } else if installable(p, s, r, (k - 1) as nat) {
        k - 1
    } else {
        lemma_first_failure(p, s, r, (k - 1) as nat)
    }
}

/// The state that the pre-filter leaves is consistent and has lost no solution, with
/// the cells' letters as they were and nothing left to remove; and where the pre-filter
/// fails, no solution has the committed letters in their cells.
pub proof fn lemma_prefilter_view(d: Seq<Seq<u8>>, p: PuzzleView, s: State)
    requires
        context_wf(d, p),
        state_wf(d, p, s),
        complete(d, p, s),
    ensures
        match prefilter_view(d, p, s) {
            Some(t) => {
                &&& state_wf(d, p, t)
                &&& complete(d, p, t)
                &&& t.choices == s.choices
                &&& t.words == core_words(d, p, s.words)
                &&& within(t.words, s.words)
                &&& prefiltered(d, p, t.words)
            },
            None => hopeless(d, p, s.choices),
        },
{
    let r = core_words(d, p, s.words);
    let n = p.lines.len();
    assert(all_ascending(s.words)) by {
        assert forall|li: int| 0 <= li < s.words.len() implies ascending(#[trigger] s.words[li]) by {
            assert(fitting(d, p.lines[li].len(), s.words[li]));
        }
    }
    lemma_core(d, p, s.words);
    assert(all_fitting(d, p, r)) by {
        assert forall|li: int| 0 <= li < p.lines.len() implies fitting(
            d,
            p.lines[li].len(),
            #[trigger] r[li],
        ) by {
            assert(fitting(d, p.lines[li].len(), s.words[li]));
            crate::line::lemma_subset_fits(d, p.lines[li].len(), s.words[li], r[li]);
        }
    }
    match prefilter_view(d, p, s) {
        Some(t) => {
            lemma_installed(d, p, s, r, n);
            assert(t.words =~= r);
            assert forall|c: int| 0 <= c < p.cells.len() implies match #[trigger] t.choices[c] {
                Some(ch) => ch < 26 && agrees(d, p, t, c, ACROSS, ch) && agrees(d, p, t, c, DOWN, ch),
                None => true,
            } by {
                match s.choices[c] {
                    Some(ch) => {
                        assert(agrees(d, p, s, c, ACROSS, ch) && agrees(d, p, s, c, DOWN, ch));
                    },
                    None => {},
                }
            }
            assert forall|sol: Seq<u32>| #[trigger]
                is_solution(d, p, sol) && extends(d, p, sol, t.choices) implies keeps(t, sol) by {
                assert(keeps(s, sol));
                lemma_core_keeps(d, p, s, sol);
            }
        },
        None => {
            let li = lemma_first_failure(p, s, r, n);
            lemma_installed(d, p, s, r, li as nat);
            let len = p.lines[li].len() as int;
            assert(len <= crate::model::max_len(d));
            assert forall|sol: Seq<u32>| #[trigger] is_solution(d, p, sol) implies !extends(
                d,
                p,
                sol,
                s.choices,
            ) by {
                if extends(d, p, sol, s.choices) {
                    assert(keeps(s, sol));
                    lemma_core_keeps(d, p, s, sol);
                    assert(r[li].contains(sol[li]));
                    if r[li].len() > 0 {
                        let id = held_anew(s.words[li], r[li])->0;
                        assert(r[li].len() == 1);
                        let a = choose|a: int| 0 <= a < r[li].len() && r[li][a] == sol[li];
                        assert(sol[li] == id);
                        assert(claimed_after(p, s, r, li, len, id));
                        if s.claimed[len].contains(id) {
                            let j = choose|j: int| holds(s, j, id);
                            assert(j != li);
                            assert(r[j].contains(sol[j]));
                            assert(s.words[j].contains(sol[j]));
                            let b = choose|b: int| 0 <= b < s.words[j].len() && s.words[j][b] == sol[j];
                            assert(sol[j] == id);
                            if j < li {
                                assert(sol[j] != sol[li]);
                            } else {
                                assert(sol[li] != sol[j]);
                            }
                        } else {
                            let j = choose|j: int|
                                0 <= j < li && #[trigger] held_anew(s.words[j], r[j]) == Some(id)
                                    && p.lines[j].len() == len;
                            assert(r[j].contains(sol[j]));
                            let b = choose|b: int| 0 <= b < r[j].len() && r[j][b] == sol[j];
                            assert(sol[j] == id);
                            assert(sol[j] != sol[li]);
                        }
                    }
                }
            }
        },
    }
}

/// Taking the words that the slots have already changes nothing.
pub proof fn lemma_installed_same(p: PuzzleView, s: State, k: nat)
    requires
        k <= s.words.len(),
    ensures
        installed(p, s, s.words, k) == s,
    decreases k,
{
    if k > 0 {
        lemma_installed_same(p, s, (k - 1) as nat);
        let t = replaced(p, s, k - 1, s.words[k - 1]);
        assert(t.words =~= s.words);
    }
}

/// The pre-filter, applied again, changes nothing: the state that it leaves is the
/// state that it leaves of that state.
pub proof fn lemma_prefilter_idempotent(d: Seq<Seq<u8>>, p: PuzzleView, s: State)
    requires
        context_wf(d, p),
        state_wf(d, p, s),
        complete(d, p, s),
        prefilter_view(d, p, s) is Some,
    ensures
        prefilter_view(d, p, prefilter_view(d, p, s)->0) == prefilter_view(d, p, s),
{
    let t = prefilter_view(d, p, s)->0;
    let r = core_words(d, p, s.words);
    let n = p.lines.len();
    lemma_prefilter_view(d, p, s);
    assert(all_ascending(t.words)) by {
        assert forall|li: int| 0 <= li < t.words.len() implies ascending(#[trigger] t.words[li]) by {
            assert(fitting(d, p.lines[li].len(), t.words[li]));
        }
    }
    lemma_core_fixed(d, p, t.words);
    lemma_installed_same(p, t, n);
    assert forall|li: int| 0 <= li < n implies #[trigger] step_ok(p, t, t.words, li) by {
        assert(step_ok(p, s, r, li));
        assert(t.words[li] == r[li]);
    }
}


/// A word that is supported among some words is supported among more.
pub proof fn lemma_supported_more(
    d: Seq<Seq<u8>>,
    p: PuzzleView,
    g: Seq<Seq<u32>>,
    w: Seq<Seq<u32>>,
    li: int,
    x: u32,
)
    requires
        p.wf(),
        g.len() == p.lines.len(),
        within(g, w),
        0 <= li < p.lines.len(),
        supported(d, p, g, li, x),
    ensures
        supported(d, p, w, li, x),
{
    assert forall|pos: int| 0 <= pos < p.lines[li].len() implies match #[trigger] crossing(p, li, pos) {
        Some(pl) => offers(d, w[pl.0 as int], pl.1 as int, d[x as int][pos]),
        None => true,
    } by {
        match crossing(p, li, pos) {
            Some(pl) => {
                lemma_crossing(p, li, pos);
                let lj = pl.0 as int;
                assert(offers(d, g[lj], pl.1 as int, d[x as int][pos]));
                let y = choose|y: u32| #[trigger]
                    g[lj].contains(y) && d[y as int][pl.1 as int] == d[x as int][pos];
                assert(w[lj].contains(y));
            },
            None => {},
        }
    }
}

/// Number of words that the slots have, all in all.
pub open spec fn total_words(ws: Seq<Seq<u32>>) -> nat
    decreases ws.len(),
{
    if ws.len() == 0 {
        0
    } else {
        total_words(ws.drop_last()) + ws.last().len()
    }
}

/// Giving one slot other words changes the total by the difference in their number.
pub proof fn lemma_total_update(ws: Seq<Seq<u32>>, li: int, new: Seq<u32>)
    requires
        0 <= li < ws.len(),
    ensures
        total_words(ws.update(li, new)) + ws[li].len() == total_words(ws) + new.len(),
    decreases ws.len(),
{
    let next = ws.update(li, new);
    if li == ws.len() - 1 {
        assert(next.drop_last() =~= ws.drop_last());
    } else {
        lemma_total_update(ws.drop_last(), li, new);
        assert(next.drop_last() =~= ws.drop_last().update(li, new));
    }
}

/// Slots that each have no more words than before have no more words all in all.
pub proof fn lemma_total_le(a: Seq<Seq<u32>>, b: Seq<Seq<u32>>)
    requires
        a.len() == b.len(),
        forall|li: int| 0 <= li < a.len() ==> (#[trigger] a[li]).len() <= b[li].len(),
    ensures
        total_words(a) <= total_words(b),
    decreases a.len(),
{
    if a.len() > 0 {
        assert forall|li: int| 0 <= li < a.drop_last().len() implies (#[trigger] a.drop_last()[li]).len()
            <= b.drop_last()[li].len() by {
            assert(a.drop_last()[li] == a[li]);
            assert(a[li].len() <= b[li].len());
        }
        lemma_total_le(a.drop_last(), b.drop_last());
        assert(a[a.len() - 1].len() <= b[a.len() - 1].len());
    }
}

/// The total of the first `k` slots' words grows with `k`, by the words of slot `k`.
pub proof fn lemma_total_take(ws: Seq<Seq<u32>>, k: int)
    requires
        0 <= k < ws.len(),
    ensures
        total_words(ws.take(k + 1)) == total_words(ws.take(k)) + ws[k].len(),
{
    assert(ws.take(k + 1).drop_last() =~= ws.take(k));
}


/// The slots' working states are consistent, each with words that fit its slot.
pub open spec fn work_wf(d: Seq<Seq<u8>>, p: PuzzleView, work: Seq<LineState>) -> bool {
    work.len() == p.lines.len() && forall|li: int|
        0 <= li < work.len() ==> (#[trigger] work[li])@ == line_of(
            d,
            p.lines[li].len(),
            work[li]@.words,
        ) && fitting(d, p.lines[li].len(), work[li]@.words)
}

/// The words of the slots' working states.
pub open spec fn words_of(work: Seq<LineState>) -> Seq<Seq<u32>> {
    Seq::new(work.len(), |li: int| work[li]@.words)
}

/// A copy of a list of words.
fn copy_words(v: &Vec<u32>) -> (r: Vec<u32>)
    ensures
        r@ == v@,
{
    let mut r: Vec<u32> = Vec::new();
    let mut i: usize = 0;
    while i < v.len()
        invariant
            i <= v@.len(),
            r@ == v@.take(i as int),
        decreases v@.len() - i,
    {
        r.push(v[i]);
        assert(v@.take(i + 1) =~= v@.take(i as int).push(v@[i as int]));
        i = i + 1;
    }
    assert(v@.take(v@.len() as int) =~= v@);
    r
}

/// Whether the word `w` of slot `li` is supported by the words of the crossing slots.
fn is_supported(dict: &Dictionary, puzzle: &Puzzle, work: &Vec<LineState>, li: usize, w: u32) -> (r:
    bool)
    requires
        dict.wf(),
        puzzle@.wf(),
        work_wf(dict@, puzzle@, work@),
        li < puzzle@.lines.len(),
        w < dict@.len(),
        dict@[w as int].len() == puzzle@.lines[li as int].len(),
    ensures
        r == supported(dict@, puzzle@, words_of(work@), li as int, w),
{
    let ghost d = dict@;
    let ghost p = puzzle@;
    let ghost ws = words_of(work@);
    proof {
        dict.lemma_valid();
        assert(crate::dictionary::valid_word(d[w as int]));
    }
    let len = puzzle.lines[li].cell_indices.len();
    let across = puzzle.lines[li].direction == ACROSS;
    let mut pos: usize = 0;
    while pos < len
        invariant
            pos <= len,
            len == p.lines[li as int].len(),
            across == (p.directions[li as int] == ACROSS),
            d == dict@,
            p == puzzle@,
            p.wf(),
            dict.wf(),
            crate::dictionary::valid_dictionary(d),
            ws == words_of(work@),
            work_wf(d, p, work@),
            li < p.lines.len(),
            w < d.len(),
            d[w as int].len() == len,
            crate::dictionary::valid_word(d[w as int]),
            forall|q: int|
                0 <= q < pos ==> match #[trigger] crossing(p, li as int, q) {
                    Some(pl) => offers(d, ws[pl.0 as int], pl.1 as int, d[w as int][q]),
                    None => true,
                },
        decreases len - pos,
    {
        let cell = puzzle.lines[li].cell_indices[pos];
        proof {
            lemma_crossing(p, li as int, pos as int);
        }
        let place = if across {
            puzzle.cells[cell].down
        } else {
            puzzle.cells[cell].across
        };
        assert(place == crossing(p, li as int, pos as int));
        match place {
            Some(pl) => {
                let l = dict.letter_at(w, pos);
                let ghost words = work@[pl.0 as int]@.words;
                proof {
                    assert(ws[pl.0 as int] == words);
                    assert(work@[pl.0 as int]@.inventories[pl.1 as int] == crate::line::histogram(
                        d,
                        words,
                        pl.1 as int,
                    ));
                    crate::line::lemma_occurrences_positive(d, words, pl.1 as int, l);
                    crate::line::lemma_occurrences_bound(d, words, pl.1 as int, l);
                    crate::model::lemma_ascending_len(words, d.len());
                    if exists|k: int| 0 <= k < words.len() && d[#[trigger] words[k] as int][pl.1 as int] == l {
                        let k = choose|k: int|
                            0 <= k < words.len() && d[#[trigger] words[k] as int][pl.1 as int] == l;
                        assert(words.contains(words[k]));
                    }
                    if offers(d, words, pl.1 as int, l) {
                        let x = choose|x: u32| #[trigger] words.contains(x) && d[x as int][pl.1 as int] == l;
                        let k = choose|k: int| 0 <= k < words.len() && words[k] == x;
                        assert(d[words[k] as int][pl.1 as int] == l);
                    }
                }
                if work[pl.0].inventory(pl.1).count(l) == 0 {
                    assert(!offers(d, ws[pl.0 as int], pl.1 as int, d[w as int][pos as int]));
                    return false;
                }
            },
            None => {},
        }
        pos = pos + 1;
    }
    true
}

/// The words of slot `li` that the words of the crossing slots support.
fn supported_words(dict: &Dictionary, puzzle: &Puzzle, work: &Vec<LineState>, li: usize) -> (kept: Vec<
    u32,
>)
    requires
        dict.wf(),
        puzzle@.wf(),
        work_wf(dict@, puzzle@, work@),
        li < puzzle@.lines.len(),
    ensures
        ascending(kept@),
        kept@.len() <= work@[li as int]@.words.len(),
        forall|x: u32|
            #[trigger] kept@.contains(x) <==> (work@[li as int]@.words.contains(x) && supported(
                dict@,
                puzzle@,
                words_of(work@),
                li as int,
                x,
            )),
        kept@.len() == work@[li as int]@.words.len() <==> (forall|x: u32|
            #[trigger] work@[li as int]@.words.contains(x) ==> supported(
                dict@,
                puzzle@,
                words_of(work@),
                li as int,
                x,
            )),
{
    let ghost d = dict@;
    let ghost p = puzzle@;
    let ghost ws = words_of(work@);
    let words = work[li].words();
    let mut kept: Vec<u32> = Vec::new();
    let mut k: usize = 0;
    let mut removed: usize = 0;
    while k < words.len()
        invariant
            k <= words@.len(),
            words@ == work@[li as int]@.words,
            d == dict@,
            p == puzzle@,
            ws == words_of(work@),
            dict.wf(),
            p.wf(),
            work_wf(d, p, work@),
            li < p.lines.len(),
            ascending(kept@),
            kept@.len() + removed == k,
            forall|i: int| 0 <= i < kept@.len() ==> exists|j: int| 0 <= j < k && words@[j] == #[trigger] kept@[i],
            forall|j: int|
                0 <= j < k ==> ((#[trigger] kept@.contains(words@[j])) <==> supported(
                    d,
                    p,
                    ws,
                    li as int,
                    words@[j],
                )),
            removed > 0 <==> exists|j: int| 0 <= j < k && !supported(d, p, ws, li as int, #[trigger] words@[j]),
        decreases words@.len() - k,
    {
        let w = words[k];
        let ghost before = kept@;
        assert(fitting(d, p.lines[li as int].len(), words@));
        let keep = is_supported(dict, puzzle, work, li, w);
        if keep {
            kept.push(w);
            proof {
                assert forall|a: int, b: int| 0 <= a < b < kept@.len() implies kept@[a] < kept@[b] by {
                    if b == before.len() {
                        let j = choose|j: int| 0 <= j < k && words@[j] == before[a];
                        assert(words@[j] < words@[k as int]);
                    }
                }
                assert(kept@[before.len() as int] == w);
            }
        } else {
            removed = removed + 1;
        }
        proof {
            assert forall|i: int| 0 <= i < kept@.len() implies exists|j: int|
                0 <= j < k + 1 && words@[j] == #[trigger] kept@[i] by {
                if i < before.len() {
                    let j = choose|j: int| 0 <= j < k && words@[j] == before[i];
                    assert(0 <= j < k + 1 && words@[j] == kept@[i]);
                } else {
                    assert(words@[k as int] == kept@[i]);
                }
            }
            assert forall|j: int| 0 <= j < k + 1 implies ((#[trigger] kept@.contains(words@[j]))
                <==> supported(d, p, ws, li as int, words@[j])) by {
                if j < k {
                    if before.contains(words@[j]) {
                        let i = choose|i: int| 0 <= i < before.len() && before[i] == words@[j];
                        assert(kept@[i] == words@[j]);
                    }
                    if kept@.contains(words@[j]) {
                        let i = choose|i: int| 0 <= i < kept@.len() && kept@[i] == words@[j];
                        if i == before.len() && keep {
                            assert(words@[j] < words@[k as int]);
                        }
                        assert(before[i] == words@[j]);
                    }
                } else {
                    if kept@.contains(words@[j]) && !keep {
                        let i = choose|i: int| 0 <= i < kept@.len() && kept@[i] == words@[j];
                        let j2 = choose|j2: int| 0 <= j2 < k && words@[j2] == before[i];
                        assert(words@[j2] < words@[k as int]);
                    }
                }
            }
            if !keep {
                assert(!supported(d, p, ws, li as int, words@[k as int]));
            }
            if exists|j: int| 0 <= j < k + 1 && !supported(d, p, ws, li as int, #[trigger] words@[j]) {
                let j = choose|j: int|
                    0 <= j < k + 1 && !supported(d, p, ws, li as int, #[trigger] words@[j]);
                if j < k {
                    assert(0 <= j < k && !supported(d, p, ws, li as int, words@[j]));
                }
            }
        }
        k = k + 1;
    }
    proof {
        assert forall|x: u32| #[trigger] kept@.contains(x) <==> (words@.contains(x) && supported(
            d,
            p,
            ws,
            li as int,
            x,
        )) by {
            if kept@.contains(x) {
                let i = choose|i: int| 0 <= i < kept@.len() && kept@[i] == x;
                let j = choose|j: int| 0 <= j < words@.len() && words@[j] == kept@[i];
                assert(kept@.contains(words@[j]));
            }
            if words@.contains(x) && supported(d, p, ws, li as int, x) {
                let j = choose|j: int| 0 <= j < words@.len() && words@[j] == x;
                assert(kept@.contains(words@[j]));
            }
        }
        if forall|x: u32| #[trigger] words@.contains(x) ==> supported(d, p, ws, li as int, x) {
            if removed > 0 {
                let j = choose|j: int|
                    0 <= j < words@.len() && !supported(d, p, ws, li as int, #[trigger] words@[j]);
                assert(words@.contains(words@[j]));
            }
        }
        if removed == 0 {
            assert forall|x: u32| #[trigger] words@.contains(x) implies supported(
                d,
                p,
                ws,
                li as int,
                x,
            ) by {
                let j = choose|j: int| 0 <= j < words@.len() && words@[j] == x;
                assert(supported(d, p, ws, li as int, words@[j]));
            }
        }
    }
    kept
}


/// Every selection of the slots' words `start` in which each word is supported is
/// within `ws`.
spec fn holds_selections(d: Seq<Seq<u8>>, p: PuzzleView, start: Seq<Seq<u32>>, ws: Seq<Seq<u32>>) -> bool {
    forall|g: Seq<Seq<u32>>| #[trigger] within(g, start) && prefiltered(d, p, g) ==> within(g, ws)
}

/// Every word of the slots before `k` is supported.
spec fn settled_before(d: Seq<Seq<u8>>, p: PuzzleView, ws: Seq<Seq<u32>>, k: int) -> bool {
    forall|li: int, x: u32|
        0 <= li < k && #[trigger] ws[li].contains(x) ==> supported(d, p, ws, li, x)
}

/// What the pre-filter leaves of the slots' words: removes the words that are not
/// supported, slot after slot, until none is left to remove. `None` where that leaves
/// a slot without a word.
pub fn settle(dict: &Dictionary, puzzle: &Puzzle, lines: &Vec<LineState>) -> (r: Option<Vec<LineState>>)
    requires
        dict.wf(),
        puzzle@.wf(),
        work_wf(dict@, puzzle@, lines@),
    ensures
        match r {
            Some(work) => {
                &&& work_wf(dict@, puzzle@, work@)
                &&& words_of(work@) == core_words(dict@, puzzle@, words_of(lines@))
                &&& forall|li: int| 0 <= li < work@.len() ==> (#[trigger] work@[li])@.words.len() > 0
            },
            None => exists|li: int|
                0 <= li < puzzle@.lines.len() && (#[trigger] core_words(
                    dict@,
                    puzzle@,
                    words_of(lines@),
                )[li]).len() == 0,
        },
{
    let ghost d = dict@;
    let ghost p = puzzle@;
    let ghost start = words_of(lines@);
    let n = lines.len();
    let mut work: Vec<LineState> = Vec::new();
    let mut li: usize = 0;
    while li < n
        invariant
            li <= n,
            n == lines@.len(),
            n == p.lines.len(),
            d == dict@,
            p == puzzle@,
            dict.wf(),
            work_wf(d, p, lines@),
            work@.len() == li,
            forall|j: int|
                0 <= j < li ==> (#[trigger] work@[j])@ == line_of(
                    d,
                    p.lines[j].len(),
                    lines@[j]@.words,
                ),
        decreases n - li,
    {
        let len = puzzle.lines[li].cell_indices.len();
        assert(fitting(d, p.lines[li as int].len(), lines@[li as int]@.words));
        let line = LineState::with_words(dict, len, copy_words(lines[li].words()));
        work.push(line);
        li = li + 1;
    }
    proof {
        assert(words_of(work@) =~= start);
        assert(all_ascending(start)) by {
            assert forall|j: int| 0 <= j < start.len() implies ascending(#[trigger] start[j]) by {
                assert(fitting(d, p.lines[j].len(), lines@[j]@.words));
            }
        }
        lemma_core(d, p, start);
    }
    loop
        invariant_except_break
            n == p.lines.len(),
            d == dict@,
            p == puzzle@,
            dict.wf(),
            p.wf(),
            start.len() == n,
            start == words_of(lines@),
            all_ascending(start),
            work_wf(d, p, work@),
            within(words_of(work@), start),
            holds_selections(d, p, start, words_of(work@)),
        ensures
            work_wf(d, p, work@),
            within(words_of(work@), start),
            holds_selections(d, p, start, words_of(work@)),
            prefiltered(d, p, words_of(work@)),
            forall|j: int| 0 <= j < work@.len() ==> (#[trigger] work@[j])@.words.len() > 0,
        decreases total_words(words_of(work@)),
    {
        let mut changed = false;
        let ghost round = words_of(work@);
        let mut li: usize = 0;
        while li < n
            invariant
                li <= n,
                n == p.lines.len(),
                d == dict@,
                p == puzzle@,
                dict.wf(),
                p.wf(),
                start.len() == n,
                start == words_of(lines@),
                all_ascending(start),
                work_wf(d, p, work@),
                within(words_of(work@), start),
                holds_selections(d, p, start, words_of(work@)),
                round.len() == n,
                changed ==> total_words(words_of(work@)) < total_words(round),
                !changed ==> words_of(work@) == round && settled_before(
                    d,
                    p,
                    words_of(work@),
                    li as int,
                ),
                forall|j: int| 0 <= j < li ==> (#[trigger] work@[j])@.words.len() > 0,
            decreases n - li,
        {
            let ghost ws = words_of(work@);
            let kept = supported_words(dict, puzzle, &work, li);
            proof {
                assert(ws[li as int] == work@[li as int]@.words);
                assert(fitting(d, p.lines[li as int].len(), ws[li as int]));
                crate::line::lemma_subset_fits(d, p.lines[li as int].len(), ws[li as int], kept@);
            }
            if kept.len() == 0 {
                proof {
                    let core = core_words(d, p, start);
                    lemma_core(d, p, start);
                    assert(within(core, start) && prefiltered(d, p, core));
                    assert(within(core, ws));
                    assert forall|x: u32| !core[li as int].contains(x) by {
                        if core[li as int].contains(x) {
                            assert(supported(d, p, core, li as int, x));
                            lemma_supported_more(d, p, core, ws, li as int, x);
                            assert(ws[li as int].contains(x));
                            assert(kept@.contains(x));
                        }
                    }
                    crate::skip_iter::lemma_no_items(core[li as int]);
                    assert(core_words(d, p, words_of(lines@))[li as int].len() == 0);
                }
                return None;
            }
            if kept.len() < work[li].word_count() {
                let len = puzzle.lines[li].cell_indices.len();
                let ghost kept_words = kept@;
                let line = LineState::with_words(dict, len, kept);
                let ghost before = work@;
                work.set(li, line);
                proof {
                    let now = words_of(work@);
                    assert(now =~= ws.update(li as int, kept_words));
                    lemma_total_update(ws, li as int, kept_words);
                    assert forall|j: int| 0 <= j < work@.len() implies (#[trigger] work@[j])@ == line_of(
                        d,
                        p.lines[j].len(),
                        work@[j]@.words,
                    ) && fitting(d, p.lines[j].len(), work@[j]@.words) by {
                        if j != li {
                            assert(work@[j] == before[j]);
                        }
                    }
                    assert forall|j: int, x: u32|
                        0 <= j < now.len() && #[trigger] now[j].contains(x) implies start[j].contains(
                        x,
                    ) by {
                        assert(ws[j].contains(x));
                    }
                    assert forall|g: Seq<Seq<u32>>| #[trigger]
                        within(g, start) && prefiltered(d, p, g) implies within(g, now) by {
                        assert(within(g, ws));
                        assert forall|j: int, x: u32|
                            0 <= j < g.len() && #[trigger] g[j].contains(x) implies now[j].contains(
                            x,
                        ) by {
                            assert(ws[j].contains(x));
                            if j == li {
                                assert(supported(d, p, g, j, x));
                                lemma_supported_more(d, p, g, ws, j, x);
                                assert(kept_words.contains(x));
                            }
                        }
                    }
                    assert forall|j: int| 0 <= j < li + 1 implies (#[trigger] work@[j])@.words.len()
                        > 0 by {
                        if j < li {
                            assert(work@[j] == before[j]);
                        }
                    }
                }
                changed = true;
            } else if !changed {
                assert(settled_before(d, p, ws, li + 1));
            }
            li = li + 1;
        }
        if !changed {
            proof {
                let ws = words_of(work@);
                assert forall|j: int, x: u32|
                    0 <= j < ws.len() && #[trigger] ws[j].contains(x) implies supported(
                    d,
                    p,
                    ws,
                    j,
                    x,
                ) by {
                }
            }
            break ;
        }
    }
    proof {
        let ws = words_of(work@);
        assert(all_ascending(ws)) by {
            assert forall|j: int| 0 <= j < ws.len() implies ascending(#[trigger] ws[j]) by {
                assert(fitting(d, p.lines[j].len(), work@[j]@.words));
            }
        }
        lemma_core_unique(d, p, start, ws);
    }
    Some(work)
}


/// Number of words that the slots have, all in all.
pub fn count_words(lines: &Vec<LineState>) -> (total: u128)
    ensures
        total == total_words(words_of(lines@)),
{
    let ghost ws = words_of(lines@);
    let mut total: u128 = 0;
    let mut li: usize = 0;
    while li < lines.len()
        invariant
            li <= lines@.len(),
            ws == words_of(lines@),
            total == total_words(ws.take(li as int)),
            total <= li * 0xFFFF_FFFF_FFFF_FFFF,
        decreases lines@.len() - li,
    {
        let count = lines[li].word_count();
        proof {
            lemma_total_take(ws, li as int);
            assert(li * 0xFFFF_FFFF_FFFF_FFFF + 0xFFFF_FFFF_FFFF_FFFF == (li + 1)
                * 0xFFFF_FFFF_FFFF_FFFF) by (nonlinear_arith);
            assert((li + 1) * 0xFFFF_FFFF_FFFF_FFFF <= 0xFFFF_FFFF_FFFF_FFFF
                * 0xFFFF_FFFF_FFFF_FFFF) by (nonlinear_arith)
                requires
                    li + 1 <= 0xFFFF_FFFF_FFFF_FFFF,
            ;
        }
        total = total + count as u128;
        li = li + 1;
    }
    assert(ws.take(ws.len() as int) =~= ws);
    total
}


} // verus!
