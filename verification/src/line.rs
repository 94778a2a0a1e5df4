//! The state of one slot: the words that still fit it, and the letters they
//! offer at each of its positions.

use crate::dictionary::{valid_dictionary, valid_word, Dictionary};
use crate::letters::{sum_below, LetterInventory};
use crate::skip_iter::{
    and, ascending, common, diff, leaf, lemma_common, lemma_without, without, SkipIterator,
};
use vstd::prelude::*;

verus! {

/// How many of the words `words` of `d` have letter `l` at position `p`.
pub open spec fn occurrences(d: Seq<Seq<u8>>, words: Seq<u32>, p: int, l: u8) -> nat
    decreases words.len(),
{
    if words.len() == 0 {
        0
    } else {
        occurrences(d, words.drop_last(), p, l) + if d[words.last() as int][p] == l {
            1nat
        } else {
            0nat
        }
    }
}

/// The letter histogram of the words `words` of `d` at position `p`.
pub open spec fn histogram(d: Seq<Seq<u8>>, words: Seq<u32>, p: int) -> Seq<u64> {
    Seq::new(26, |l: int| occurrences(d, words, p, l as u8) as u64)
}

/// No letter occurs more often than there are words.
pub proof fn lemma_occurrences_bound(d: Seq<Seq<u8>>, words: Seq<u32>, p: int, l: u8)
    ensures
        occurrences(d, words, p, l) <= words.len(),
    decreases words.len(),
{
    if words.len() > 0 {
        lemma_occurrences_bound(d, words.drop_last(), p, l);
    }
}

/// A letter occurs at a position exactly when one of the words has it there.
pub proof fn lemma_occurrences_positive(d: Seq<Seq<u8>>, words: Seq<u32>, p: int, l: u8)
    ensures
        occurrences(d, words, p, l) > 0 <==> exists|k: int|
            0 <= k < words.len() && d[#[trigger] words[k] as int][p] == l,
    decreases words.len(),
{
    if words.len() > 0 {
        let sub = words.drop_last();
        lemma_occurrences_positive(d, sub, p, l);
        if occurrences(d, words, p, l) > 0 {
            if d[words.last() as int][p] == l {
                assert(d[words[words.len() - 1] as int][p] == l);
            } else {
                let k = choose|k: int| 0 <= k < sub.len() && d[#[trigger] sub[k] as int][p] == l;
                assert(d[words[k] as int][p] == l);
            }
        }
        if exists|k: int| 0 <= k < words.len() && d[#[trigger] words[k] as int][p] == l {
            let k = choose|k: int| 0 <= k < words.len() && d[#[trigger] words[k] as int][p] == l;
            if k < sub.len() {
                assert(d[sub[k] as int][p] == l);
            }
        }
    }
}

/// The sum of the counts of the letters below `n`, as occurrences.
pub open spec fn occurrences_below(d: Seq<Seq<u8>>, words: Seq<u32>, p: int, n: nat) -> nat
    decreases n,
{
    if n == 0 {
        0
    } else {
        occurrences_below(d, words, p, (n - 1) as nat) + occurrences(d, words, p, (n - 1) as u8)
    }
}

proof fn lemma_occurrences_below_step(d: Seq<Seq<u8>>, words: Seq<u32>, p: int, n: nat)
    requires
        words.len() > 0,
        n <= 26,
    ensures
        occurrences_below(d, words, p, n) == occurrences_below(d, words.drop_last(), p, n) + if d[words.last() as int][p]
            < n {
            1nat
        } else {
            0nat
        },
    decreases n,
{
    if n > 0 {
        lemma_occurrences_below_step(d, words, p, (n - 1) as nat);
    }
}

proof fn lemma_occurrences_below_total(d: Seq<Seq<u8>>, words: Seq<u32>, p: int)
    requires
        forall|k: int| 0 <= k < words.len() ==> d[#[trigger] words[k] as int][p] < 26,
    ensures
        occurrences_below(d, words, p, 26) == words.len(),
    decreases words.len(),
{
    if words.len() == 0 {
        lemma_occurrences_below_empty(d, words, p, 26);
    } else {
        let sub = words.drop_last();
        assert forall|k: int| 0 <= k < sub.len() implies d[#[trigger] sub[k] as int][p] < 26 by {
            assert(sub[k] == words[k]);
        }
        lemma_occurrences_below_total(d, sub, p);
        lemma_occurrences_below_step(d, words, p, 26);
        assert(d[words[words.len() - 1] as int][p] < 26);
    }
}

proof fn lemma_occurrences_below_empty(d: Seq<Seq<u8>>, words: Seq<u32>, p: int, n: nat)
    requires
        words.len() == 0,
    ensures
        occurrences_below(d, words, p, n) == 0,
    decreases n,
{
    if n > 0 {
        lemma_occurrences_below_empty(d, words, p, (n - 1) as nat);
    }
}

proof fn lemma_histogram_sum(d: Seq<Seq<u8>>, words: Seq<u32>, p: int, n: nat)
    requires
        n <= 26,
        words.len() <= u64::MAX,
    ensures
        sum_below(histogram(d, words, p), n) == occurrences_below(d, words, p, n),
    decreases n,
{
    if n > 0 {
        lemma_histogram_sum(d, words, p, (n - 1) as nat);
        lemma_occurrences_bound(d, words, p, (n - 1) as u8);
    }
}

/// The counts of a histogram add up to the number of words.
pub proof fn lemma_histogram_total(d: Seq<Seq<u8>>, words: Seq<u32>, p: int)
    requires
        words.len() <= u64::MAX,
        forall|k: int| 0 <= k < words.len() ==> d[#[trigger] words[k] as int][p] < 26,
    ensures
        sum_below(histogram(d, words, p), 26) == words.len(),
{
    lemma_histogram_sum(d, words, p, 26);
    lemma_occurrences_below_total(d, words, p);
}

/// What a slot's state shows.
pub struct LineView {
    /// The ids of the words that still fit, ascending.
    pub words: Seq<u32>,
    /// For each position, the letter histogram of those words.
    pub inventories: Seq<Seq<u64>>,
    /// The word that the slot holds, once a single one is left.
    pub claimed_word: Option<u32>,
}

/// The state of a slot of length `len` whose fitting words are `words`.
pub open spec fn line_of(d: Seq<Seq<u8>>, len: nat, words: Seq<u32>) -> LineView {
    LineView {
        words,
        inventories: Seq::new(len, |p: int| histogram(d, words, p)),
        claimed_word: if words.len() == 1 {
            Some(words[0])
        } else {
            None
        },
    }
}

/// `words` are strictly ascending ids of words of `d` of length `len`.
pub open spec fn fitting(d: Seq<Seq<u8>>, len: nat, words: Seq<u32>) -> bool {
    &&& ascending(words)
    &&& forall|k: int|
        0 <= k < words.len() ==> (#[trigger] words[k]) < d.len() && d[words[k] as int].len() == len
}

/// A slot's state is consistent: its words fit, and the rest is derived from them.
pub open spec fn line_wf(d: Seq<Seq<u8>>, len: nat, v: LineView) -> bool {
    fitting(d, len, v.words) && v == line_of(d, len, v.words)
}

/// The slot's own claimed word, as a list of at most one id.
pub open spec fn own_ids(own: Option<u32>) -> Seq<u32> {
    match own {
        Some(id) => seq![id],
        None => Seq::empty(),
    }
}

/// The words left to a slot once a letter is fixed: those of `words` that are in
/// `filter_ids` and that no other slot has claimed.
pub open spec fn constrained_words(
    words: Seq<u32>,
    filter_ids: Seq<u32>,
    claimed_ids: Seq<u32>,
    own: Option<u32>,
) -> Seq<u32> {
    without(common(words, filter_ids), without(claimed_ids, own_ids(own)))
}

/// The constrained words are strictly ascending, and are exactly the words that are in
/// the filter and not claimed by another slot.
pub proof fn lemma_constrained_words(
    words: Seq<u32>,
    filter_ids: Seq<u32>,
    claimed_ids: Seq<u32>,
    own: Option<u32>,
)
    requires
        ascending(words),
        ascending(claimed_ids),
    ensures
        ascending(constrained_words(words, filter_ids, claimed_ids, own)),
        forall|x: u32| #[trigger]
            constrained_words(words, filter_ids, claimed_ids, own).contains(x) <==> (
            words.contains(x) && filter_ids.contains(x) && !(claimed_ids.contains(x) && Some(x)
                != own)),
{
    lemma_common(words, filter_ids);
    lemma_without(claimed_ids, own_ids(own));
    lemma_without(common(words, filter_ids), without(claimed_ids, own_ids(own)));
    assert forall|x: u32| own_ids(own).contains(x) <==> Some(x) == own by {
        if Some(x) == own {
            assert(own_ids(own)[0] == x);
        }
    }
}

/// How constraining a slot ended.
#[derive(Clone, Copy, Debug, PartialEq, Eq)]
pub enum ConstrainResult {
    /// No word is left.
    Failed,
    /// A single word is left, and more were there before.
    Unique(u32),
    /// Neither: several words are left, or the single word that was there before.
    Narrowed,
}

/// How constraining a slot that had `before` words, and has `after` now, ends.
pub open spec fn constrain_result(before: Seq<u32>, after: Seq<u32>) -> ConstrainResult {
    if after.len() == 0 {
        ConstrainResult::Failed
    } else if after.len() == 1 && before.len() != 1 {
        ConstrainResult::Unique(after[0])
    } else {
        ConstrainResult::Narrowed
    }
}

/// The state of one slot.
pub struct LineState {
    /// The ids of the words that still fit, ascending.
    words: Vec<u32>,
    /// For each position, the letter histogram of those words.
    inventories: Vec<LetterInventory>,
    /// The word that the slot holds, once a single one is left.
    claimed_word: Option<u32>,
}

impl View for LineState {
    type V = LineView;

    closed spec fn view(&self) -> LineView {
        LineView {
            words: self.words@,
            inventories: Seq::new(self.inventories@.len(), |p: int| self.inventories@[p]@),
            claimed_word: self.claimed_word,
        }
    }
}

impl LineState {
    /// The state of a slot of length `len` whose fitting words are `words`.
    fn build(dict: &Dictionary, len: usize, words: Vec<u32>) -> (r: LineState)
        requires
            dict.wf(),
            fitting(dict@, len as nat, words@),
        ensures
            r@ == line_of(dict@, len as nat, words@),
    {
        let ghost d = dict@;
        proof {
            dict.lemma_valid();
        }
        let mut inventories: Vec<LetterInventory> = Vec::new();
        let mut p: usize = 0;
        while p < len
            invariant
                p <= len,
                inventories@.len() == p,
                forall|q: int| 0 <= q < p ==> (#[trigger] inventories@[q])@ == histogram(
                    d,
                    Seq::<u32>::empty(),
                    q,
                ),
            decreases len - p,
        {
            let inv = LetterInventory::new();
            assert(inv@ =~= histogram(d, Seq::<u32>::empty(), p as int));
            inventories.push(inv);
            p = p + 1;
        }
        let mut k: usize = 0;
        while k < words.len()
            invariant
                k <= words.len(),
                d == dict@,
                valid_dictionary(d),
                fitting(d, len as nat, words@),
                inventories@.len() == len,
                forall|q: int| 0 <= q < len ==> (#[trigger] inventories@[q])@ == histogram(
                    d,
                    words@.take(k as int),
                    q,
                ),
            decreases words.len() - k,
        {
            let id = words[k];
            let ghost done = words@.take(k as int);
            let ghost next = words@.take(k + 1);
            proof {
                assert(next.drop_last() =~= done);
                assert(next.last() == id);
                assert(valid_word(d[id as int]));
            }
            let mut q: usize = 0;
            while q < len
                invariant
                    q <= len,
                    k < words.len(),
                    id == words@[k as int],
                    id < d.len(),
                    d[id as int].len() == len,
                    valid_word(d[id as int]),
                    d == dict@,
                    done == words@.take(k as int),
                    next == words@.take(k + 1),
                    next.drop_last() == done,
                    next.last() == id,
                    inventories@.len() == len,
                    forall|r: int| 0 <= r < q ==> (#[trigger] inventories@[r])@ == histogram(d, next, r),
                    forall|r: int| q <= r < len ==> (#[trigger] inventories@[r])@ == histogram(d, done, r),
                decreases len - q,
            {
                let l = dict.letter_at(id, q);
                let ghost before = inventories@;
                proof {
                    lemma_occurrences_bound(d, done, q as int, l);
                    assert(before[q as int]@[l as int] == occurrences(d, done, q as int, l) as u64);
                }
                inventories[q].add(l);
                proof {
                    assert(inventories@[q as int]@ =~= histogram(d, next, q as int)) by {
                        assert forall|m: int| 0 <= m < 26 implies inventories@[q as int]@[m]
                            == histogram(d, next, q as int)[m] by {
                            lemma_occurrences_bound(d, done, q as int, m as u8);
                            assert(before[q as int]@[m] == occurrences(d, done, q as int, m as u8) as u64);
                        }
                    }
                    assert forall|r: int| 0 <= r < q implies (#[trigger] inventories@[r])@
                        == histogram(d, next, r) by {
                        assert(inventories@[r] == before[r]);
                    }
                    assert forall|r: int| q + 1 <= r < len implies (#[trigger] inventories@[r])@
                        == histogram(d, done, r) by {
                        assert(inventories@[r] == before[r]);
                    }
                }
                q = q + 1;
            }
            k = k + 1;
        }
        let claimed_word = if words.len() == 1 {
            Some(words[0])
        } else {
            None
        };
        let ghost all = words@;
        let r = LineState { words, inventories, claimed_word };
        proof {
            assert(all.take(all.len() as int) =~= all);
            assert(r@.inventories =~= line_of(d, len as nat, all).inventories);
        }
        r
    }

    /// The state of a slot of length `len` that no letter constrains yet: of the
    /// `candidates`, the words that no slot has claimed.
    pub fn initial(dict: &Dictionary, len: usize, candidates: &Vec<u32>, claimed_ids: &Vec<u32>) -> (r:
        LineState)
        requires
            dict.wf(),
            fitting(dict@, len as nat, candidates@),
            ascending(claimed_ids@),
        ensures
            r@ == line_of(dict@, len as nat, without(candidates@, claimed_ids@)),
            line_wf(dict@, len as nat, r@),
    {
        let words = diff(leaf(candidates.as_slice()), leaf(claimed_ids.as_slice())).collect();
        proof {
            lemma_without(candidates@, claimed_ids@);
            lemma_subset_fits(dict@, len as nat, candidates@, words@);
        }
        Self::build(dict, len, words)
    }

    /// The state of a slot of length `len` whose fitting words are `words`.
    pub fn with_words(dict: &Dictionary, len: usize, words: Vec<u32>) -> (r: LineState)
        requires
            dict.wf(),
            fitting(dict@, len as nat, words@),
        ensures
            r@ == line_of(dict@, len as nat, words@),
            line_wf(dict@, len as nat, r@),
    {
        Self::build(dict, len, words)
    }

    /// The slot's length.
    pub fn len(&self) -> (n: usize)
        ensures
            n == self@.inventories.len(),
    {
        self.inventories.len()
    }

    /// The ids of the words that still fit, ascending.
    pub fn words(&self) -> (w: &Vec<u32>)
        ensures
            w@ == self@.words,
    {
        &self.words
    }

    /// How many words still fit.
    pub fn word_count(&self) -> (n: usize)
        ensures
            n == self@.words.len(),
    {
        self.words.len()
    }

    /// The letter histogram at position `p`.
    pub fn inventory(&self, p: usize) -> (inv: &LetterInventory)
        requires
            p < self@.inventories.len(),
        ensures
            inv@ == self@.inventories[p as int],
    {
        &self.inventories[p]
    }

    /// The word that the slot holds, once a single one is left.
    pub fn claimed_word(&self) -> (w: Option<u32>)
        ensures
            w == self@.claimed_word,
    {
        self.claimed_word
    }

    /// The slot's state once a letter is fixed, and how that ended. `filter_ids` lists
    /// the words with that letter in place, `claimed_ids` the words that are in use.
    pub fn constrained(
        &self,
        dict: &Dictionary,
        filter_ids: &Vec<u32>,
        claimed_ids: &Vec<u32>,
    ) -> (r: (LineState, ConstrainResult))
        requires
            dict.wf(),
            line_wf(dict@, self@.inventories.len(), self@),
            ascending(filter_ids@),
            ascending(claimed_ids@),
        ensures
            r.0@ == line_of(
                dict@,
                self@.inventories.len(),
                constrained_words(self@.words, filter_ids@, claimed_ids@, self@.claimed_word),
            ),
            line_wf(dict@, self@.inventories.len(), r.0@),
            r.1 == constrain_result(self@.words, r.0@.words),
    {
        let own = self.claimed_word;
        let mut own_list: Vec<u32> = Vec::new();
        match own {
            Some(id) => {
                own_list.push(id);
            },
            None => {},
        }
        assert(own_list@ =~= own_ids(own));
        let others = diff(leaf(claimed_ids.as_slice()), leaf(own_list.as_slice()));
        let words = diff(and(leaf(self.words.as_slice()), leaf(filter_ids.as_slice())), others).collect();
        proof {
            lemma_constrained_words(self@.words, filter_ids@, claimed_ids@, own);
            lemma_subset_fits(dict@, self@.inventories.len(), self@.words, words@);
        }
        let result = if words.len() == 0 {
            ConstrainResult::Failed
        } else if words.len() == 1 && self.words.len() != 1 {
            ConstrainResult::Unique(words[0])
        } else {
            ConstrainResult::Narrowed
        };
        let len = self.inventories.len();
        (Self::build(dict, len, words), result)
    }

    /// Fixes a letter: keeps the words that are in `filter_ids` and that no other slot
    /// has claimed, and says how that ended.
    pub fn constrain(&mut self, dict: &Dictionary, filter_ids: &Vec<u32>, claimed_ids: &Vec<u32>) -> (r:
        ConstrainResult)
        requires
            dict.wf(),
            line_wf(dict@, old(self)@.inventories.len(), old(self)@),
            ascending(filter_ids@),
            ascending(claimed_ids@),
        ensures
            final(self)@ == line_of(
                dict@,
                old(self)@.inventories.len(),
                constrained_words(old(self)@.words, filter_ids@, claimed_ids@, old(self)@.claimed_word),
            ),
            line_wf(dict@, old(self)@.inventories.len(), final(self)@),
            r == constrain_result(old(self)@.words, final(self)@.words),
    {
        let (next, result) = self.constrained(dict, filter_ids, claimed_ids);
        *self = next;
        result
    }
}

/// A strictly ascending selection of words that fit a slot fits it too.
pub proof fn lemma_subset_fits(d: Seq<Seq<u8>>, len: nat, words: Seq<u32>, sub: Seq<u32>)
    requires
        fitting(d, len, words),
        ascending(sub),
        forall|x: u32| sub.contains(x) ==> words.contains(x),
    ensures
        fitting(d, len, sub),
{
    assert forall|k: int| 0 <= k < sub.len() implies (#[trigger] sub[k]) < d.len() && d[sub[k] as int].len()
        == len by {
        assert(sub.contains(sub[k]));
        let a = choose|a: int| 0 <= a < words.len() && words[a] == sub[k];
        assert(words[a] < d.len());
    }
}

} // verus!
