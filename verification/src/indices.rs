//! Posting lists over a dictionary: the ids of its words by length and by
//! (length, position, letter), and the registry of words that are in use.

use crate::dictionary::{valid_dictionary, valid_word, Dictionary};
use crate::skip_iter::{ascending, lemma_ascending_unique, lemma_filter_ascending};
use vstd::prelude::*;

verus! {

/// The ids below `n` of the words of `d` that meet `pred`, in ascending order.
pub open spec fn matching(d: Seq<Seq<u8>>, n: nat, pred: spec_fn(Seq<u8>) -> bool) -> Seq<u32>
    decreases n,
{
    if n == 0 {
        Seq::empty()
    } else if pred(d[n - 1]) {
        matching(d, (n - 1) as nat, pred).push((n - 1) as u32)
    } else {
        matching(d, (n - 1) as nat, pred)
    }
}

/// The words of length `len`.
pub open spec fn has_length(len: nat) -> spec_fn(Seq<u8>) -> bool {
    |w: Seq<u8>| w.len() == len
}

/// The words of length `len` with letter `l` at position `p`.
pub open spec fn has_letter(len: nat, p: int, l: u8) -> spec_fn(Seq<u8>) -> bool {
    |w: Seq<u8>| w.len() == len && w[p] == l
}

/// The ids of the words of length `len`, ascending.
pub open spec fn ids_of_length(d: Seq<Seq<u8>>, len: nat) -> Seq<u32> {
    matching(d, d.len(), has_length(len))
}

/// The ids of the words of length `len` with letter `l` at position `p`, ascending.
pub open spec fn posting(d: Seq<Seq<u8>>, len: nat, p: int, l: u8) -> Seq<u32> {
    matching(d, d.len(), has_letter(len, p, l))
}

/// The length of the longest word among the first `n`.
pub open spec fn longest(d: Seq<Seq<u8>>, n: nat) -> nat
    decreases n,
{
    if n == 0 {
        0
    } else if d[n - 1].len() > longest(d, (n - 1) as nat) {
        d[n - 1].len()
    } else {
        longest(d, (n - 1) as nat)
    }
}

/// No word among the first `n` is longer than `longest`.
pub proof fn lemma_longest(d: Seq<Seq<u8>>, n: nat, i: int)
    requires
        0 <= i < n,
    ensures
        d[i].len() <= longest(d, n),
    decreases n,
{
    if i < n - 1 {
        lemma_longest(d, (n - 1) as nat, i);
    }
}

/// A list of matching ids is strictly ascending and holds exactly the ids below `n`
/// whose word meets the predicate.
pub proof fn lemma_matching(d: Seq<Seq<u8>>, n: nat, pred: spec_fn(Seq<u8>) -> bool)
    requires
        n <= u32::MAX,
    ensures
        ascending(matching(d, n, pred)),
        matching(d, n, pred).len() <= n,
        forall|x: u32| #[trigger] matching(d, n, pred).contains(x) <==> (x < n && pred(d[x as int])),
    decreases n,
{
    if n > 0 {
        let m = (n - 1) as nat;
        let sub = matching(d, m, pred);
        let out = matching(d, n, pred);
        lemma_matching(d, m, pred);
        if pred(d[n - 1]) {
            assert forall|i: int, j: int| 0 <= i < j < out.len() implies out[i] < out[j] by {
                assert(out[i] == sub[i]);
                assert(sub.contains(sub[i]));
                if j < sub.len() {
                    assert(out[j] == sub[j]);
                }
            }
            assert forall|x: u32| #[trigger] out.contains(x) <==> (x < n && pred(d[x as int])) by {
                if out.contains(x) {
                    let a = choose|a: int| 0 <= a < out.len() && out[a] == x;
                    if a < sub.len() {
                        assert(sub[a] == x);
                        assert(sub.contains(x));
                    }
                }
                if x < n && pred(d[x as int]) {
                    if x == m {
                        assert(out[out.len() - 1] == x);
                    } else {
                        assert(sub.contains(x));
                        let a = choose|a: int| 0 <= a < sub.len() && sub[a] == x;
                        assert(out[a] == x);
                    }
                }
            }
        }
    }
}

/// The ids below `id`.
pub open spec fn below(id: u32) -> spec_fn(u32) -> bool {
    |x: u32| x < id
}

/// The ids above `id`.
pub open spec fn above(id: u32) -> spec_fn(u32) -> bool {
    |x: u32| x > id
}

/// The ids other than `id`.
pub open spec fn other_than(id: u32) -> spec_fn(u32) -> bool {
    |x: u32| x != id
}

/// `s` with `id` put in at its place in the order.
#[verifier::opaque]
pub open spec fn with_id(s: Seq<u32>, id: u32) -> Seq<u32> {
    s.filter(below(id)).push(id) + s.filter(above(id))
}

/// `s` with `id` taken out.
#[verifier::opaque]
pub open spec fn without_id(s: Seq<u32>, id: u32) -> Seq<u32> {
    s.filter(other_than(id))
}

/// Putting an id into a strictly ascending list keeps it so and adds just that id.
pub proof fn lemma_with_id(s: Seq<u32>, id: u32)
    requires
        ascending(s),
    ensures
        ascending(with_id(s, id)),
        forall|x: u32| #[trigger] with_id(s, id).contains(x) <==> (x == id || s.contains(x)),
{
    reveal(with_id);
    let lo = s.filter(below(id));
    let hi = s.filter(above(id));
    let out = with_id(s, id);
    lemma_filter_ascending(s, below(id));
    lemma_filter_ascending(s, above(id));
    assert forall|i: int, j: int| 0 <= i < j < out.len() implies out[i] < out[j] by {
        if i < lo.len() {
            assert(lo.contains(lo[i]));
        }
        if j < lo.len() {
            assert(lo.contains(lo[j]));
        }
        if i > lo.len() {
            assert(hi.contains(hi[i - lo.len() - 1]));
        }
        if j > lo.len() {
            assert(hi.contains(hi[j - lo.len() - 1]));
        }
    }
    assert forall|x: u32| #[trigger] out.contains(x) <==> (x == id || s.contains(x)) by {
        if out.contains(x) {
            let a = choose|a: int| 0 <= a < out.len() && out[a] == x;
            if a < lo.len() {
                assert(lo.contains(lo[a]));
            } else if a > lo.len() {
                assert(hi.contains(hi[a - lo.len() - 1]));
            }
        }
        if x == id {
            assert(out[lo.len() as int] == x);
        } else if s.contains(x) {
            if x < id {
                assert(lo.contains(x));
                let a = choose|a: int| 0 <= a < lo.len() && lo[a] == x;
                assert(out[a] == x);
            } else {
                assert(hi.contains(x));
                let a = choose|a: int| 0 <= a < hi.len() && hi[a] == x;
                assert(out[lo.len() + 1 + a] == x);
            }
        }
    }
}

/// Taking an id out of a strictly ascending list keeps it so and removes just that id.
pub proof fn lemma_without_id(s: Seq<u32>, id: u32)
    requires
        ascending(s),
    ensures
        ascending(without_id(s, id)),
        forall|x: u32| #[trigger] without_id(s, id).contains(x) <==> (x != id && s.contains(x)),
{
    reveal(without_id);
    lemma_filter_ascending(s, other_than(id));
}

/// Taking out an id that was put into a list that lacked it gives the list back.
pub proof fn lemma_with_then_without(s: Seq<u32>, id: u32)
    requires
        ascending(s),
        !s.contains(id),
    ensures
        without_id(with_id(s, id), id) == s,
{
    lemma_with_id(s, id);
    lemma_without_id(with_id(s, id), id);
    lemma_ascending_unique(without_id(with_id(s, id), id), s);
}

/// In a strictly ascending list, the position before which every item is below `id`
/// and from which on every item is at least `id`.
fn lower_bound(v: &Vec<u32>, id: u32) -> (pos: usize)
    requires
        ascending(v@),
    ensures
        pos <= v@.len(),
        forall|j: int| 0 <= j < pos ==> v@[j] < id,
        forall|j: int| pos <= j < v@.len() ==> v@[j] >= id,
{
    let mut lo: usize = 0;
    let mut hi: usize = v.len();
    while lo < hi
        invariant
            lo <= hi <= v@.len(),
            ascending(v@),
            forall|j: int| 0 <= j < lo ==> v@[j] < id,
            forall|j: int| hi <= j < v@.len() ==> v@[j] >= id,
        decreases hi - lo,
    {
        let mid = lo + (hi - lo) / 2;
        if v[mid] < id {
            lo = mid + 1;
        } else {
            hi = mid;
        }
    }
    lo
}

/// One list for each letter at each position of each word length up to `max`.
spec fn shaped(b: Seq<Vec<Vec<Vec<u32>>>>, max: int) -> bool {
    &&& b.len() == max + 1
    &&& forall|len: int| 0 <= len <= max ==> (#[trigger] b[len])@.len() == len
    &&& forall|len: int, p: int|
        0 <= len <= max && 0 <= p < len ==> (#[trigger] b[len]@[p])@.len() == 26
}

/// Appends `id` to the list for (`len`, `p`, `l`) and leaves the other lists as they were.
fn push_posting(b: &mut Vec<Vec<Vec<Vec<u32>>>>, len: usize, p: usize, l: u8, id: u32)
    requires
        shaped(old(b)@, old(b)@.len() - 1),
        len < old(b)@.len(),
        p < len,
        l < 26,
    ensures
        shaped(final(b)@, old(b)@.len() - 1),
        final(b)@[len as int]@[p as int]@[l as int]@ == old(b)@[len as int]@[p as int]@[l as int]@.push(
            id,
        ),
        forall|len2: int, p2: int, l2: int|
            0 <= len2 < old(b)@.len() && 0 <= p2 < len2 && 0 <= l2 < 26 && !(len2 == len && p2 == p
                && l2 == l) ==> (#[trigger] final(b)@[len2]@[p2]@[l2])@ == old(b)@[len2]@[p2]@[l2]@,
{
    b[len][p][l as usize].push(id);
}

/// The posting lists of a dictionary, and the registry of claimed words.
pub struct WordIndices {
    /// By word length: the ids of the words of that length.
    by_length: Vec<Vec<u32>>,
    /// By word length, position and letter: the ids of the words of that length with
    /// that letter at that position.
    by_length_pos_letter: Vec<Vec<Vec<Vec<u32>>>>,
    /// By word length: the ids of the words of that length that are in use.
    claimed: Vec<Vec<u32>>,
    /// The dictionary that the lists were built from.
    dict: Ghost<Seq<Seq<u8>>>,
}

impl WordIndices {
    /// The dictionary that the lists were built from.
    pub closed spec fn dict(&self) -> Seq<Seq<u8>> {
        self.dict@
    }

    /// The length of the longest word.
    pub closed spec fn spec_max_len(&self) -> nat {
        (self.by_length@.len() - 1) as nat
    }

    /// The claimed ids, by word length.
    pub closed spec fn claimed_view(&self) -> Seq<Seq<u32>> {
        Seq::new(self.claimed@.len(), |i: int| self.claimed@[i]@)
    }

    /// The lists are those of the dictionary, and each claimed id is a word of its length.
    pub closed spec fn wf(&self) -> bool {
        let d = self.dict@;
        let max = self.by_length@.len() - 1;
        &&& valid_dictionary(d)
        &&& max == longest(d, d.len())
        &&& self.by_length_pos_letter@.len() == max + 1
        &&& self.claimed@.len() == max + 1
        &&& forall|len: int| 0 <= len <= max ==> (#[trigger] self.by_length@[len])@ == ids_of_length(
            d,
            len as nat,
        )
        &&& forall|len: int|
            0 <= len <= max ==> (#[trigger] self.by_length_pos_letter@[len])@.len() == len
        &&& forall|len: int, p: int|
            0 <= len <= max && 0 <= p < len ==> (#[trigger] self.by_length_pos_letter@[len]@[p])@.len()
                == 26
        &&& forall|len: int, p: int, l: int|
            0 <= len <= max && 0 <= p < len && 0 <= l < 26 ==> (
            #[trigger] self.by_length_pos_letter@[len]@[p]@[l])@ == posting(d, len as nat, p, l as u8)
        &&& forall|len: int| 0 <= len <= max ==> ascending(#[trigger] self.claimed_view()[len])
        &&& forall|len: int, x: u32|
            0 <= len <= max && #[trigger] self.claimed_view()[len].contains(x) ==> x < d.len()
                && d[x as int].len() == len
    }

    /// What a consistent index holds.
    pub proof fn lemma_wf(&self)
        requires
            self.wf(),
        ensures
            valid_dictionary(self.dict()),
            self.spec_max_len() == longest(self.dict(), self.dict().len()),
            self.claimed_view().len() == self.spec_max_len() + 1,
            forall|len: int|
                0 <= len <= self.spec_max_len() ==> ascending(#[trigger] self.claimed_view()[len]),
            forall|len: int, x: u32|
                0 <= len <= self.spec_max_len() && #[trigger] self.claimed_view()[len].contains(x)
                    ==> x < self.dict().len() && self.dict()[x as int].len() == len,
    {
    }

    /// Builds the posting lists of `dict`. No word is claimed.
    pub fn new(dict: &Dictionary) -> (r: WordIndices)
        requires
            dict.wf(),
        ensures
            r.wf(),
            r.dict() == dict@,
            forall|len: int|
                0 <= len <= r.spec_max_len() ==> #[trigger] r.claimed_view()[len]
                    == Seq::<u32>::empty(),
    {
        let ghost d = dict@;
        proof {
            dict.lemma_valid();
        }
        let n = dict.len();
        let mut max: usize = 0;
        let mut i: usize = 0;
        while i < n
            invariant
                i <= n,
                n == d.len(),
                d == dict@,
                n <= u32::MAX,
                max == longest(d, i as nat),
            decreases n - i,
        {
            let wl = dict.word_len(i as u32);
            if wl > max {
                max = wl;
            }
            i = i + 1;
        }
        let mut by_length: Vec<Vec<u32>> = Vec::new();
        let mut postings: Vec<Vec<Vec<Vec<u32>>>> = Vec::new();
        let mut claimed: Vec<Vec<u32>> = Vec::new();
        let mut len: usize = 0;
        loop
            invariant_except_break
                len <= max,
                by_length@.len() == len,
                claimed@.len() == len,
                postings@.len() == len,
                forall|k: int| 0 <= k < len ==> (#[trigger] by_length@[k])@.len() == 0,
                forall|k: int| 0 <= k < len ==> (#[trigger] claimed@[k])@.len() == 0,
                forall|k: int| 0 <= k < len ==> (#[trigger] postings@[k])@.len() == k,
                forall|k: int, p: int|
                    0 <= k < len && 0 <= p < k ==> (#[trigger] postings@[k]@[p])@.len() == 26,
                forall|k: int, p: int, l: int|
                    0 <= k < len && 0 <= p < k && 0 <= l < 26 ==> (
                    #[trigger] postings@[k]@[p]@[l])@.len() == 0,
            ensures
                by_length@.len() == max + 1,
                claimed@.len() == max + 1,
                shaped(postings@, max as int),
                forall|k: int| 0 <= k <= max ==> (#[trigger] by_length@[k])@.len() == 0,
                forall|k: int| 0 <= k <= max ==> (#[trigger] claimed@[k])@.len() == 0,
                forall|k: int, p: int, l: int|
                    0 <= k <= max && 0 <= p < k && 0 <= l < 26 ==> (
                    #[trigger] postings@[k]@[p]@[l])@.len() == 0,
            decreases max - len,
        {
            by_length.push(Vec::new());
            claimed.push(Vec::new());
            let mut positions: Vec<Vec<Vec<u32>>> = Vec::new();
            let mut p: usize = 0;
            while p < len
                invariant
                    p <= len,
                    positions@.len() == p,
                    forall|q: int| 0 <= q < p ==> (#[trigger] positions@[q])@.len() == 26,
                    forall|q: int, l: int|
                        0 <= q < p && 0 <= l < 26 ==> (#[trigger] positions@[q]@[l])@.len() == 0,
                decreases len - p,
            {
                let mut letters: Vec<Vec<u32>> = Vec::new();
                let mut l: usize = 0;
                while l < 26
                    invariant
                        l <= 26,
                        letters@.len() == l,
                        forall|m: int| 0 <= m < l ==> (#[trigger] letters@[m])@.len() == 0,
                    decreases 26 - l,
                {
                    letters.push(Vec::new());
                    l = l + 1;
                }
                positions.push(letters);
                p = p + 1;
            }
            postings.push(positions);
            if len == max {
                break ;
            }
            len = len + 1;
        }
        let mut id: usize = 0;
        while id < n
            invariant
                id <= n,
                n == d.len(),
                d == dict@,
                valid_dictionary(d),
                max == longest(d, n as nat),
                by_length@.len() == max + 1,
                shaped(postings@, max as int),
                forall|k: int|
                    0 <= k <= max ==> (#[trigger] by_length@[k])@ == matching(
                        d,
                        id as nat,
                        has_length(k as nat),
                    ),
                forall|k: int, p: int, l: int|
                    0 <= k <= max && 0 <= p < k && 0 <= l < 26 ==> (
                    #[trigger] postings@[k]@[p]@[l])@ == matching(
                        d,
                        id as nat,
                        has_letter(k as nat, p, l as u8),
                    ),
            decreases n - id,
        {
            let wl = dict.word_len(id as u32);
            proof {
                lemma_longest(d, n as nat, id as int);
                assert(valid_word(d[id as int]));
            }
            let ghost lengths_before = by_length@;
            by_length[wl].push(id as u32);
            proof {
                assert forall|k: int| 0 <= k <= max implies (#[trigger] by_length@[k])@
                    == matching(d, (id + 1) as nat, has_length(k as nat)) by {
                    if k != wl {
                        assert(by_length@[k] == lengths_before[k]);
                    }
                }
            }
            let mut p: usize = 0;
            while p < wl
                invariant
                    p <= wl,
                    id < n,
                    n == d.len(),
                    d == dict@,
                    n <= u32::MAX,
                    wl == d[id as int].len(),
                    valid_word(d[id as int]),
                    wl <= max,
                    shaped(postings@, max as int),
                    forall|k: int, q: int, l: int|
                        0 <= k <= max && 0 <= q < k && 0 <= l < 26 ==> (
                        #[trigger] postings@[k]@[q]@[l])@ == matching(
                            d,
                            if k == wl && q < p {
                                (id + 1) as nat
                            } else {
                                id as nat
                            },
                            has_letter(k as nat, q, l as u8),
                        ),
                decreases wl - p,
            {
                let l = dict.letter_at(id as u32, p);
                let ghost before = postings@;
                push_posting(&mut postings, wl, p, l, id as u32);
                proof {
                    assert forall|k: int, q: int, m: int|
                        0 <= k <= max && 0 <= q < k && 0 <= m < 26 implies (
                    #[trigger] postings@[k]@[q]@[m])@ == matching(
                        d,
                        if k == wl && q < p + 1 {
                            (id + 1) as nat
                        } else {
                            id as nat
                        },
                        has_letter(k as nat, q, m as u8),
                    ) by {
                        if k == wl && q == p && m == l {
                        } else {
                            assert(postings@[k]@[q]@[m]@ == before[k]@[q]@[m]@);
                        }
                    }
                }
                p = p + 1;
            }
            proof {
                assert forall|k: int, q: int, l: int|
                    0 <= k <= max && 0 <= q < k && 0 <= l < 26 implies (
                #[trigger] postings@[k]@[q]@[l])@ == matching(
                    d,
                    (id + 1) as nat,
                    has_letter(k as nat, q, l as u8),
                ) by {
                }
            }
            id = id + 1;
        }
        let r = WordIndices { by_length, by_length_pos_letter: postings, claimed, dict: Ghost(d) };
        proof {
            assert forall|len: int| 0 <= len <= max implies #[trigger] r.claimed_view()[len]
                == Seq::<u32>::empty() by {
                assert(r.claimed_view()[len] =~= Seq::<u32>::empty());
            }
        }
        r
    }

    /// The length of the longest word.
    pub fn max_len(&self) -> (n: usize)
        requires
            self.wf(),
        ensures
            n == self.spec_max_len(),
    {
        self.by_length.len() - 1
    }

    /// The ids of the words of length `len`, ascending.
    pub fn by_length(&self, len: usize) -> (r: &Vec<u32>)
        requires
            self.wf(),
            len <= self.spec_max_len(),
        ensures
            r@ == ids_of_length(self.dict(), len as nat),
    {
        &self.by_length[len]
    }

    /// The ids of the words of length `len` with letter `l` at position `p`, ascending.
    pub fn by_length_pos_letter(&self, len: usize, p: usize, l: u8) -> (r: &Vec<u32>)
        requires
            self.wf(),
            len <= self.spec_max_len(),
            p < len,
            l < 26,
        ensures
            r@ == posting(self.dict(), len as nat, p as int, l),
    {
        &self.by_length_pos_letter[len][p][l as usize]
    }

    /// The ids of the words of length `len` that are in use, ascending.
    pub fn claimed(&self, len: usize) -> (r: &Vec<u32>)
        requires
            self.wf(),
            len <= self.spec_max_len(),
        ensures
            r@ == self.claimed_view()[len as int],
    {
        &self.claimed[len]
    }

    /// Marks the word `id`, of length `len`, as in use. Fails, changing nothing, if it
    /// is in use already.
    pub fn claim(&mut self, len: usize, id: u32) -> (ok: bool)
        requires
            old(self).wf(),
            len <= old(self).spec_max_len(),
            id < old(self).dict().len(),
            old(self).dict()[id as int].len() == len,
        ensures
            final(self).wf(),
            final(self).dict() == old(self).dict(),
            final(self).spec_max_len() == old(self).spec_max_len(),
            ok == !old(self).claimed_view()[len as int].contains(id),
            final(self).claimed_view() == if ok {
                old(self).claimed_view().update(
                    len as int,
                    with_id(old(self).claimed_view()[len as int], id),
                )
            } else {
                old(self).claimed_view()
            },
    {
        let ghost before = self.claimed_view();
        let ghost list = before[len as int];
        let pos = lower_bound(&self.claimed[len], id);
        if pos < self.claimed[len].len() && self.claimed[len][pos] == id {
            return false;
        }
        proof {
            if list.contains(id) {
                let a = choose|a: int| 0 <= a < list.len() && list[a] == id;
                assert(a >= pos);
                if a > pos {
                    assert(list[pos as int] < list[a]);
                }
            }
            lemma_with_id(list, id);
        }
        self.claimed[len].insert(pos, id);
        proof {
            let now = self.claimed@[len as int]@;
            assert(now == list.insert(pos as int, id));
            assert forall|i: int, j: int| 0 <= i < j < now.len() implies now[i] < now[j] by {
                if j < pos {
                } else if j == pos {
                } else {
                    assert(now[j] == list[j - 1]);
                    if i < pos {
                        if pos < j - 1 {
                            assert(list[pos as int] < list[j - 1]);
                        }
                    } else if i == pos {
                        if pos < j - 1 {
                            assert(list[pos as int] < list[j - 1]);
                        }
                    } else {
                        assert(now[i] == list[i - 1]);
                    }
                }
            }
            assert forall|x: u32| now.contains(x) <==> with_id(list, id).contains(x) by {
                if now.contains(x) {
                    let a = choose|a: int| 0 <= a < now.len() && now[a] == x;
                    if a < pos {
                        assert(list[a] == x);
                    } else if a > pos {
                        assert(list[a - 1] == x);
                    }
                }
                if list.contains(x) {
                    let a = choose|a: int| 0 <= a < list.len() && list[a] == x;
                    if a < pos {
                        assert(now[a] == x);
                    } else {
                        assert(now[a + 1] == x);
                    }
                }
                if x == id {
                    assert(now[pos as int] == x);
                }
            }
            lemma_ascending_unique(now, with_id(list, id));
            assert(self.claimed_view() =~= before.update(len as int, with_id(list, id)));
        }
        true
    }

    /// Marks the word `id`, of length `len`, as no longer in use. Returns whether it was.
    pub fn unclaim(&mut self, len: usize, id: u32) -> (was: bool)
        requires
            old(self).wf(),
            len <= old(self).spec_max_len(),
        ensures
            final(self).wf(),
            final(self).dict() == old(self).dict(),
            final(self).spec_max_len() == old(self).spec_max_len(),
            was == old(self).claimed_view()[len as int].contains(id),
            final(self).claimed_view() == old(self).claimed_view().update(
                len as int,
                without_id(old(self).claimed_view()[len as int], id),
            ),
    {
        let ghost before = self.claimed_view();
        let ghost list = before[len as int];
        proof {
            lemma_without_id(list, id);
        }
        let pos = lower_bound(&self.claimed[len], id);
        if pos < self.claimed[len].len() && self.claimed[len][pos] == id {
            self.claimed[len].remove(pos);
            proof {
                let now = self.claimed@[len as int]@;
                assert(now == list.remove(pos as int));
                assert forall|x: u32| now.contains(x) <==> without_id(list, id).contains(x) by {
                    if now.contains(x) {
                        let a = choose|a: int| 0 <= a < now.len() && now[a] == x;
                        if a < pos {
                            assert(list[a] == x);
                        } else {
                            assert(list[a + 1] == x);
                            assert(list[pos as int] < list[a + 1]);
                        }
                    }
                    if list.contains(x) && x != id {
                        let a = choose|a: int| 0 <= a < list.len() && list[a] == x;
                        if a < pos {
                            assert(now[a] == x);
                        } else {
                            assert(now[a - 1] == x);
                        }
                    }
                }
                assert forall|i: int, j: int| 0 <= i < j < now.len() implies now[i] < now[j] by {
                    let a = if i < pos { i } else { i + 1 };
                    let b = if j < pos { j } else { j + 1 };
                    assert(now[i] == list[a]);
                    assert(now[j] == list[b]);
                }
                lemma_ascending_unique(now, without_id(list, id));
                assert(self.claimed_view() =~= before.update(len as int, without_id(list, id)));
            }
            true
        } else {
            proof {
                if list.contains(id) {
                    let a = choose|a: int| 0 <= a < list.len() && list[a] == id;
                    assert(a >= pos);
                    if a > pos {
                        assert(list[pos as int] < list[a]);
                    }
                }
                lemma_ascending_unique(list, without_id(list, id));
                assert(self.claimed_view() =~= before.update(len as int, without_id(list, id)));
            }
            false
        }
    }
}

} // verus!
