//! Letters of the alphabet A–Z as indices, sets of letters, and letter histograms.

use vstd::prelude::*;

verus! {

/// The index in `[0, 26)` of an uppercase letter, or `None` for any other character.
pub open spec fn letter_index(ch: char) -> Option<u8> {
    if 'A' <= ch && ch <= 'Z' {
        Some((ch as u32 - 'A' as u32) as u8)
    } else {
        None
    }
}

/// The index in `[0, 26)` of an uppercase ASCII byte, or `None` for any other byte.
pub open spec fn byte_index(b: u8) -> Option<u8> {
    if 65 <= b && b <= 90 {
        Some((b - 65) as u8)
    } else {
        None
    }
}

/// The uppercase letter with the given index.
pub open spec fn index_letter(i: u8) -> char
    recommends
        i < 26,
{
    ((i as u32 + 'A' as u32) as u32) as char
}

/// Whether bit `i` of `bits` is set, for a letter index `i`.
pub open spec fn has_bit(bits: u32, i: u8) -> bool {
    i < 26 && (bits >> (i as u32)) & 1u32 == 1u32
}

/// Number of letter indices below `n` whose bit is set in `bits`.
pub open spec fn bits_below(bits: u32, n: nat) -> nat
    decreases n,
{
    if n == 0 {
        0
    } else {
        bits_below(bits, (n - 1) as nat) + if has_bit(bits, (n - 1) as u8) {
            1nat
        } else {
            0nat
        }
    }
}

/// The letter indices below `n` whose bit is set in `bits`.
pub open spec fn members_below(bits: u32, n: nat) -> Set<u8> {
    Set::new(|i: u8| i < n && has_bit(bits, i))
}

proof fn lemma_members_below(bits: u32, n: nat)
    requires
        n <= 26,
    ensures
        members_below(bits, n).finite(),
        members_below(bits, n).len() == bits_below(bits, n),
    decreases n,
{
    if n == 0 {
        assert(members_below(bits, 0) =~= Set::<u8>::empty());
    } else {
        let m = (n - 1) as nat;
        lemma_members_below(bits, m);
        if has_bit(bits, m as u8) {
            assert(members_below(bits, n) =~= members_below(bits, m).insert(m as u8));
        } else {
            assert(members_below(bits, n) =~= members_below(bits, m));
        }
    }
}

proof fn lemma_bit_or(a: u32, b: u32, i: u32)
    requires
        i < 32,
    ensures
        ((a | b) >> i) & 1u32 == 1u32 <==> ((a >> i) & 1u32 == 1u32 || (b >> i) & 1u32 == 1u32),
{
    assert(((a | b) >> i) & 1u32 == 1u32 <==> ((a >> i) & 1u32 == 1u32 || (b >> i) & 1u32
        == 1u32)) by (bit_vector)
        requires
            i < 32,
    ;
}

proof fn lemma_bit_and(a: u32, b: u32, i: u32)
    requires
        i < 32,
    ensures
        ((a & b) >> i) & 1u32 == 1u32 <==> ((a >> i) & 1u32 == 1u32 && (b >> i) & 1u32 == 1u32),
{
    assert(((a & b) >> i) & 1u32 == 1u32 <==> ((a >> i) & 1u32 == 1u32 && (b >> i) & 1u32
        == 1u32)) by (bit_vector)
        requires
            i < 32,
    ;
}

proof fn lemma_bit_and_not(a: u32, b: u32, i: u32)
    requires
        i < 32,
    ensures
        ((a & !b) >> i) & 1u32 == 1u32 <==> ((a >> i) & 1u32 == 1u32 && (b >> i) & 1u32 != 1u32),
{
    assert(((a & !b) >> i) & 1u32 == 1u32 <==> ((a >> i) & 1u32 == 1u32 && (b >> i) & 1u32
        != 1u32)) by (bit_vector)
        requires
            i < 32,
    ;
}

proof fn lemma_bit_single(i: u32, j: u32)
    requires
        i < 32,
        j < 32,
    ensures
        ((1u32 << i) >> j) & 1u32 == 1u32 <==> i == j,
{
    assert(((1u32 << i) >> j) & 1u32 == 1u32 <==> i == j) by (bit_vector)
        requires
            i < 32,
            j < 32,
    ;
}

proof fn lemma_bit_zero(j: u32)
    requires
        j < 32,
    ensures
        (0u32 >> j) & 1u32 == 0u32,
{
    assert((0u32 >> j) & 1u32 == 0u32) by (bit_vector)
        requires
            j < 32,
    ;
}

/// A set of letters, held as a 26-bit mask.
#[derive(Clone, Copy, Debug)]
pub struct LetterSet {
    bits: u32,
}

impl View for LetterSet {
    type V = Set<u8>;

    /// The letter indices in the set.
    closed spec fn view(&self) -> Set<u8> {
        members_below(self.bits, 26)
    }
}

impl LetterSet {
    /// Every member is a letter index and the set is finite.
    pub proof fn lemma_view(&self)
        ensures
            self@.finite(),
            self@.len() <= 26,
            forall|i: u8| self@.contains(i) ==> i < 26,
    {
        lemma_members_below(self.bits, 26);
        Self::lemma_bits_below_bound(self.bits, 26);
    }

    proof fn lemma_bits_below_bound(bits: u32, n: nat)
        ensures
            bits_below(bits, n) <= n,
        decreases n,
    {
        if n > 0 {
            Self::lemma_bits_below_bound(bits, (n - 1) as nat);
        }
    }

    /// The index of an uppercase letter, `None` for any other character.
    pub fn index(ch: char) -> (r: Option<u8>)
        ensures
            r == letter_index(ch),
            r matches Some(i) ==> i < 26,
    {
        if 'A' <= ch && ch <= 'Z' {
            Some((ch as u32 - 'A' as u32) as u8)
        } else {
            None
        }
    }

    /// The index of an uppercase ASCII byte, `None` for any other byte.
    pub fn index_of_byte(b: u8) -> (r: Option<u8>)
        ensures
            r == byte_index(b),
            r matches Some(i) ==> i < 26,
    {
        if 65 <= b && b <= 90 {
            Some(b - 65)
        } else {
            None
        }
    }

    /// The uppercase letter with index `i`.
    pub fn letter(i: u8) -> (ch: char)
        requires
            i < 26,
        ensures
            ch == index_letter(i),
            letter_index(ch) == Some(i),
    {
        (i + 65) as char
    }

    /// The empty set.
    pub fn new() -> (s: LetterSet)
        ensures
            s@ == Set::<u8>::empty(),
    {
        let s = LetterSet { bits: 0 };
        proof {
            assert forall|i: u8| !s@.contains(i) by {
                if i < 26 {
                    lemma_bit_zero(i as u32);
                }
            }
            assert(s@ =~= Set::<u8>::empty());
        }
        s
    }

    /// Adds the letter with index `i`.
    pub fn insert_index(&mut self, i: u8)
        requires
            i < 26,
        ensures
            final(self)@ == old(self)@.insert(i),
    {
        let ghost before = self.bits;
        self.bits = self.bits | (1u32 << (i as u32));
        proof {
            assert forall|j: u8| self@.contains(j) <==> old(self)@.insert(i).contains(j) by {
                if j < 26 {
                    lemma_bit_or(before, 1u32 << (i as u32), j as u32);
                    lemma_bit_single(i as u32, j as u32);
                }
            }
            assert(self@ =~= old(self)@.insert(i));
        }
    }

    /// Whether the letter with index `i` is in the set.
    pub fn contains_index(&self, i: u8) -> (b: bool)
        ensures
            b == self@.contains(i),
    {
        i < 26 && (self.bits >> (i as u32)) & 1u32 == 1u32
    }

    /// The letters in either set.
    pub fn union(a: &LetterSet, b: &LetterSet) -> (r: LetterSet)
        ensures
            r@ == a@.union(b@),
    {
        let r = LetterSet { bits: a.bits | b.bits };
        proof {
            assert forall|j: u8| r@.contains(j) <==> a@.union(b@).contains(j) by {
                if j < 26 {
                    lemma_bit_or(a.bits, b.bits, j as u32);
                }
            }
            assert(r@ =~= a@.union(b@));
        }
        r
    }

    /// The letters in both sets.
    pub fn intersect(a: &LetterSet, b: &LetterSet) -> (r: LetterSet)
        ensures
            r@ == a@.intersect(b@),
    {
        let r = LetterSet { bits: a.bits & b.bits };
        proof {
            assert forall|j: u8| r@.contains(j) <==> a@.intersect(b@).contains(j) by {
                if j < 26 {
                    lemma_bit_and(a.bits, b.bits, j as u32);
                }
            }
            assert(r@ =~= a@.intersect(b@));
        }
        r
    }

    /// The letters of `a` that are not in `b`.
    pub fn difference(a: &LetterSet, b: &LetterSet) -> (r: LetterSet)
        ensures
            r@ == a@.difference(b@),
    {
        let r = LetterSet { bits: a.bits & !b.bits };
        proof {
            assert forall|j: u8| r@.contains(j) <==> a@.difference(b@).contains(j) by {
                if j < 26 {
                    lemma_bit_and_not(a.bits, b.bits, j as u32);
                }
            }
            assert(r@ =~= a@.difference(b@));
        }
        r
    }

    /// Number of letters in the set.
    pub fn len(&self) -> (n: usize)
        ensures
            n == self@.len(),
            n <= 26,
    {
        let mut n: usize = 0;
        let mut i: u8 = 0;
        while i < 26
            invariant
                i <= 26,
                n == bits_below(self.bits, i as nat),
                n <= i,
            decreases 26 - i,
        {
            if (self.bits >> (i as u32)) & 1u32 == 1u32 {
                n = n + 1;
            }
            i = i + 1;
        }
        proof {
            lemma_members_below(self.bits, 26);
        }
        n
    }

    /// Whether the set has no letter.
    pub fn is_empty(&self) -> (b: bool)
        ensures
            b == (self@.len() == 0),
            b == (self@ == Set::<u8>::empty()),
    {
        let n = self.len();
        proof {
            self.lemma_view();
            if n == 0 {
                self@.lemma_len0_is_empty();
                assert(self@ =~= Set::<u8>::empty());
            }
        }
        n == 0
    }

    /// The letter indices of the set, in ascending order.
    pub fn indices(&self) -> (v: Vec<u8>)
        ensures
            v@.len() == self@.len(),
            forall|k: int, l: int| 0 <= k < l < v@.len() ==> v@[k] < v@[l],
            forall|i: u8| v@.contains(i) <==> self@.contains(i),
    {
        let mut v: Vec<u8> = Vec::new();
        let mut i: u8 = 0;
        while i < 26
            invariant
                i <= 26,
                v@.len() == bits_below(self.bits, i as nat),
                forall|k: int, l: int| 0 <= k < l < v@.len() ==> v@[k] < v@[l],
                forall|k: int| 0 <= k < v@.len() ==> v@[k] < i,
                forall|j: u8| v@.contains(j) <==> members_below(self.bits, i as nat).contains(j),
            decreases 26 - i,
        {
            if (self.bits >> (i as u32)) & 1u32 == 1u32 {
                let ghost before = v@;
                v.push(i);
                proof {
                    assert forall|j: u8| v@.contains(j) <==> members_below(
                        self.bits,
                        (i + 1) as nat,
                    ).contains(j) by {
                        if v@.contains(j) {
                            let k = choose|k: int| 0 <= k < v@.len() && v@[k] == j;
                            if k < before.len() {
                                assert(before[k] == j);
                                assert(before.contains(j));
                            }
                        }
                        if members_below(self.bits, (i + 1) as nat).contains(j) {
                            if j == i {
                                assert(v@[before.len() as int] == j);
                            } else {
                                assert(before.contains(j));
                                let k = choose|k: int| 0 <= k < before.len() && before[k] == j;
                                assert(v@[k] == j);
                            }
                        }
                    }
                }
            } else {
                proof {
                    assert(members_below(self.bits, (i + 1) as nat) =~= members_below(
                        self.bits,
                        i as nat,
                    ));
                }
            }
            i = i + 1;
        }
        proof {
            lemma_members_below(self.bits, 26);
        }
        v
    }

    /// The letters of the set, in alphabetical order.
    pub fn chars(&self) -> (v: Vec<char>)
        ensures
            v@.len() == self@.len(),
            forall|k: int, l: int| 0 <= k < l < v@.len() ==> (v@[k] as u32) < (v@[l] as u32),
            forall|k: int|
                0 <= k < v@.len() ==> letter_index(#[trigger] v@[k]) is Some && self@.contains(
                    letter_index(v@[k])->0,
                ),
            forall|i: u8| self@.contains(i) ==> v@.contains(index_letter(i)),
    {
        let idx = self.indices();
        let mut v: Vec<char> = Vec::new();
        let mut k: usize = 0;
        proof {
            self.lemma_view();
        }
        while k < idx.len()
            invariant
                k <= idx.len(),
                v@.len() == k,
                forall|i: u8| idx@.contains(i) ==> i < 26,
                forall|j: int| 0 <= j < k ==> v@[j] == index_letter(#[trigger] idx@[j]),
            decreases idx.len() - k,
        {
            assert(idx@.contains(idx@[k as int]));
            v.push(Self::letter(idx[k]));
            k = k + 1;
        }
        proof {
            assert forall|j: int| 0 <= j < v@.len() implies letter_index(#[trigger] v@[j])
                is Some && self@.contains(letter_index(v@[j])->0) by {
                assert(idx@.contains(idx@[j]));
            }
            assert forall|i: u8| self@.contains(i) implies v@.contains(index_letter(i)) by {
                assert(idx@.contains(i));
                let j = choose|j: int| 0 <= j < idx@.len() && idx@[j] == i;
                assert(v@[j] == index_letter(i));
            }
            assert forall|a: int, b: int| 0 <= a < b < v@.len() implies (v@[a] as u32) < (
            v@[b] as u32) by {
                assert(idx@.contains(idx@[a]));
                assert(idx@.contains(idx@[b]));
            }
        }
        v
    }
}


/// Sum of the first `n` entries of `s`.
pub open spec fn sum_below(s: Seq<u64>, n: nat) -> nat
    decreases n,
{
    if n == 0 {
        0
    } else {
        sum_below(s, (n - 1) as nat) + s[n - 1] as nat
    }
}

/// Every entry below `n` is at most the sum of the entries below `n`.
pub proof fn lemma_sum_below_bounds(s: Seq<u64>, n: nat, i: int)
    requires
        0 <= i < n,
    ensures
        s[i] <= sum_below(s, n),
    decreases n,
{
    if i < n - 1 {
        lemma_sum_below_bounds(s, (n - 1) as nat, i);
    }
}

/// The sum of the entries below `n` is zero exactly when each of them is zero.
pub proof fn lemma_sum_below_zero(s: Seq<u64>, n: nat)
    ensures
        sum_below(s, n) == 0 <==> (forall|i: int| 0 <= i < n ==> s[i] == 0),
    decreases n,
{
    if n > 0 {
        lemma_sum_below_zero(s, (n - 1) as nat);
        if sum_below(s, n) == 0 {
            assert forall|i: int| 0 <= i < n implies s[i] == 0 by {
                lemma_sum_below_bounds(s, n, i);
            }
        }
    }
}

/// Raising entry `i` by one raises the sum below `n` by one when `i < n`, and leaves it otherwise.
pub proof fn lemma_sum_below_bump(s: Seq<u64>, n: nat, i: int)
    requires
        0 <= i < s.len(),
        n <= s.len(),
        s[i] < u64::MAX,
    ensures
        sum_below(s.update(i, (s[i] + 1) as u64), n) == sum_below(s, n) + if i < n {
            1nat
        } else {
            0nat
        },
    decreases n,
{
    if n > 0 {
        lemma_sum_below_bump(s, (n - 1) as nat, i);
    }
}

/// The letter indices that a histogram counts.
pub open spec fn support_of(counts: Seq<u64>) -> Set<u8> {
    Set::new(|i: u8| i < 26 && counts[i as int] > 0)
}

/// `letters` lists the letters that the histogram `counts` counts, each once, by
/// falling count, and by rising letter index where counts are equal.
pub open spec fn by_frequency(letters: Seq<u8>, counts: Seq<u64>) -> bool {
    &&& forall|i: int| 0 <= i < letters.len() ==> support_of(counts).contains(#[trigger] letters[i])
    &&& forall|l: u8| support_of(counts).contains(l) ==> letters.contains(l)
    &&& forall|i: int, j: int|
        0 <= i < j < letters.len() ==> counts[letters[i] as int] > counts[letters[j] as int] || (
        counts[letters[i] as int] == counts[letters[j] as int] && letters[i] < letters[j])
}

/// A histogram over the alphabet: one count for each letter.
#[derive(Clone, Copy, Debug)]
pub struct LetterInventory {
    /// The count of each letter, by letter index.
    pub counts: [u64; 26],
}

impl View for LetterInventory {
    type V = Seq<u64>;

    /// The 26 counts, by letter index.
    open spec fn view(&self) -> Seq<u64> {
        self.counts@
    }
}

impl LetterInventory {
    /// The sum of all counts.
    pub open spec fn spec_total(&self) -> nat {
        sum_below(self@, 26)
    }

    /// The letter indices with a nonzero count.
    pub open spec fn support(&self) -> Set<u8> {
        support_of(self@)
    }

    /// The support is empty exactly when the total is zero.
    pub proof fn lemma_support_empty_iff_total_zero(&self)
        ensures
            self.support() == Set::<u8>::empty() <==> self.spec_total() == 0,
    {
        lemma_sum_below_zero(self@, 26);
        if self.spec_total() == 0 {
            assert(self.support() =~= Set::<u8>::empty());
        }
        if self.support() == Set::<u8>::empty() {
            assert forall|i: int| 0 <= i < 26 implies self@[i] == 0 by {
                assert(!self.support().contains(i as u8));
            }
        }
    }

    /// The histogram with every count zero.
    pub fn new() -> (r: LetterInventory)
        ensures
            r@.len() == 26,
            forall|i: int| 0 <= i < 26 ==> r@[i] == 0,
            r.spec_total() == 0,
    {
        let r = LetterInventory { counts: [0u64; 26] };
        proof {
            lemma_sum_below_zero(r@, 26);
        }
        r
    }

    /// Counts one more occurrence of the letter with index `i`.
    pub fn add(&mut self, i: u8)
        requires
            i < 26,
            old(self)@[i as int] < u64::MAX,
        ensures
            final(self)@ == old(self)@.update(i as int, (old(self)@[i as int] + 1) as u64),
            final(self).spec_total() == old(self).spec_total() + 1,
    {
        let c = self.counts[i as usize];
        self.counts[i as usize] = c + 1;
        proof {
            lemma_sum_below_bump(old(self)@, 26, i as int);
        }
    }

    /// The count of the letter with index `i`.
    pub fn count(&self, i: u8) -> (c: u64)
        requires
            i < 26,
        ensures
            c == self@[i as int],
    {
        self.counts[i as usize]
    }

    /// The letters with a nonzero count, each with its count, in alphabetical order.
    pub fn entries(&self) -> (v: Vec<(u8, u64)>)
        ensures
            forall|k: int, l: int| 0 <= k < l < v@.len() ==> v@[k].0 < v@[l].0,
            forall|k: int|
                0 <= k < v@.len() ==> (#[trigger] v@[k]).0 < 26 && v@[k].1 > 0 && v@[k].1
                    == self@[v@[k].0 as int],
            forall|i: u8| self.support().contains(i) ==> v@.contains((i, self@[i as int])),
    {
        let mut v: Vec<(u8, u64)> = Vec::new();
        let mut i: u8 = 0;
        while i < 26
            invariant
                i <= 26,
                forall|k: int, l: int| 0 <= k < l < v@.len() ==> v@[k].0 < v@[l].0,
                forall|k: int|
                    0 <= k < v@.len() ==> (#[trigger] v@[k]).0 < i && v@[k].1 > 0 && v@[k].1
                        == self@[v@[k].0 as int],
                forall|j: u8|
                    j < i && self@[j as int] > 0 ==> v@.contains((j, self@[j as int])),
            decreases 26 - i,
        {
            let c = self.counts[i as usize];
            if c > 0 {
                let ghost before = v@;
                v.push((i, c));
                proof {
                    assert forall|j: u8| j < i + 1 && self@[j as int] > 0 implies v@.contains(
                        (j, self@[j as int]),
                    ) by {
                        if j < i {
                            assert(before.contains((j, self@[j as int])));
                            let k = choose|k: int|
                                0 <= k < before.len() && before[k] == (j, self@[j as int]);
                            assert(v@[k] == (j, self@[j as int]));
                        } else {
                            assert(v@[before.len() as int] == (j, self@[j as int]));
                        }
                    }
                }
            }
            i = i + 1;
        }
        v
    }

    /// The set of letters with a nonzero count.
    pub fn letter_set(&self) -> (s: LetterSet)
        ensures
            s@ == self.support(),
    {
        let mut s = LetterSet::new();
        let mut i: u8 = 0;
        while i < 26
            invariant
                i <= 26,
                forall|j: u8| s@.contains(j) <==> j < i && self@[j as int] > 0,
            decreases 26 - i,
        {
            if self.counts[i as usize] > 0 {
                s.insert_index(i);
            }
            i = i + 1;
        }
        proof {
            assert(s@ =~= self.support());
        }
        s
    }

    /// The letters with a nonzero count, most frequent first; letters of equal count
    /// in alphabetical order.
    pub fn letters_by_frequency(&self) -> (v: Vec<u8>)
        ensures
            by_frequency(v@, self@),
            v@.len() <= 26,
    {
        let mut v: Vec<u8> = Vec::new();
        let mut l: u8 = 0;
        while l < 26
            invariant
                l <= 26,
                v@.len() <= l,
                forall|i: int|
                    0 <= i < v@.len() ==> (#[trigger] v@[i]) < l && self@[v@[i] as int] > 0,
                forall|m: u8| m < l && self@[m as int] > 0 ==> v@.contains(m),
                forall|i: int, j: int|
                    0 <= i < j < v@.len() ==> self@[v@[i] as int] > self@[v@[j] as int] || (
                    self@[v@[i] as int] == self@[v@[j] as int] && v@[i] < v@[j]),
            decreases 26 - l,
        {
            let c = self.counts[l as usize];
            if c > 0 {
                let mut pos: usize = 0;
                while pos < v.len() && self.counts[v[pos] as usize] >= c
                    invariant
                        pos <= v@.len(),
                        l < 26,
                        c == self@[l as int],
                        forall|i: int| 0 <= i < v@.len() ==> (#[trigger] v@[i]) < l,
                        forall|i: int| 0 <= i < pos ==> self@[#[trigger] v@[i] as int] >= c,
                    decreases v@.len() - pos,
                {
                    pos = pos + 1;
                }
                let ghost before = v@;
                v.insert(pos, l);
                proof {
                    assert(v@ == before.insert(pos as int, l));
                    assert forall|i: int| 0 <= i < v@.len() implies (#[trigger] v@[i]) < l + 1
                        && self@[v@[i] as int] > 0 by {
                        if i < pos {
                            assert(v@[i] == before[i]);
                        } else if i > pos {
                            assert(v@[i] == before[i - 1]);
                        }
                    }
                    assert forall|m: u8| m < l + 1 && self@[m as int] > 0 implies v@.contains(m) by {
                        if m == l {
                            assert(v@[pos as int] == m);
                        } else {
                            assert(before.contains(m));
                            let a = choose|a: int| 0 <= a < before.len() && before[a] == m;
                            if a < pos {
                                assert(v@[a] == m);
                            } else {
                                assert(v@[a + 1] == m);
                            }
                        }
                    }
                    assert forall|i: int, j: int| 0 <= i < j < v@.len() implies self@[v@[i] as int]
                        > self@[v@[j] as int] || (self@[v@[i] as int] == self@[v@[j] as int]
                        && v@[i] < v@[j]) by {
                        let a = if i < pos { i } else { i - 1 };
                        let b = if j < pos { j } else { j - 1 };
                        if i != pos && j != pos {
                            assert(v@[i] == before[a]);
                            assert(v@[j] == before[b]);
                        } else if i == pos {
                            assert(v@[j] == before[b]);
                            assert(before[pos as int] == before[b] || self@[before[pos as int] as int]
                                > self@[before[b] as int] || (self@[before[pos as int] as int]
                                == self@[before[b] as int]));
                        } else {
                            assert(v@[i] == before[a]);
                        }
                    }
                }
            }
            l = l + 1;
        }
        v
    }

    /// The sum of all counts.
    pub fn total(&self) -> (t: u64)
        requires
            self.spec_total() <= u64::MAX,
        ensures
            t == self.spec_total(),
    {
        let mut t: u64 = 0;
        let mut i: usize = 0;
        while i < 26
            invariant
                i <= 26,
                t == sum_below(self@, i as nat),
                self.spec_total() <= u64::MAX,
            decreases 26 - i,
        {
            proof {
                lemma_sum_below_mono(self@, (i + 1) as nat, 26);
            }
            t = t + self.counts[i];
            i = i + 1;
        }
        t
    }

    /// The component-wise product of two histograms.
    pub fn product(a: &LetterInventory, b: &LetterInventory) -> (r: LetterInventory)
        requires
            forall|i: int| 0 <= i < 26 ==> a@[i] * b@[i] <= u64::MAX,
        ensures
            r@.len() == 26,
            forall|i: int| 0 <= i < 26 ==> r@[i] == a@[i] * b@[i],
    {
        let mut r = LetterInventory { counts: [0u64; 26] };
        let mut i: usize = 0;
        while i < 26
            invariant
                i <= 26,
                forall|j: int| 0 <= j < 26 ==> a@[j] * b@[j] <= u64::MAX,
                forall|j: int| 0 <= j < i ==> r@[j] == a@[j] * b@[j],
            decreases 26 - i,
        {
            assert(a@[i as int] * b@[i as int] <= u64::MAX);
            let ghost before = r@;
            r.counts[i] = a.counts[i] * b.counts[i];
            proof {
                assert(r@ =~= before.update(i as int, (a@[i as int] * b@[i as int]) as u64));
                assert forall|j: int| 0 <= j < i + 1 implies r@[j] == a@[j] * b@[j] by {
                    if j < i {
                        assert(r@[j] == before[j]);
                    }
                }
            }
            i = i + 1;
        }
        r
    }
}

/// The sum below `m` is at most the sum below `n` when `m <= n`.
pub proof fn lemma_sum_below_mono(s: Seq<u64>, m: nat, n: nat)
    requires
        m <= n,
    ensures
        sum_below(s, m) <= sum_below(s, n),
    decreases n,
{
    if m < n {
        lemma_sum_below_mono(s, m, (n - 1) as nat);
    }
}

} // verus!
