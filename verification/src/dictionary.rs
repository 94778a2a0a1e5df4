//! The word store: uppercase words addressed by dense ids.

use crate::letters::LetterSet;
use vstd::prelude::*;
use vstd::string::*;

verus! {

/// A word as letter indices: at least one letter, each below 26.
pub open spec fn valid_word(w: Seq<u8>) -> bool {
    w.len() >= 1 && forall|i: int| 0 <= i < w.len() ==> w[i] < 26
}

/// A list of words in which each is valid and none occurs twice, short enough
/// for its positions to be `u32` ids.
pub open spec fn valid_dictionary(d: Seq<Seq<u8>>) -> bool {
    &&& d.len() <= u32::MAX
    &&& forall|i: int| 0 <= i < d.len() ==> valid_word(#[trigger] d[i])
    &&& forall|i: int, j: int| 0 <= i < j < d.len() ==> d[i] != d[j]
}

/// Every byte is an uppercase ASCII letter.
pub open spec fn all_uppercase(bytes: Seq<u8>) -> bool {
    forall|i: int| 0 <= i < bytes.len() ==> 65 <= #[trigger] bytes[i] <= 90
}

/// The letter indices of uppercase ASCII bytes.
pub open spec fn letters_of(bytes: Seq<u8>) -> Seq<u8> {
    Seq::new(bytes.len(), |i: int| (bytes[i] - 65) as u8)
}

/// Why a word was not added.
#[derive(Clone, Copy, Debug, PartialEq, Eq)]
pub enum DictionaryError {
    /// The word has no letter.
    Empty,
    /// The word has a character outside A–Z.
    NotUppercase,
    /// The word is in the dictionary already.
    Duplicate,
    /// The dictionary has no id left.
    Full,
}

/// What adding the word spelled by `bytes` to the dictionary `d` gives: the new
/// word's id, or the reason it is refused.
pub open spec fn add_outcome(d: Seq<Seq<u8>>, bytes: Seq<u8>) -> Result<u32, DictionaryError> {
    if bytes.len() == 0 {
        Err(DictionaryError::Empty)
    } else if !all_uppercase(bytes) {
        Err(DictionaryError::NotUppercase)
    } else if d.contains(letters_of(bytes)) {
        Err(DictionaryError::Duplicate)
    } else if d.len() >= u32::MAX {
        Err(DictionaryError::Full)
    } else {
        Ok(d.len() as u32)
    }
}

/// The bucket that a word is filed under, by its first two letters.
pub open spec fn bucket_key(w: Seq<u8>) -> int {
    w[0] * 26 + if w.len() > 1 {
        w[1] as int
    } else {
        w[0] as int
    }
}

/// Number of buckets.
pub const BUCKETS: usize = 676;

/// An append-only store of distinct uppercase words. A word's id is its position.
pub struct Dictionary {
    /// The words, as letter indices.
    words: Vec<Vec<u8>>,
    /// The ids of the words, filed by `bucket_key`, to find a word again.
    buckets: Vec<Vec<u32>>,
}

impl View for Dictionary {
    type V = Seq<Seq<u8>>;

    /// The words as letter indices, by id.
    closed spec fn view(&self) -> Seq<Seq<u8>> {
        Seq::new(self.words@.len(), |i: int| self.words@[i]@)
    }
}

/// Whether two words are the same.
fn same_letters(a: &Vec<u8>, b: &Vec<u8>) -> (r: bool)
    ensures
        r == (a@ == b@),
{
    if a.len() != b.len() {
        return false;
    }
    let mut i: usize = 0;
    while i < a.len()
        invariant
            i <= a.len(),
            a.len() == b.len(),
            forall|j: int| 0 <= j < i ==> a@[j] == b@[j],
        decreases a.len() - i,
    {
        if a[i] != b[i] {
            return false;
        }
        i = i + 1;
    }
    assert(a@ =~= b@);
    true
}

impl Dictionary {
    /// The store is consistent: its words form a valid dictionary, and each is filed
    /// under its key.
    pub closed spec fn wf(&self) -> bool {
        &&& valid_dictionary(self@)
        &&& self.buckets@.len() == BUCKETS
        &&& forall|i: int|
            0 <= i < self@.len() ==> self.buckets@[bucket_key(#[trigger] self@[i])]@.contains(
                i as u32,
            )
        &&& forall|k: int, j: int|
            0 <= k < BUCKETS && 0 <= j < self.buckets@[k]@.len() ==> (
            #[trigger] self.buckets@[k]@[j]) < self@.len()
    }

    /// A consistent store holds a valid dictionary.
    pub proof fn lemma_valid(&self)
        requires
            self.wf(),
        ensures
            valid_dictionary(self@),
    {
    }

    /// The empty dictionary.
    pub fn new() -> (d: Dictionary)
        ensures
            d.wf(),
            d@ == Seq::<Seq<u8>>::empty(),
    {
        let mut buckets: Vec<Vec<u32>> = Vec::new();
        let mut k: usize = 0;
        while k < BUCKETS
            invariant
                k <= BUCKETS,
                buckets@.len() == k,
                forall|i: int| 0 <= i < k ==> (#[trigger] buckets@[i])@.len() == 0,
            decreases BUCKETS - k,
        {
            buckets.push(Vec::new());
            k = k + 1;
        }
        let d = Dictionary { words: Vec::new(), buckets };
        assert(d@ =~= Seq::<Seq<u8>>::empty());
        d
    }

    /// Number of words; the ids are the numbers below it.
    pub fn len(&self) -> (n: usize)
        ensures
            n == self@.len(),
    {
        self.words.len()
    }

    /// The word with the given id, as letter indices.
    pub fn word(&self, id: u32) -> (w: &Vec<u8>)
        requires
            id < self@.len(),
        ensures
            w@ == self@[id as int],
    {
        &self.words[id as usize]
    }

    /// The length of the word with the given id.
    pub fn word_len(&self, id: u32) -> (n: usize)
        requires
            id < self@.len(),
        ensures
            n == self@[id as int].len(),
    {
        self.words[id as usize].len()
    }

    /// The letter index at position `p` of the word with the given id.
    pub fn letter_at(&self, id: u32, p: usize) -> (l: u8)
        requires
            id < self@.len(),
            p < self@[id as int].len(),
        ensures
            l == self@[id as int][p as int],
    {
        self.words[id as usize][p]
    }

    /// The id of the word with the given letters, if the dictionary has it.
    pub fn find(&self, letters: &Vec<u8>) -> (r: Option<u32>)
        requires
            self.wf(),
            valid_word(letters@),
        ensures
            match r {
                Some(id) => id < self@.len() && self@[id as int] == letters@,
                None => !self@.contains(letters@),
            },
    {
        let first = letters[0] as usize;
        let second = if letters.len() > 1 {
            letters[1] as usize
        } else {
            first
        };
        let key = first * 26 + second;
        assert(key == bucket_key(letters@));
        let bucket = &self.buckets[key];
        let mut j: usize = 0;
        while j < bucket.len()
            invariant
                j <= bucket.len(),
                self.wf(),
                bucket@ == self.buckets@[key as int]@,
                0 <= key < BUCKETS,
                forall|i: int| 0 <= i < j ==> self@[bucket@[i] as int] != letters@,
            decreases bucket.len() - j,
        {
            let id = bucket[j];
            assert(id < self@.len());
            if same_letters(&self.words[id as usize], letters) {
                return Some(id);
            }
            j = j + 1;
        }
        proof {
            if self@.contains(letters@) {
                let i = choose|i: int| 0 <= i < self@.len() && self@[i] == letters@;
                assert(bucket@.contains(i as u32));
                let a = choose|a: int| 0 <= a < bucket@.len() && bucket@[a] == i as u32;
                assert(self@[bucket@[a] as int] != letters@);
            }
        }
        None
    }

    /// Adds a word of uppercase letters and returns its id.
    ///
    /// The word is refused, and the dictionary left as it was, when it is empty,
    /// has a character outside A–Z, is in the dictionary already, or no id is left.
    pub fn add(&mut self, w: &str) -> (r: Result<u32, DictionaryError>)
        requires
            old(self).wf(),
        ensures
            final(self).wf(),
            r == add_outcome(old(self)@, w.spec_bytes()),
            match r {
                Ok(id) => final(self)@ == old(self)@.push(letters_of(w.spec_bytes())),
                Err(_) => final(self)@ == old(self)@,
            },
    {
        let bytes = w.as_bytes();
        if bytes.len() == 0 {
            return Err(DictionaryError::Empty);
        }
        let mut letters: Vec<u8> = Vec::new();
        let mut i: usize = 0;
        while i < bytes.len()
            invariant
                i <= bytes.len(),
                letters@.len() == i,
                bytes@ == w.spec_bytes(),
                bytes@.len() > 0,
                *self == *old(self),
                self.wf(),
                forall|j: int| 0 <= j < i ==> 65 <= #[trigger] bytes@[j] <= 90,
                forall|j: int| 0 <= j < i ==> letters@[j] == (bytes@[j] - 65) as u8,
            decreases bytes.len() - i,
        {
            match LetterSet::index_of_byte(bytes[i]) {
                Some(l) => {
                    letters.push(l);
                },
                None => {
                    assert(!(65 <= bytes@[i as int] <= 90));
                    return Err(DictionaryError::NotUppercase);
                },
            }
            i = i + 1;
        }
        assert(letters@ =~= letters_of(bytes@));
        assert(valid_word(letters@));
        if self.find(&letters).is_some() {
            return Err(DictionaryError::Duplicate);
        }
        if self.words.len() >= u32::MAX as usize {
            return Err(DictionaryError::Full);
        }
        let id = self.words.len() as u32;
        let first = letters[0] as usize;
        let second = if letters.len() > 1 {
            letters[1] as usize
        } else {
            first
        };
        let key = first * 26 + second;
        self.words.push(letters);
        self.buckets[key].push(id);
        proof {
            let word = letters_of(bytes@);
            assert(self@ =~= old(self)@.push(word));
            assert forall|i: int| 0 <= i < self@.len() implies self.buckets@[bucket_key(
                #[trigger] self@[i],
            )]@.contains(i as u32) by {
                if i < old(self)@.len() {
                    assert(self@[i] == old(self)@[i]);
                    let k = bucket_key(old(self)@[i]);
                    assert(valid_word(old(self)@[i]));
                    let b = old(self).buckets@[k]@;
                    assert(b.contains(i as u32));
                    let a = choose|a: int| 0 <= a < b.len() && b[a] == i as u32;
                    assert(self.buckets@[k]@[a] == i as u32);
                } else {
                    let b = self.buckets@[key as int]@;
                    assert(b[b.len() - 1] == id);
                }
            }
            assert forall|i: int, j: int| 0 <= i < j < self@.len() implies self@[i]
                != self@[j] by {
                if j == old(self)@.len() {
                    assert(old(self)@.contains(old(self)@[i]));
                }
            }
        }
        Ok(id)
    }
}

} // verus!
