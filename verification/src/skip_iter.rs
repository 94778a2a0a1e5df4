//! Lazy streams over strictly ascending lists of ids, with sequential `next`
//! and a forward-only seek, and their intersection, difference and filter.

use vstd::prelude::*;

verus! {

/// Strictly ascending.
pub open spec fn ascending(s: Seq<u32>) -> bool {
    forall|i: int, j: int| 0 <= i < j < s.len() ==> s[i] < s[j]
}

/// The first item of a stream, if it has one.
pub open spec fn first(s: Seq<u32>) -> Option<u32> {
    if s.len() > 0 {
        Some(s[0])
    } else {
        None
    }
}

/// What is left of a stream once its first item is taken.
pub open spec fn rest(s: Seq<u32>) -> Seq<u32> {
    if s.len() > 0 {
        s.skip(1)
    } else {
        s
    }
}

/// The items of `s` that are not below `k`.
pub open spec fn from_bound(s: Seq<u32>, k: u32) -> Seq<u32> {
    s.filter(|x: u32| x >= k)
}

/// The items of `a` that also occur in `b`.
pub open spec fn common(a: Seq<u32>, b: Seq<u32>) -> Seq<u32> {
    a.filter(|x: u32| b.contains(x))
}

/// The items of `a` that do not occur in `b`.
pub open spec fn without(a: Seq<u32>, b: Seq<u32>) -> Seq<u32> {
    a.filter(|x: u32| !b.contains(x))
}

/// `t` followed by the items of `s`.
pub open spec fn cons(t: u32, s: Seq<u32>) -> Seq<u32> {
    seq![t] + s
}

/// Two strictly ascending sequences with the same items are equal.
pub proof fn lemma_ascending_unique(s: Seq<u32>, t: Seq<u32>)
    requires
        ascending(s),
        ascending(t),
        forall|x: u32| s.contains(x) <==> t.contains(x),
    ensures
        s == t,
    decreases s.len(),
{
    if s.len() == 0 {
        if t.len() > 0 {
            assert(t.contains(t[0]));
        }
        assert(s =~= t);
    } else {
        assert(s.contains(s.last()));
        assert(t.contains(s.last()));
        assert(t.len() > 0);
        assert(t.contains(t.last()));
        assert(s.contains(t.last()));
        let i = choose|i: int| 0 <= i < s.len() && s[i] == t.last();
        let j = choose|j: int| 0 <= j < t.len() && t[j] == s.last();
        assert(s.last() == t.last());
        let s1 = s.drop_last();
        let t1 = t.drop_last();
        assert forall|x: u32| s1.contains(x) <==> t1.contains(x) by {
            if s1.contains(x) {
                let a = choose|a: int| 0 <= a < s1.len() && s1[a] == x;
                assert(s[a] == x);
                assert(s.contains(x));
                let b = choose|b: int| 0 <= b < t.len() && t[b] == x;
                assert(x < s.last());
                assert(b < t.len() - 1);
                assert(t1[b] == x);
            }
            if t1.contains(x) {
                let b = choose|b: int| 0 <= b < t1.len() && t1[b] == x;
                assert(t[b] == x);
                assert(t.contains(x));
                let a = choose|a: int| 0 <= a < s.len() && s[a] == x;
                assert(x < t.last());
                assert(a < s.len() - 1);
                assert(s1[a] == x);
            }
        }
        lemma_ascending_unique(s1, t1);
        assert(s =~= s1.push(s.last()));
        assert(t =~= t1.push(t.last()));
    }
}

/// Two strictly rising sequences of integers with the same items are equal.
pub proof fn lemma_rising_unique(a: Seq<int>, b: Seq<int>)
    requires
        forall|i: int, j: int| 0 <= i < j < a.len() ==> a[i] < a[j],
        forall|i: int, j: int| 0 <= i < j < b.len() ==> b[i] < b[j],
        forall|x: int| a.contains(x) <==> b.contains(x),
    ensures
        a == b,
    decreases a.len(),
{
    if a.len() == 0 {
        if b.len() > 0 {
            assert(b.contains(b[0]));
        }
        assert(a =~= b);
    } else {
        assert(a.contains(a.last()));
        assert(b.contains(a.last()));
        assert(b.contains(b.last()));
        assert(a.contains(b.last()));
        let i = choose|i: int| 0 <= i < a.len() && a[i] == b.last();
        let j = choose|j: int| 0 <= j < b.len() && b[j] == a.last();
        assert(a.last() == b.last());
        let a1 = a.drop_last();
        let b1 = b.drop_last();
        assert forall|x: int| a1.contains(x) <==> b1.contains(x) by {
            if a1.contains(x) {
                let k = choose|k: int| 0 <= k < a1.len() && a1[k] == x;
                assert(a[k] == x);
                assert(a.contains(x));
                let m = choose|m: int| 0 <= m < b.len() && b[m] == x;
                assert(x < a.last());
                assert(m < b.len() - 1);
                assert(b1[m] == x);
            }
            if b1.contains(x) {
                let m = choose|m: int| 0 <= m < b1.len() && b1[m] == x;
                assert(b[m] == x);
                assert(b.contains(x));
                let k = choose|k: int| 0 <= k < a.len() && a[k] == x;
                assert(x < b.last());
                assert(k < a.len() - 1);
                assert(a1[k] == x);
            }
        }
        lemma_rising_unique(a1, b1);
        assert(a =~= a1.push(a.last()));
        assert(b =~= b1.push(b.last()));
    }
}

/// Filtering a strictly ascending sequence keeps it strictly ascending, and
/// keeps exactly the items that meet the predicate.
pub proof fn lemma_filter_ascending(s: Seq<u32>, p: spec_fn(u32) -> bool)
    requires
        ascending(s),
    ensures
        ascending(s.filter(p)),
        forall|x: u32| s.filter(p).contains(x) <==> (s.contains(x) && p(x)),
    decreases s.len(),
{
    reveal(Seq::filter);
    if s.len() == 0 {
    } else {
        let sub = s.drop_last();
        let subf = sub.filter(p);
        let out = s.filter(p);
        lemma_filter_ascending(sub, p);
        assert forall|x: u32| sub.contains(x) implies s.contains(x) && x < s.last() by {
            let a = choose|a: int| 0 <= a < sub.len() && sub[a] == x;
            assert(s[a] == x);
        }
        assert forall|x: u32| s.contains(x) && x != s.last() implies sub.contains(x) by {
            let a = choose|a: int| 0 <= a < s.len() && s[a] == x;
            assert(sub[a] == x);
        }
        assert(s.contains(s.last()));
        if p(s.last()) {
            assert(out == subf.push(s.last()));
            assert forall|i: int, j: int| 0 <= i < j < out.len() implies out[i] < out[j] by {
                assert(out[i] == subf[i]);
                if j == out.len() - 1 {
                    assert(subf.contains(subf[i]));
                    assert(sub.contains(subf[i]));
                    assert(out[j] == s.last());
                } else {
                    assert(out[j] == subf[j]);
                }
            }
            assert forall|x: u32| out.contains(x) <==> (s.contains(x) && p(x)) by {
                if out.contains(x) {
                    let a = choose|a: int| 0 <= a < out.len() && out[a] == x;
                    if a < subf.len() {
                        assert(subf.contains(subf[a]));
                    }
                }
                if s.contains(x) && p(x) {
                    if x == s.last() {
                        assert(out[out.len() - 1] == x);
                    } else {
                        assert(subf.contains(x));
                        let a = choose|a: int| 0 <= a < subf.len() && subf[a] == x;
                        assert(out[a] == x);
                    }
                }
            }
        } else {
            assert(out == subf);
        }
    }
}

/// The items of an ascending stream from a bound on: ascending, and exactly the items
/// not below the bound.
pub proof fn lemma_from_bound(s: Seq<u32>, k: u32)
    requires
        ascending(s),
    ensures
        ascending(from_bound(s, k)),
        forall|x: u32| from_bound(s, k).contains(x) <==> (s.contains(x) && x >= k),
{
    lemma_filter_ascending(s, |x: u32| x >= k);
}

/// The common items of two streams, the first ascending: ascending, and exactly the
/// items that occur in both.
pub proof fn lemma_common(a: Seq<u32>, b: Seq<u32>)
    requires
        ascending(a),
    ensures
        ascending(common(a, b)),
        forall|x: u32| common(a, b).contains(x) <==> (a.contains(x) && b.contains(x)),
{
    lemma_filter_ascending(a, |x: u32| b.contains(x));
}

/// The items of an ascending stream that another lacks: ascending, and exactly the
/// items of the first that do not occur in the second.
pub proof fn lemma_without(a: Seq<u32>, b: Seq<u32>)
    requires
        ascending(a),
    ensures
        ascending(without(a, b)),
        forall|x: u32| without(a, b).contains(x) <==> (a.contains(x) && !b.contains(x)),
{
    lemma_filter_ascending(a, |x: u32| !b.contains(x));
}

/// What is left after the first item of an ascending stream: ascending, and exactly
/// the items above the first.
pub proof fn lemma_rest(s: Seq<u32>)
    requires
        ascending(s),
    ensures
        ascending(rest(s)),
        forall|x: u32| rest(s).contains(x) <==> (s.len() > 0 && s.contains(x) && x > s[0]),
{
    if s.len() > 0 {
        let r = s.skip(1);
        assert forall|x: u32| r.contains(x) <==> (s.contains(x) && x > s[0]) by {
            if r.contains(x) {
                let a = choose|a: int| 0 <= a < r.len() && r[a] == x;
                assert(s[a + 1] == x);
            }
            if s.contains(x) && x > s[0] {
                let a = choose|a: int| 0 <= a < s.len() && s[a] == x;
                assert(r[a - 1] == x);
            }
        }
    }
}

/// An item below every item of an ascending stream, put in front of it: ascending,
/// with that item and the stream's items.
pub proof fn lemma_cons(t: u32, s: Seq<u32>)
    requires
        ascending(s),
        forall|x: u32| s.contains(x) ==> t < x,
    ensures
        ascending(cons(t, s)),
        forall|x: u32| cons(t, s).contains(x) <==> (x == t || s.contains(x)),
        first(cons(t, s)) == Some(t),
        rest(cons(t, s)) == s,
{
    let c = cons(t, s);
    assert forall|i: int, j: int| 0 <= i < j < c.len() implies c[i] < c[j] by {
        assert(s.contains(s[j - 1]));
    }
    assert forall|x: u32| c.contains(x) <==> (x == t || s.contains(x)) by {
        if c.contains(x) {
            let a = choose|a: int| 0 <= a < c.len() && c[a] == x;
            if a > 0 {
                assert(s[a - 1] == x);
            }
        }
        if x == t {
            assert(c[0] == x);
        }
        if s.contains(x) {
            let a = choose|a: int| 0 <= a < s.len() && s[a] == x;
            assert(c[a + 1] == x);
        }
    }
    assert(c.skip(1) =~= s);
}

/// A stream is its first item followed by its rest.
pub proof fn lemma_first_rest(s: Seq<u32>)
    requires
        s.len() > 0,
    ensures
        s == cons(s[0], rest(s)),
{
    assert(s =~= cons(s[0], rest(s)));
}

/// In an ascending stream, an item that occurs in it and that no item is below is the first.
pub proof fn lemma_first_is_least(s: Seq<u32>, x: u32)
    requires
        ascending(s),
        s.contains(x),
        forall|y: u32| s.contains(y) ==> x <= y,
    ensures
        first(s) == Some(x),
{
    assert(s.contains(s[0]));
    let a = choose|a: int| 0 <= a < s.len() && s[a] == x;
    if a > 0 {
        assert(s[0] < s[a]);
    }
}

/// A stream without items is empty.
pub proof fn lemma_no_items(s: Seq<u32>)
    requires
        forall|x: u32| !s.contains(x),
    ensures
        s == Seq::<u32>::empty(),
{
    if s.len() > 0 {
        assert(s.contains(s[0]));
    }
    assert(s =~= Seq::<u32>::empty());
}

/// A lazy stream of ids in strictly ascending order.
///
/// `remaining` is what the stream has yet to yield. `next` takes its first
/// item; `lower_bound_next` takes its first item that is not below a bound
/// and drops the items before it. Neither ever goes back.
pub trait SkipIterator: Sized {
    /// The items that the stream has yet to yield, in order.
    spec fn remaining(&self) -> Seq<u32>;

    /// The stream's representation is consistent.
    spec fn wf(&self) -> bool;

    /// What a consistent stream has yet to yield is strictly ascending.
    proof fn lemma_remaining_ascending(&self)
        requires
            self.wf(),
        ensures
            ascending(self.remaining()),
    ;

    /// Yields the next item, or `None` when the stream is exhausted.
    fn next(&mut self) -> (r: Option<u32>)
        requires
            old(self).wf(),
        ensures
            final(self).wf(),
            r == first(old(self).remaining()),
            final(self).remaining() == rest(old(self).remaining()),
    ;

    /// Yields the next item that is not below `min_id`, dropping the items before it,
    /// or `None`, exhausting the stream, when there is none.
    fn lower_bound_next(&mut self, min_id: u32) -> (r: Option<u32>)
        requires
            old(self).wf(),
        ensures
            final(self).wf(),
            r == first(from_bound(old(self).remaining(), min_id)),
            final(self).remaining() == rest(from_bound(old(self).remaining(), min_id)),
    {
        let mut out: Option<u32> = None;
        loop
            invariant_except_break
                self.wf(),
                out is None,
                from_bound(self.remaining(), min_id) == from_bound(old(self).remaining(), min_id),
            ensures
                self.wf(),
                out == first(from_bound(old(self).remaining(), min_id)),
                self.remaining() == rest(from_bound(old(self).remaining(), min_id)),
            decreases self.remaining().len(),
        {
            let ghost s = self.remaining();
            proof {
                self.lemma_remaining_ascending();
                lemma_from_bound(s, min_id);
                lemma_rest(s);
            }
            let n = self.next();
            match n {
                Some(id) => {
                    if id >= min_id {
                        proof {
                            assert(s.contains(s[0]));
                            assert forall|x: u32| s.contains(x) implies x >= min_id by {
                                let a = choose|a: int| 0 <= a < s.len() && s[a] == x;
                                if a > 0 {
                                    assert(s[0] < s[a]);
                                }
                            }
                            lemma_ascending_unique(from_bound(s, min_id), s);
                        }
                        out = Some(id);
                        break ;
                    } else {
                        proof {
                            lemma_from_bound(rest(s), min_id);
                            assert forall|x: u32|
                                from_bound(rest(s), min_id).contains(x) <==> from_bound(
                                    s,
                                    min_id,
                                ).contains(x) by {
                                assert(rest(s).contains(x) <==> (s.contains(x) && x > s[0]));
                            }
                            lemma_ascending_unique(
                                from_bound(rest(s), min_id),
                                from_bound(s, min_id),
                            );
                        }
                    }
                },
                None => {
                    proof {
                        lemma_no_items(from_bound(s, min_id));
                    }
                    break ;
                },
            }
        }
        out
    }

    /// Drains the stream into a vector.
    fn collect(self) -> (v: Vec<u32>)
        requires
            self.wf(),
        ensures
            v@ == self.remaining(),
    {
        let mut it = self;
        let mut v: Vec<u32> = Vec::new();
        loop
            invariant_except_break
                it.wf(),
                v@ + it.remaining() == self.remaining(),
            ensures
                v@ == self.remaining(),
            decreases it.remaining().len(),
        {
            let ghost s = it.remaining();
            let ghost before = v@;
            let n = it.next();
            match n {
                Some(id) => {
                    v.push(id);
                    proof {
                        assert(v@ + it.remaining() =~= before + s);
                    }
                },
                None => {
                    proof {
                        assert(before + s =~= before);
                    }
                    break ;
                },
            }
        }
        v
    }
}

/// A stream over a sorted slice that seeks by scanning.
struct ShortLeaf<'a> {
    slice: &'a [u32],
    pos: usize,
}

/// A stream over the strictly ascending `slice`, best for short slices.
pub fn short_leaf<'a>(slice: &'a [u32]) -> (r: impl SkipIterator + 'a)
    requires
        ascending(slice@),
    ensures
        r.wf(),
        r.remaining() == slice@,
{
    let r = ShortLeaf { slice, pos: 0 };
    assert(slice@.skip(0) =~= slice@);
    r
}

impl<'a> SkipIterator for ShortLeaf<'a> {
    closed spec fn remaining(&self) -> Seq<u32> {
        self.slice@.skip(self.pos as int)
    }

    closed spec fn wf(&self) -> bool {
        self.pos <= self.slice@.len() && ascending(self.slice@)
    }

    proof fn lemma_remaining_ascending(&self) {
    }

    fn next(&mut self) -> (r: Option<u32>) {
        if self.pos < self.slice.len() {
            let x = self.slice[self.pos];
            self.pos = self.pos + 1;
            proof {
                assert(self.remaining() =~= rest(old(self).remaining()));
            }
            Some(x)
        } else {
            None
        }
    }
}

/// A stream over a sorted slice that seeks by binary search.
struct Leaf<'a> {
    slice: &'a [u32],
    pos: usize,
}

/// A stream over the strictly ascending `slice`.
pub fn leaf<'a>(slice: &'a [u32]) -> (r: impl SkipIterator + 'a)
    requires
        ascending(slice@),
    ensures
        r.wf(),
        r.remaining() == slice@,
{
    let r = Leaf { slice, pos: 0 };
    assert(slice@.skip(0) =~= slice@);
    r
}

impl<'a> SkipIterator for Leaf<'a> {
    closed spec fn remaining(&self) -> Seq<u32> {
        self.slice@.skip(self.pos as int)
    }

    closed spec fn wf(&self) -> bool {
        self.pos <= self.slice@.len() && ascending(self.slice@)
    }

    proof fn lemma_remaining_ascending(&self) {
    }

    fn next(&mut self) -> (r: Option<u32>) {
        if self.pos < self.slice.len() {
            let x = self.slice[self.pos];
            self.pos = self.pos + 1;
            proof {
                assert(self.remaining() =~= rest(old(self).remaining()));
            }
            Some(x)
        } else {
            None
        }
    }

    fn lower_bound_next(&mut self, min_id: u32) -> (r: Option<u32>) {
        let n = self.slice.len();
        let mut lo: usize = self.pos;
        let mut hi: usize = n;
        while lo < hi
            invariant
                self.pos <= lo <= hi <= n,
                n == self.slice@.len(),
                ascending(self.slice@),
                forall|j: int| self.pos <= j < lo ==> self.slice@[j] < min_id,
                forall|j: int| hi <= j < n ==> self.slice@[j] >= min_id,
            decreases hi - lo,
        {
            let mid = lo + (hi - lo) / 2;
            if self.slice[mid] < min_id {
                lo = mid + 1;
            } else {
                hi = mid;
            }
        }
        let ghost s = old(self).remaining();
        let ghost tail = self.slice@.skip(lo as int);
        proof {
            lemma_from_bound(s, min_id);
            assert forall|x: u32| tail.contains(x) <==> (s.contains(x) && x >= min_id) by {
                if tail.contains(x) {
                    let a = choose|a: int| 0 <= a < tail.len() && tail[a] == x;
                    assert(s[lo - self.pos + a] == x);
                }
                if s.contains(x) && x >= min_id {
                    let a = choose|a: int| 0 <= a < s.len() && s[a] == x;
                    assert(self.slice@[self.pos + a] == x);
                    assert(tail[self.pos + a - lo] == x);
                }
            }
            lemma_ascending_unique(tail, from_bound(s, min_id));
        }
        if lo < n {
            let x = self.slice[lo];
            self.pos = lo + 1;
            proof {
                assert(self.remaining() =~= rest(tail));
            }
            Some(x)
        } else {
            self.pos = n;
            proof {
                assert(self.remaining() =~= rest(tail));
            }
            None
        }
    }
}


/// The items that two streams have in common.
struct And<A: SkipIterator, B: SkipIterator> {
    a: A,
    b: B,
}

/// The stream of the items that `a` and `b` both yield.
pub fn and<A: SkipIterator, B: SkipIterator>(a: A, b: B) -> (r: impl SkipIterator)
    requires
        a.wf(),
        b.wf(),
    ensures
        r.wf(),
        r.remaining() == common(a.remaining(), b.remaining()),
{
    And { a, b }
}

impl<A: SkipIterator, B: SkipIterator> And<A, B> {
    /// Chases the two streams past each other, starting from `target`, which the
    /// first stream has just yielded, until both have yielded the same item.
    fn find_agreement(&mut self, target: u32) -> (r: Option<u32>)
        requires
            old(self).wf(),
            forall|x: u32| old(self).a.remaining().contains(x) ==> target < x,
        ensures
            final(self).wf(),
            r == first(common(cons(target, old(self).a.remaining()), old(self).b.remaining())),
            final(self).remaining() == rest(
                common(cons(target, old(self).a.remaining()), old(self).b.remaining()),
            ),
    {
        let ghost goal = common(cons(target, self.a.remaining()), self.b.remaining());
        let mut target = target;
        let mut out: Option<u32> = None;
        proof {
            self.a.lemma_remaining_ascending();
        }
        loop
            invariant_except_break
                self.a.wf(),
                self.b.wf(),
                out is None,
                forall|x: u32| self.a.remaining().contains(x) ==> target < x,
                goal == common(cons(target, self.a.remaining()), self.b.remaining()),
            ensures
                self.a.wf(),
                self.b.wf(),
                out == first(goal),
                common(self.a.remaining(), self.b.remaining()) == rest(goal),
            decreases self.a.remaining().len() + self.b.remaining().len(),
        {
            let ghost a0 = self.a.remaining();
            let ghost b0 = self.b.remaining();
            proof {
                self.a.lemma_remaining_ascending();
                self.b.lemma_remaining_ascending();
                lemma_cons(target, a0);
                lemma_common(cons(target, a0), b0);
                lemma_from_bound(b0, target);
                lemma_rest(from_bound(b0, target));
                lemma_rest(goal);
            }
            let found = self.b.lower_bound_next(target);
            let ghost b1 = self.b.remaining();
            match found {
                None => {
                    proof {
                        lemma_no_items(from_bound(b0, target));
                        assert forall|x: u32| !goal.contains(x) by {
                            if b0.contains(x) && x >= target {
                                assert(from_bound(b0, target).contains(x));
                            }
                        }
                        lemma_no_items(goal);
                        lemma_common(a0, b1);
                        lemma_no_items(common(a0, b1));
                    }
                    break ;
                },
                Some(other) => {
                    proof {
                        assert(from_bound(b0, target).contains(other));
                        lemma_common(a0, b1);
                    }
                    if other == target {
                        proof {
                            assert(goal.contains(target));
                            lemma_first_is_least(goal, target);
                            assert forall|x: u32| common(a0, b1).contains(x) <==> rest(
                                goal,
                            ).contains(x) by {
                                assert(b1.contains(x) <==> (from_bound(b0, target).contains(x) && x
                                    > other));
                            }
                            lemma_ascending_unique(common(a0, b1), rest(goal));
                        }
                        out = Some(target);
                        break ;
                    }
                    proof {
                        assert forall|x: u32| b0.contains(x) && x >= target implies x
                            >= other by {
                            assert(from_bound(b0, target).contains(x));
                            lemma_first_is_at_most(from_bound(b0, target), x);
                        }
                        lemma_from_bound(a0, other);
                        lemma_rest(from_bound(a0, other));
                    }
                    let again = self.a.lower_bound_next(other);
                    let ghost a1 = self.a.remaining();
                    proof {
                        lemma_common(a1, b1);
                        assert forall|x: u32| b1.contains(x) <==> (b0.contains(x) && x
                            > other) by {
                            assert(b1.contains(x) <==> (from_bound(b0, target).contains(x) && x
                                > other));
                        }
                    }
                    match again {
                        None => {
                            proof {
                                lemma_no_items(from_bound(a0, other));
                                assert forall|x: u32| !goal.contains(x) by {
                                    if a0.contains(x) && x >= other {
                                        assert(from_bound(a0, other).contains(x));
                                    }
                                }
                                lemma_no_items(goal);
                                lemma_no_items(common(a1, b1));
                            }
                            break ;
                        },
                        Some(next) => {
                            proof {
                                assert(from_bound(a0, other).contains(next));
                                assert forall|x: u32| a0.contains(x) && x >= other implies x
                                    >= next by {
                                    assert(from_bound(a0, other).contains(x));
                                    lemma_first_is_at_most(from_bound(a0, other), x);
                                }
                                assert forall|x: u32| a1.contains(x) <==> (a0.contains(x) && x
                                    > next) by {
                                    assert(a1.contains(x) <==> (from_bound(a0, other).contains(x)
                                        && x > next));
                                }
                            }
                            if next == other {
                                proof {
                                    assert(a0.contains(other));
                                    assert(b0.contains(other));
                                    assert(cons(target, a0).contains(other));
                                    assert(goal.contains(other));
                                    lemma_first_is_least(goal, other);
                                    assert forall|x: u32| common(a1, b1).contains(x) <==> rest(
                                        goal,
                                    ).contains(x) by {
                                    }
                                    lemma_ascending_unique(common(a1, b1), rest(goal));
                                }
                                out = Some(other);
                                break ;
                            }
                            proof {
                                lemma_cons(next, a1);
                                lemma_common(cons(next, a1), b1);
                                assert(a0.contains(next));
                                assert forall|x: u32| common(cons(next, a1), b1).contains(x)
                                    <==> goal.contains(x) by {
                                    if goal.contains(x) {
                                        assert(cons(target, a0).contains(x) && b0.contains(x));
                                        if x == target {
                                            assert(x >= other);
                                        }
                                        assert(a0.contains(x));
                                        assert(x >= other);
                                        assert(x >= next);
                                        assert(b1.contains(x));
                                        assert(cons(next, a1).contains(x));
                                    }
                                    if common(cons(next, a1), b1).contains(x) {
                                        assert(cons(next, a1).contains(x) && b1.contains(x));
                                        assert(a0.contains(x));
                                        assert(cons(target, a0).contains(x));
                                    }
                                }
                                lemma_ascending_unique(common(cons(next, a1), b1), goal);
                            }
                            target = next;
                        },
                    }
                },
            }
        }
        out
    }
}

/// In an ascending stream, the first item is at most any item that occurs in it.
pub proof fn lemma_first_is_at_most(s: Seq<u32>, x: u32)
    requires
        ascending(s),
        s.contains(x),
    ensures
        s.len() > 0,
        s[0] <= x,
{
    let a = choose|a: int| 0 <= a < s.len() && s[a] == x;
    if a > 0 {
        assert(s[0] < s[a]);
    }
}

impl<A: SkipIterator, B: SkipIterator> SkipIterator for And<A, B> {
    closed spec fn remaining(&self) -> Seq<u32> {
        common(self.a.remaining(), self.b.remaining())
    }

    closed spec fn wf(&self) -> bool {
        self.a.wf() && self.b.wf()
    }

    proof fn lemma_remaining_ascending(&self) {
        self.a.lemma_remaining_ascending();
        lemma_common(self.a.remaining(), self.b.remaining());
    }

    fn next(&mut self) -> (r: Option<u32>) {
        let ghost a0 = self.a.remaining();
        let ghost b0 = self.b.remaining();
        proof {
            self.a.lemma_remaining_ascending();
            lemma_rest(a0);
            lemma_common(a0, b0);
        }
        let head = self.a.next();
        match head {
            Some(target) => {
                proof {
                    lemma_first_rest(a0);
                }
                self.find_agreement(target)
            },
            None => {
                proof {
                    lemma_no_items(common(a0, b0));
                    lemma_common(self.a.remaining(), b0);
                    lemma_no_items(common(self.a.remaining(), b0));
                }
                None
            },
        }
    }

    fn lower_bound_next(&mut self, min_id: u32) -> (r: Option<u32>) {
        let ghost a0 = self.a.remaining();
        let ghost b0 = self.b.remaining();
        proof {
            self.a.lemma_remaining_ascending();
            lemma_from_bound(a0, min_id);
            lemma_rest(from_bound(a0, min_id));
            lemma_common(a0, b0);
            lemma_from_bound(common(a0, b0), min_id);
        }
        let head = self.a.lower_bound_next(min_id);
        let ghost a1 = self.a.remaining();
        match head {
            Some(target) => {
                proof {
                    lemma_first_rest(from_bound(a0, min_id));
                    lemma_common(from_bound(a0, min_id), b0);
                    assert forall|x: u32| common(from_bound(a0, min_id), b0).contains(x)
                        <==> from_bound(common(a0, b0), min_id).contains(x) by {
                        assert(from_bound(a0, min_id).contains(x) <==> (a0.contains(x) && x
                            >= min_id));
                        assert(common(a0, b0).contains(x) <==> (a0.contains(x) && b0.contains(x)));
                    }
                    lemma_ascending_unique(
                        common(from_bound(a0, min_id), b0),
                        from_bound(common(a0, b0), min_id),
                    );
                }
                self.find_agreement(target)
            },
            None => {
                proof {
                    lemma_no_items(from_bound(a0, min_id));
                    assert forall|x: u32| !from_bound(common(a0, b0), min_id).contains(x) by {
                        assert(from_bound(a0, min_id).contains(x) <==> (a0.contains(x) && x
                            >= min_id));
                        assert(common(a0, b0).contains(x) <==> (a0.contains(x) && b0.contains(x)));
                    }
                    lemma_no_items(from_bound(common(a0, b0), min_id));
                    lemma_common(a1, b0);
                    lemma_no_items(common(a1, b0));
                }
                None
            },
        }
    }
}


/// The items of one stream that another does not yield.
struct Difference<A: SkipIterator, B: SkipIterator> {
    a: A,
    /// The stream of excluded items; unset once it is exhausted.
    b: Option<B>,
    /// An excluded item that `b` has yielded already and `a` has not reached yet.
    next_excluded: Option<u32>,
}

/// The stream of the items that `a` yields and `b` does not.
pub fn diff<A: SkipIterator, B: SkipIterator>(a: A, b: B) -> (r: impl SkipIterator)
    requires
        a.wf(),
        b.wf(),
    ensures
        r.wf(),
        r.remaining() == without(a.remaining(), b.remaining()),
{
    let r = Difference { a, b: Some(b), next_excluded: None };
    proof {
        a.lemma_remaining_ascending();
        lemma_without(a.remaining(), b.remaining());
        r.lemma_kept();
        lemma_ascending_unique(r.remaining(), without(a.remaining(), b.remaining()));
    }
    r
}

impl<A: SkipIterator, B: SkipIterator> Difference<A, B> {
    /// Whether `x` is still to be left out.
    spec fn excluded(&self, x: u32) -> bool {
        match self.b {
            Some(b) => b.remaining().contains(x) || self.next_excluded == Some(x),
            None => false,
        }
    }

    /// The items of `s` that are not to be left out.
    spec fn kept(&self, s: Seq<u32>) -> Seq<u32> {
        s.filter(|x: u32| !self.excluded(x))
    }

    proof fn lemma_kept(&self)
        requires
            self.a.wf(),
        ensures
            ascending(self.remaining()),
            forall|x: u32|
                self.remaining().contains(x) <==> (self.a.remaining().contains(x)
                    && !self.excluded(x)),
    {
        self.a.lemma_remaining_ascending();
        lemma_filter_ascending(self.a.remaining(), |x: u32| !self.excluded(x));
    }

    /// Whether `id`, which `a` has just yielded, is excluded. Moves `b` up to `id`.
    fn should_skip(&mut self, id: u32) -> (r: bool)
        requires
            old(self).wf(),
        ensures
            final(self).wf(),
            final(self).a == old(self).a,
            r == old(self).excluded(id),
            forall|x: u32| x > id ==> final(self).excluded(x) == old(self).excluded(x),
    {
        if self.b.is_none() {
            return false;
        }
        let stale = match self.next_excluded {
            None => true,
            Some(e) => e < id,
        };
        if stale {
            let ghost b0 = self.b->0.remaining();
            proof {
                self.b->0.lemma_remaining_ascending();
                lemma_from_bound(b0, id);
                lemma_rest(from_bound(b0, id));
            }
            let found = match &mut self.b {
                Some(b) => b.lower_bound_next(id),
                None => None,
            };
            match found {
                Some(excluded) => {
                    proof {
                        assert(from_bound(b0, id).contains(excluded));
                        assert forall|x: u32| b0.contains(x) && x >= id implies x
                            >= excluded by {
                            assert(from_bound(b0, id).contains(x));
                            lemma_first_is_at_most(from_bound(b0, id), x);
                        }
                        assert forall|x: u32|
                            self.b->0.remaining().contains(x) <==> (b0.contains(x) && x
                                > excluded) by {
                            assert(self.b->0.remaining().contains(x) <==> (from_bound(
                                b0,
                                id,
                            ).contains(x) && x > excluded));
                        }
                    }
                    if excluded == id {
                        self.next_excluded = None;
                        true
                    } else {
                        self.next_excluded = Some(excluded);
                        false
                    }
                },
                None => {
                    proof {
                        lemma_no_items(from_bound(b0, id));
                        assert forall|x: u32| b0.contains(x) implies x < id by {
                            if x >= id {
                                assert(from_bound(b0, id).contains(x));
                            }
                        }
                    }
                    self.b = None;
                    false
                },
            }
        } else {
            let hit = match self.next_excluded {
                Some(e) => e == id,
                None => false,
            };
            if hit {
                self.next_excluded = None;
                true
            } else {
                false
            }
        }
    }
}

impl<A: SkipIterator, B: SkipIterator> SkipIterator for Difference<A, B> {
    closed spec fn remaining(&self) -> Seq<u32> {
        self.kept(self.a.remaining())
    }

    closed spec fn wf(&self) -> bool {
        &&& self.a.wf()
        &&& self.b matches Some(b) ==> {
            &&& b.wf()
            &&& self.next_excluded matches Some(e) ==> forall|x: u32|
                b.remaining().contains(x) ==> e < x
        }
    }

    proof fn lemma_remaining_ascending(&self) {
        self.lemma_kept();
    }

    fn next(&mut self) -> (r: Option<u32>) {
        let mut out: Option<u32> = None;
        let ghost goal = self.remaining();
        loop
            invariant_except_break
                self.wf(),
                out is None,
                self.remaining() == goal,
            ensures
                self.wf(),
                out == first(goal),
                self.remaining() == rest(goal),
            decreases self.a.remaining().len(),
        {
            let ghost before = *self;
            let ghost a0 = self.a.remaining();
            proof {
                self.lemma_kept();
                self.a.lemma_remaining_ascending();
                lemma_rest(a0);
                lemma_rest(goal);
            }
            let head = self.a.next();
            match head {
                Some(id) => {
                    let ghost mid = *self;
                    proof {
                        assert(a0.contains(id));
                        assert forall|x: u32| mid.excluded(x) == before.excluded(x) by {
                        }
                    }
                    let skip = self.should_skip(id);
                    proof {
                        self.lemma_kept();
                        if skip {
                            assert forall|x: u32| self.remaining().contains(x)
                                <==> goal.contains(x) by {
                                if goal.contains(x) {
                                    assert(a0.contains(x) && !before.excluded(x));
                                    assert(x != id);
                                    assert(rest(a0).contains(x));
                                }
                                if self.remaining().contains(x) {
                                    assert(rest(a0).contains(x));
                                }
                            }
                            lemma_ascending_unique(self.remaining(), goal);
                        } else {
                            assert(goal.contains(id));
                            assert forall|y: u32| goal.contains(y) implies id <= y by {
                                assert(a0.contains(y));
                                lemma_first_is_at_most(a0, y);
                            }
                            lemma_first_is_least(goal, id);
                            assert forall|x: u32| self.remaining().contains(x) <==> rest(
                                goal,
                            ).contains(x) by {
                                if rest(goal).contains(x) {
                                    assert(goal.contains(x) && x > id);
                                    assert(a0.contains(x) && !before.excluded(x));
                                    assert(rest(a0).contains(x));
                                }
                                if self.remaining().contains(x) {
                                    assert(rest(a0).contains(x));
                                    assert(a0.contains(x) && x > id);
                                    assert(goal.contains(x));
                                }
                            }
                            lemma_ascending_unique(self.remaining(), rest(goal));
                        }
                    }
                    if !skip {
                        out = Some(id);
                        break ;
                    }
                },
                None => {
                    proof {
                        self.lemma_kept();
                        lemma_no_items(goal);
                        lemma_no_items(self.remaining());
                    }
                    break ;
                },
            }
        }
        out
    }

    fn lower_bound_next(&mut self, min_id: u32) -> (r: Option<u32>) {
        let ghost before = *self;
        let ghost goal = from_bound(self.remaining(), min_id);
        let ghost a0 = self.a.remaining();
        proof {
            self.lemma_kept();
            self.a.lemma_remaining_ascending();
            lemma_from_bound(self.remaining(), min_id);
            lemma_from_bound(a0, min_id);
            lemma_rest(from_bound(a0, min_id));
            lemma_rest(goal);
        }
        let head = self.a.lower_bound_next(min_id);
        match head {
            Some(id) => {
                let ghost mid = *self;
                proof {
                    assert(from_bound(a0, min_id).contains(id));
                    assert forall|x: u32| mid.excluded(x) == before.excluded(x) by {
                    }
                    assert forall|x: u32| a0.contains(x) && x >= min_id implies id <= x by {
                        assert(from_bound(a0, min_id).contains(x));
                        lemma_first_is_at_most(from_bound(a0, min_id), x);
                    }
                    assert forall|x: u32| mid.a.remaining().contains(x) <==> (a0.contains(x) && x
                        > id) by {
                        assert(mid.a.remaining().contains(x) <==> (from_bound(
                            a0,
                            min_id,
                        ).contains(x) && x > id));
                    }
                }
                let skip = self.should_skip(id);
                proof {
                    self.lemma_kept();
                }
                if skip {
                    proof {
                        assert forall|x: u32| self.remaining().contains(x)
                            <==> goal.contains(x) by {
                            if goal.contains(x) {
                                assert(before.remaining().contains(x) && x >= min_id);
                                assert(a0.contains(x) && !before.excluded(x));
                                assert(x != id);
                            }
                        }
                        lemma_ascending_unique(self.remaining(), goal);
                    }
                    self.next()
                } else {
                    proof {
                        assert(before.remaining().contains(id));
                        assert(goal.contains(id));
                        assert forall|y: u32| goal.contains(y) implies id <= y by {
                            assert(before.remaining().contains(y) && y >= min_id);
                            assert(a0.contains(y));
                        }
                        lemma_first_is_least(goal, id);
                        assert forall|x: u32| self.remaining().contains(x) <==> rest(
                            goal,
                        ).contains(x) by {
                            if rest(goal).contains(x) {
                                assert(goal.contains(x) && x > id);
                                assert(before.remaining().contains(x) && x >= min_id);
                                assert(a0.contains(x) && !before.excluded(x));
                            }
                            if self.remaining().contains(x) {
                                assert(a0.contains(x) && x > id);
                                assert(before.remaining().contains(x));
                                assert(goal.contains(x));
                            }
                        }
                        lemma_ascending_unique(self.remaining(), rest(goal));
                    }
                    Some(id)
                }
            },
            None => {
                proof {
                    self.lemma_kept();
                    lemma_no_items(from_bound(a0, min_id));
                    assert forall|x: u32| !goal.contains(x) by {
                        if before.remaining().contains(x) && x >= min_id {
                            assert(from_bound(a0, min_id).contains(x));
                        }
                    }
                    lemma_no_items(goal);
                    lemma_no_items(self.remaining());
                }
                None
            },
        }
    }
}

/// The ids for which the predicate `f` returns `true`.
pub open spec fn accepted<F: Fn(u32) -> bool>(f: F) -> spec_fn(u32) -> bool {
    |x: u32| call_ensures(f, (x,), true)
}

/// The items of a stream that a predicate accepts.
struct Filter<Base: SkipIterator, F: Fn(u32) -> bool> {
    base: Base,
    filter: F,
    /// What the predicate computes.
    pred: Ghost<spec_fn(u32) -> bool>,
}

/// The stream of the items of `base` for which `filter` returns `true`.
///
/// The predicate must accept every id as its argument and give one answer for each.
pub fn filter_<Base: SkipIterator, F: Fn(u32) -> bool>(base: Base, filter: F) -> (r:
    impl SkipIterator)
    requires
        base.wf(),
        forall|x: u32| call_requires(filter, (x,)),
        forall|x: u32| !(call_ensures(filter, (x,), true) && call_ensures(filter, (x,), false)),
    ensures
        r.wf(),
        r.remaining() == base.remaining().filter(accepted(filter)),
{
    filter_by(base, filter, Ghost(accepted(filter)))
}

/// The stream of the items of `base` that meet `pred`, which is what `filter` computes.
pub fn filter_by<Base: SkipIterator, F: Fn(u32) -> bool>(
    base: Base,
    filter: F,
    Ghost(pred): Ghost<spec_fn(u32) -> bool>,
) -> (r: impl SkipIterator)
    requires
        base.wf(),
        forall|x: u32| call_requires(filter, (x,)),
        forall|x: u32, keep: bool| call_ensures(filter, (x,), keep) ==> keep == pred(x),
    ensures
        r.wf(),
        r.remaining() == base.remaining().filter(pred),
{
    Filter { base, filter, pred: Ghost(pred) }
}

impl<Base: SkipIterator, F: Fn(u32) -> bool> Filter<Base, F> {
    /// Whether the predicate accepts `x`.
    spec fn accepts(&self, x: u32) -> bool {
        (self.pred@)(x)
    }

    proof fn lemma_accepted(&self)
        requires
            self.base.wf(),
        ensures
            ascending(self.remaining()),
            forall|x: u32| #[trigger]
                self.remaining().contains(x) ==> self.base.remaining().contains(x)
                    && self.accepts(x),
            forall|x: u32| #[trigger]
                self.base.remaining().contains(x) && self.accepts(x)
                    ==> self.remaining().contains(x),
    {
        self.base.lemma_remaining_ascending();
        lemma_filter_ascending(self.base.remaining(), self.pred@);
    }
}

impl<Base: SkipIterator, F: Fn(u32) -> bool> SkipIterator for Filter<Base, F> {
    closed spec fn remaining(&self) -> Seq<u32> {
        self.base.remaining().filter(self.pred@)
    }

    closed spec fn wf(&self) -> bool {
        &&& self.base.wf()
        &&& forall|x: u32| call_requires(self.filter, (x,))
        &&& forall|x: u32, keep: bool|
            call_ensures(self.filter, (x,), keep) ==> keep == (self.pred@)(x)
    }

    proof fn lemma_remaining_ascending(&self) {
        self.lemma_accepted();
    }

    fn next(&mut self) -> (r: Option<u32>) {
        let mut out: Option<u32> = None;
        let ghost goal = self.remaining();
        loop
            invariant_except_break
                self.wf(),
                out is None,
                self.remaining() == goal,
                self.filter == old(self).filter,
                self.pred == old(self).pred,
            ensures
                self.wf(),
                out == first(goal),
                self.remaining() == rest(goal),
            decreases self.base.remaining().len(),
        {
            let ghost b0 = self.base.remaining();
            proof {
                self.lemma_accepted();
                self.base.lemma_remaining_ascending();
                lemma_rest(b0);
                lemma_rest(goal);
            }
            let head = self.base.next();
            match head {
                Some(id) => {
                    let keep = (self.filter)(id);
                    proof {
                        self.lemma_accepted();
                        assert(b0.contains(id));
                        if keep {
                            assert(goal.contains(id));
                            assert forall|y: u32| goal.contains(y) implies id <= y by {
                                assert(b0.contains(y));
                                lemma_first_is_at_most(b0, y);
                            }
                            lemma_first_is_least(goal, id);
                            assert forall|x: u32| self.remaining().contains(x) <==> rest(
                                goal,
                            ).contains(x) by {
                                if rest(goal).contains(x) {
                                    assert(goal.contains(x) && x > id);
                                    assert(b0.contains(x));
                                    assert(rest(b0).contains(x));
                                }
                                if self.remaining().contains(x) {
                                    assert(rest(b0).contains(x));
                                    assert(b0.contains(x) && x > id);
                                    assert(goal.contains(x));
                                }
                            }
                            lemma_ascending_unique(self.remaining(), rest(goal));
                        } else {
                            assert forall|x: u32| self.remaining().contains(x)
                                <==> goal.contains(x) by {
                                if goal.contains(x) {
                                    assert(b0.contains(x) && self.accepts(x));
                                    assert(x != id);
                                    assert(rest(b0).contains(x));
                                }
                                if self.remaining().contains(x) {
                                    assert(rest(b0).contains(x));
                                }
                            }
                            lemma_ascending_unique(self.remaining(), goal);
                        }
                    }
                    if keep {
                        out = Some(id);
                        break ;
                    }
                },
                None => {
                    proof {
                        self.lemma_accepted();
                        lemma_no_items(goal);
                        lemma_no_items(self.remaining());
                    }
                    break ;
                },
            }
        }
        out
    }

    fn lower_bound_next(&mut self, min_id: u32) -> (r: Option<u32>) {
        let ghost before = *self;
        let ghost goal = from_bound(self.remaining(), min_id);
        let ghost b0 = self.base.remaining();
        proof {
            self.lemma_accepted();
            self.base.lemma_remaining_ascending();
            lemma_from_bound(self.remaining(), min_id);
            lemma_from_bound(b0, min_id);
            lemma_rest(from_bound(b0, min_id));
            lemma_rest(goal);
        }
        let head = self.base.lower_bound_next(min_id);
        match head {
            Some(id) => {
                let keep = (self.filter)(id);
                proof {
                    self.lemma_accepted();
                    assert(self.filter == before.filter);
                    assert(before.accepts(id) == keep);
                    assert(from_bound(b0, min_id).contains(id));
                    assert(b0.contains(id) && id >= min_id);
                    assert(before.base.remaining().contains(id));
                    assert forall|x: u32| b0.contains(x) && x >= min_id implies id <= x by {
                        assert(from_bound(b0, min_id).contains(x));
                        lemma_first_is_at_most(from_bound(b0, min_id), x);
                    }
                    assert forall|x: u32| self.base.remaining().contains(x) <==> (b0.contains(x)
                        && x > id) by {
                        assert(self.base.remaining().contains(x) <==> (from_bound(
                            b0,
                            min_id,
                        ).contains(x) && x > id));
                    }
                }
                if !keep {
                    proof {
                        assert forall|x: u32| self.remaining().contains(x)
                            <==> goal.contains(x) by {
                            if goal.contains(x) {
                                assert(before.remaining().contains(x) && x >= min_id);
                                assert(b0.contains(x) && before.accepts(x));
                                assert(x != id);
                                assert(self.base.remaining().contains(x));
                                assert(self.accepts(x));
                            }
                            if self.remaining().contains(x) {
                                assert(self.base.remaining().contains(x) && self.accepts(x));
                                assert(b0.contains(x) && x > id);
                                assert(before.base.remaining().contains(x));
                                assert(before.accepts(x));
                                assert(before.remaining().contains(x));
                            }
                        }
                        lemma_ascending_unique(self.remaining(), goal);
                    }
                    self.next()
                } else {
                    proof {
                        assert(before.remaining().contains(id));
                        assert(goal.contains(id));
                        assert forall|y: u32| goal.contains(y) implies id <= y by {
                            assert(before.remaining().contains(y) && y >= min_id);
                            assert(b0.contains(y));
                        }
                        lemma_first_is_least(goal, id);
                        assert forall|x: u32| self.remaining().contains(x) <==> rest(
                            goal,
                        ).contains(x) by {
                            if rest(goal).contains(x) {
                                assert(goal.contains(x) && x > id);
                                assert(before.remaining().contains(x) && x >= min_id);
                                assert(b0.contains(x) && before.accepts(x));
                            }
                            if self.remaining().contains(x) {
                                assert(b0.contains(x) && x > id);
                                assert(before.remaining().contains(x));
                                assert(goal.contains(x));
                            }
                        }
                        lemma_ascending_unique(self.remaining(), rest(goal));
                    }
                    Some(id)
                }
            },
            None => {
                proof {
                    self.lemma_accepted();
                    lemma_no_items(from_bound(b0, min_id));
                    assert forall|x: u32| !goal.contains(x) by {
                        if before.remaining().contains(x) && x >= min_id {
                            assert(from_bound(b0, min_id).contains(x));
                        }
                    }
                    lemma_no_items(goal);
                    lemma_no_items(self.remaining());
                }
                None
            },
        }
    }
}

} // verus!
