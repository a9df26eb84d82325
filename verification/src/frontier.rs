//! Tracks minimal sets of mutually incomparable elements of a partial order.

use vstd::prelude::*;
use vstd::multiset::Multiset;
use crate::order::PartialOrder;
use crate::order::TotalOrder;
use crate::order::strictly_less;

verus! {

broadcast use {
    vstd::seq_lib::group_seq_lib_default,
    vstd::seq_lib::group_to_multiset_ensures,
    vstd::multiset::group_multiset_axioms,
};

/// Some element of `s` is less than or equal to `t`.
pub open spec fn seq_less_equal<T: PartialOrder>(s: Seq<T>, t: T) -> bool {
    exists|i: int| 0 <= i < s.len() && #[trigger] s[i].le_spec(t)
}

/// Some element of `s` is strictly less than `t`.
pub open spec fn seq_less_than<T: PartialOrder>(s: Seq<T>, t: T) -> bool {
    exists|i: int| 0 <= i < s.len() && #[trigger] strictly_less(s[i], t)
}

/// No element of `s` is less than or equal to another element at a distinct
/// position; with reflexivity this also rules out duplicates.
pub open spec fn seq_is_antichain<T: PartialOrder>(s: Seq<T>) -> bool {
    forall|i: int, j: int|
        0 <= i < s.len() && 0 <= j < s.len() && i != j ==> !(#[trigger] s[i].le_spec(s[j]))
}

/// A sequence that forms an antichain has no duplicate elements.
pub proof fn lemma_antichain_no_duplicates<T: PartialOrder>(s: Seq<T>)
    requires
        seq_is_antichain(s),
    ensures
        s.no_duplicates(),
{
    assert forall|i: int, j: int| 0 <= i < s.len() && 0 <= j < s.len() && i != j implies s[i]
        != s[j] by {
        if s[i] == s[j] {
            T::le_refl(s[i]);
            assert(s[i].le_spec(s[j]));
        }
    }
}

/// The sequence is ascending under the total order.
pub open spec fn sorted_tle<T: TotalOrder>(s: Seq<T>) -> bool {
    forall|i: int, j: int| 0 <= i <= j < s.len() ==> #[trigger] s[i].tle_spec(s[j])
}

/// Being an antichain is invariant under permutation.
pub proof fn lemma_antichain_permutation<T: PartialOrder>(s1: Seq<T>, s2: Seq<T>)
    requires
        seq_is_antichain(s1),
        s1.to_multiset() == s2.to_multiset(),
    ensures
        seq_is_antichain(s2),
{
    lemma_antichain_no_duplicates::<T>(s1);
    s1.lemma_multiset_has_no_duplicates();
    s2.lemma_multiset_has_no_duplicates_conv();
    assert forall|i: int, j: int|
        0 <= i < s2.len() && 0 <= j < s2.len() && i != j implies !(#[trigger] s2[i].le_spec(
        s2[j])) by {
        assert(s2[i] != s2[j]);
        assert(s2.contains(s2[i]));
        assert(s2.contains(s2[j]));
        assert(s1.to_multiset().count(s2[i]) > 0);
        assert(s1.to_multiset().count(s2[j]) > 0);
        assert(s1.contains(s2[i]));
        assert(s1.contains(s2[j]));
        let ii = choose|ii: int| 0 <= ii < s1.len() && s1[ii] == s2[i];
        let jj = choose|jj: int| 0 <= jj < s1.len() && s1[jj] == s2[j];
        assert(ii != jj);
        assert(!(s1[ii].le_spec(s1[jj])));
    }
}

/// Every element of a filtered sequence occurs in the original.
proof fn lemma_filter_subset<T>(s: Seq<T>, pred: spec_fn(T) -> bool)
    ensures
        forall|k: int|
            0 <= k < s.filter(pred).len() ==> s.contains(#[trigger] s.filter(pred)[k]),
    decreases s.len(),
{
    reveal(Seq::filter);
    if s.len() > 0 {
        lemma_filter_subset(s.drop_last(), pred);
        assert forall|k: int| 0 <= k < s.filter(pred).len() implies s.contains(
            #[trigger] s.filter(pred)[k],
        ) by {
            let sub = s.drop_last().filter(pred);
            if k < sub.len() {
                assert(s.drop_last().contains(sub[k]));
                let i = choose|i: int| 0 <= i < s.drop_last().len() && s.drop_last()[i] == sub[k];
                assert(s[i] == sub[k]);
            } else {
                assert(s.filter(pred)[k] == s.last());
                assert(s[s.len() - 1] == s.last());
            }
        }
    }
}

/// Filtering a duplicate-free sequence yields a duplicate-free sequence.
proof fn lemma_filter_no_duplicates<T>(s: Seq<T>, pred: spec_fn(T) -> bool)
    requires
        s.no_duplicates(),
    ensures
        s.filter(pred).no_duplicates(),
    decreases s.len(),
{
    reveal(Seq::filter);
    if s.len() > 0 {
        assert(s.drop_last().no_duplicates());
        lemma_filter_no_duplicates(s.drop_last(), pred);
        let sub = s.drop_last().filter(pred);
        if pred(s.last()) {
            lemma_filter_subset(s.drop_last(), pred);
            assert forall|k: int| 0 <= k < sub.len() implies sub[k] != s.last() by {
                assert(s.drop_last().contains(sub[k]));
                let i = choose|i: int|
                    0 <= i < s.drop_last().len() && s.drop_last()[i] == sub[k];
                assert(s[i] == sub[k]);
            }
        }
    }
}

/// Extending the considered prefix by one element either appends it to the
/// filtered sequence or leaves the filtered sequence unchanged.
proof fn lemma_filter_take_step<T>(s: Seq<T>, pred: spec_fn(T) -> bool, i: int)
    requires
        0 <= i < s.len(),
    ensures
        pred(s[i]) ==> s.take(i + 1).filter(pred) == s.take(i).filter(pred).push(s[i]),
        !pred(s[i]) ==> s.take(i + 1).filter(pred) == s.take(i).filter(pred),
{
    assert(s.take(i + 1) =~= s.take(i) + seq![s[i]]);
    reveal_with_fuel(Seq::filter, 2);
    assert(seq![s[i]].drop_last() =~= Seq::<T>::empty());
    if pred(s[i]) {
        assert(seq![s[i]].filter(pred) =~= Seq::<T>::empty().push(s[i]));
        assert(s.take(i + 1).filter(pred) =~= s.take(i).filter(pred).push(s[i]));
    } else {
        assert(seq![s[i]].filter(pred) =~= Seq::<T>::empty());
        assert(s.take(i + 1).filter(pred) =~= s.take(i).filter(pred));
    }
}


/// A sequence containing `e` itself always has an element less than or equal
/// to `e`; with `insert`'s contract this means inserting an element that is
/// already present (or equivalent to a present one) returns false and leaves
/// the antichain unchanged.
pub proof fn lemma_insert_rejects_equivalent<T: PartialOrder>(s: Seq<T>, e: T)
    requires
        exists|i: int| 0 <= i < s.len() && #[trigger] s[i].le_spec(e) && e.le_spec(s[i]),
    ensures
        seq_less_equal(s, e),
{
    let i = choose|i: int| 0 <= i < s.len() && #[trigger] s[i].le_spec(e) && e.le_spec(s[i]);
    assert(s[i].le_spec(e));
}

/// A set of mutually incomparable elements.
///
/// An antichain is a set of partially ordered elements, each of which is
/// incomparable to the others. Elements may be introduced repeatedly; larger
/// elements are evicted so that the *minimal* antichain is maintained.
#[derive(Clone, Debug, PartialEq, Eq)]
pub struct Antichain<T> {
    elements: Vec<T>,
}

impl<T> View for Antichain<T> {
    type V = Seq<T>;

    closed spec fn view(&self) -> Seq<T> {
        self.elements@
    }
}

impl<T: PartialOrder> Antichain<T> {
    /// The stored elements are mutually incomparable.
    pub open spec fn wf(&self) -> bool {
        seq_is_antichain(self@)
    }

    /// Creates a new empty `Antichain`.
    pub fn new() -> (r: Antichain<T>)
        ensures
            r@ == Seq::<T>::empty(),
            r.wf(),
    {
        Antichain { elements: Vec::new() }
    }

    /// Creates a new singleton `Antichain`.
    pub fn from_elem(element: T) -> (r: Antichain<T>)
        ensures
            r@ =~= seq![element],
            r.wf(),
    {
        proof {
            T::le_refl(element);
        }
        let mut elements: Vec<T> = Vec::new();
        elements.push(element);
        Antichain { elements }
    }

    /// Clears the contents of the antichain.
    pub fn clear(&mut self)
        ensures
            final(self)@ == Seq::<T>::empty(),
            final(self).wf(),
    {
        self.elements.clear()
    }

    /// Updates the `Antichain` if the element is not greater than or equal to
    /// some present element.
    ///
    /// Returns true exactly when no present element is less than or equal to
    /// the new one; in that case every present element that the new one is
    /// less than or equal to is evicted, and the new element appended.
    pub fn insert(&mut self, element: T) -> (r: bool)
        requires
            old(self).wf(),
        ensures
            final(self).wf(),
            r == !seq_less_equal(old(self)@, element),
            !r ==> *final(self) == *old(self),
            r ==> final(self)@ == old(self)@.filter(|x: T| !element.le_spec(x)).push(element),
    {
        if slice_any_le(self.elements.as_slice(), &element) {
            false
        } else {
            let ghost orig = self.elements@;
            let ghost pred = |x: T| !element.le_spec(x);
            let mut p: usize = 0;
            let ghost mut k: int = 0;
            while p < self.elements.len()
                invariant
                    pred == (|x: T| !element.le_spec(x)),
                    0 <= k <= orig.len(),
                    p == orig.take(k).filter(pred).len(),
                    self.elements@ == orig.take(k).filter(pred) + orig.skip(k),
                decreases orig.len() - k,
            {
                proof {
                    assert(orig.skip(k).len() > 0);
                    assert(self.elements@[p as int] == orig.skip(k)[0]);
                    assert(orig.skip(k)[0] == orig[k]);
                    lemma_filter_take_step(orig, pred, k);
                }
                let ghost pre = self.elements@;
                if element.less_equal(&self.elements[p]) {
                    self.elements.remove(p);
                    proof {
                        assert(element.le_spec(orig[k]));
                        assert(!pred(orig[k]));
                        assert(orig.take(k + 1).filter(pred) == orig.take(k).filter(pred));
                        assert(self.elements@ == pre.remove(p as int));
                        assert(pre.remove(p as int) =~= orig.take(k).filter(pred) + orig.skip(
                            k + 1,
                        ));
                    }
                } else {
                    p = p + 1;
                    proof {
                        assert(!element.le_spec(orig[k]));
                        assert(pred(orig[k]));
                        assert(orig.take(k + 1).filter(pred) == orig.take(k).filter(pred).push(
                            orig[k],
                        ));
                        assert(orig.take(k).filter(pred).push(orig[k]) =~= orig.take(k).filter(
                            pred,
                        ) + seq![orig[k]]);
                        assert(pre =~= orig.take(k + 1).filter(pred) + orig.skip(k + 1));
                    }
                }
                proof {
                    k = k + 1;
                }
            }
            proof {
                assert(orig.skip(k).len() == 0);
                assert(k == orig.len());
                assert(orig.take(k) =~= orig);
                assert(self.elements@ =~= orig.filter(pred));
            }
            self.elements.push(element);
            proof {
                lemma_antichain_no_duplicates::<T>(orig);
                lemma_filter_no_duplicates(orig, pred);
                lemma_filter_subset(orig, pred);
                T::le_refl(element);
                let f = orig.filter(pred);
                let newseq = self.elements@;
                assert(newseq == f.push(element));
                assert forall|i: int, j: int|
                    0 <= i < newseq.len() && 0 <= j < newseq.len() && i != j implies !(
                newseq[i].le_spec(newseq[j])) by {
                    if i < f.len() && j < f.len() {
                        assert(orig.contains(f[i]));
                        assert(orig.contains(f[j]));
                        let ii = choose|ii: int| 0 <= ii < orig.len() && orig[ii] == f[i];
                        let jj = choose|jj: int| 0 <= jj < orig.len() && orig[jj] == f[j];
                        assert(f[i] != f[j]);
                        assert(!(orig[ii].le_spec(orig[jj])));
                    } else if i < f.len() {
                        // j is the new element: no original element is <= it
                        assert(orig.contains(f[i]));
                        let ii = choose|ii: int| 0 <= ii < orig.len() && orig[ii] == f[i];
                        assert(!orig[ii].le_spec(element));
                    } else {
                        // i is the new element: kept elements satisfy the filter
                        assert(pred(f[j]));
                    }
                }
            }
            true
        }
    }

    /// Sorts the elements under the total order so that comparisons between
    /// antichains can be made.
    pub fn sort(&mut self) where T: TotalOrder
        ensures
            final(self)@.to_multiset() == old(self)@.to_multiset(),
            sorted_tle(final(self)@),
            old(self).wf() ==> final(self).wf(),
    {
        sort_vec_total(&mut self.elements);
        proof {
            if old(self).wf() {
                lemma_antichain_permutation::<T>(old(self)@, self@);
            }
        }
    }

    /// Returns true if any item in the antichain is strictly less than the argument.
    pub fn less_than(&self, time: &T) -> (r: bool)
        ensures
            r == seq_less_than(self@, *time),
    {
        slice_any_lt(self.elements.as_slice(), time)
    }

    /// Returns true if any item in the antichain is less than or equal to the argument.
    pub fn less_equal(&self, time: &T) -> (r: bool)
        ensures
            r == seq_less_equal(self@, *time),
    {
        slice_any_le(self.elements.as_slice(), time)
    }

    /// Returns true if every element of `other` is greater or equal to some
    /// element of `self`.
    pub fn dominates(&self, other: &Antichain<T>) -> (r: bool)
        ensures
            r == forall|j: int|
                0 <= j < other@.len() ==> seq_less_equal(self@, #[trigger] other@[j]),
    {
        let n = other.elements.len();
        let mut j: usize = 0;
        let mut all: bool = true;
        while j < n
            invariant
                0 <= j <= n,
                n == other@.len(),
                all == forall|l: int| 0 <= l < j ==> seq_less_equal(self@, #[trigger] other@[l]),
            decreases n - j,
        {
            let covered = slice_any_le(self.elements.as_slice(), &other.elements[j]);
            all = all && covered;
            j = j + 1;
        }
        all
    }

    /// Reveals the elements in the antichain.
    pub fn elements(&self) -> (r: &[T])
        ensures
            r@ == self@,
    {
        self.elements.as_slice()
    }
}

/// Sorts a vector ascending under the total order, by repeatedly moving a
/// least remaining element to the output.
fn sort_vec_total<T: TotalOrder>(v: &mut Vec<T>)
    ensures
        final(v)@.to_multiset() == old(v)@.to_multiset(),
        sorted_tle(final(v)@),
{
    let mut out: Vec<T> = Vec::new();
    while v.len() > 0
        invariant
            out@.to_multiset().add(v@.to_multiset()) == old(v)@.to_multiset(),
            sorted_tle(out@),
            forall|a: int, b: int|
                0 <= a < out@.len() && 0 <= b < v@.len() ==> #[trigger] out@[a].tle_spec(
                    #[trigger] v@[b],
                ),
        decreases v.len(),
    {
        let mut m: usize = 0;
        let mut i: usize = 1;
        proof {
            T::tle_total(v@[0], v@[0]);
        }
        while i < v.len()
            invariant
                0 <= m < i <= v@.len(),
                v@.len() > 0,
                forall|l: int| 0 <= l < i ==> #[trigger] v@[m as int].tle_spec(v@[l]),
            decreases v@.len() - i,
        {
            if v[i].total_less_equal(&v[m]) {
                proof {
                    assert forall|l: int| 0 <= l < i + 1 implies #[trigger] v@[
                        i as int].tle_spec(v@[l]) by {
                        if l < i {
                            T::tle_trans(v@[i as int], v@[m as int], v@[l]);
                        } else {
                            T::tle_total(v@[i as int], v@[i as int]);
                        }
                    }
                }
                m = i;
            } else {
                proof {
                    T::tle_total(v@[i as int], v@[m as int]);
                }
            }
            i = i + 1;
        }
        let ghost prev = v@;
        let ghost prev_out = out@;
        let x = v.remove(m);
        out.push(x);
        proof {
            assert(prev.to_multiset().count(x) > 0) by {
                assert(prev.contains(prev[m as int]));
            }
            assert(out@.to_multiset().add(v@.to_multiset()) =~= prev_out.to_multiset().add(
                prev.to_multiset(),
            ));
            assert forall|a: int, b: int|
                0 <= a < out@.len() && 0 <= b < v@.len() implies #[trigger] out@[a].tle_spec(
                #[trigger] v@[b]) by {
                let bb = if b < m { b } else { b + 1 };
                assert(v@[b] == prev[bb]);
                if a < prev_out.len() {
                    assert(prev_out[a].tle_spec(prev[bb]));
                } else {
                    assert(out@[a] == prev[m as int]);
                }
            }
            assert forall|a: int, b: int| 0 <= a <= b < out@.len() implies #[trigger] out@[
                a].tle_spec(out@[b]) by {
                if b < prev_out.len() {
                    assert(prev_out[a].tle_spec(prev_out[b]));
                } else if a < prev_out.len() {
                    assert(prev_out[a].tle_spec(prev[m as int]));
                } else {
                    T::tle_total(prev[m as int], prev[m as int]);
                }
            }
        }
    }
    proof {
        assert(v@.to_multiset() =~= Multiset::<T>::empty());
        assert(out@.to_multiset().add(v@.to_multiset()) =~= out@.to_multiset());
    }
    *v = out;
}

/// A borrowed, read-only view over a contiguous sequence of elements whose
/// contents the caller promises form an antichain; it offers the query
/// surface of an antichain without owning the storage.
#[derive(PartialEq, Eq)]
pub struct AntichainRef<'a, T> {
    frontier: &'a [T],
}

impl<'a, T> View for AntichainRef<'a, T> {
    type V = Seq<T>;

    closed spec fn view(&self) -> Seq<T> {
        self.frontier@
    }
}

impl<'a, T: PartialOrder> AntichainRef<'a, T> {
    /// Create a new `AntichainRef` from a reference to a slice of elements
    /// forming the frontier.
    pub fn new(frontier: &'a [T]) -> (r: Self)
        ensures
            r@ == frontier@,
    {
        AntichainRef { frontier }
    }

    /// Returns true if there are no elements in the `AntichainRef`.
    pub fn is_empty(&self) -> (r: bool)
        ensures
            r == (self@.len() == 0),
    {
        self.frontier.len() == 0
    }

    /// Returns the number of elements in this `AntichainRef`.
    pub fn len(&self) -> (r: usize)
        ensures
            r == self@.len(),
    {
        self.frontier.len()
    }

    /// Reveals the underlying elements, for iteration.
    pub fn iter(&self) -> (r: &'a [T])
        ensures
            r@ == self@,
    {
        self.frontier
    }

    /// Returns true if any item in the `AntichainRef` is strictly less than the argument.
    pub fn less_than(&self, time: &T) -> (r: bool)
        ensures
            r == seq_less_than(self@, *time),
    {
        slice_any_lt(self.frontier, time)
    }

    /// Returns true if any item in the `AntichainRef` is less than or equal to the argument.
    pub fn less_equal(&self, time: &T) -> (r: bool)
        ensures
            r == seq_less_equal(self@, *time),
    {
        slice_any_le(self.frontier, time)
    }

    /// Copies `self` into a new `Vec`.
    pub fn to_vec(&self) -> (r: Vec<T>)
        where T: Copy,
        ensures
            r@ == self@,
    {
        let mut r: Vec<T> = Vec::new();
        let n = self.frontier.len();
        let mut i: usize = 0;
        while i < n
            invariant
                0 <= i <= n,
                n == self@.len(),
                r@ == self@.take(i as int),
        decreases n - i,
        {
            r.push(self.frontier[i]);
            i = i + 1;
            proof {
                assert(r@ =~= self@.take(i as int));
            }
        }
        proof {
            assert(self@.take(n as int) =~= self@);
        }
        r
    }
}

impl<T: PartialOrder> Default for Antichain<T> {
    /// The empty antichain.
    fn default() -> (r: Self)
        ensures
            r@ == Seq::<T>::empty(),
            r.wf(),
    {
        Antichain::new()
    }
}

/// Returns true if any element of the slice is less than or equal to `t`.
pub(crate) fn slice_any_le<T: PartialOrder>(s: &[T], t: &T) -> (r: bool)
    ensures
        r == seq_less_equal(s@, *t),
{
    let n = s.len();
    let mut i: usize = 0;
    while i < n
        invariant
            0 <= i <= n,
            n == s@.len(),
            !seq_less_equal(s@.take(i as int), *t),
        decreases n - i,
    {
        if s[i].less_equal(t) {
            assert(s@[i as int].le_spec(*t));
            return true;
        }
        i = i + 1;
        proof {
            assert forall|l: int| 0 <= l < i implies !(#[trigger] s@.take(i as int)[l].le_spec(
                *t,
            )) by {
                assert(s@.take(i as int)[l] == s@[l]);
                if l < i - 1 {
                    assert(s@.take(i - 1 as int)[l] == s@[l]);
                }
            }
        }
    }
    proof {
        assert(s@.take(n as int) =~= s@);
    }
    false
}

/// Returns true if any element of the slice is strictly less than `t`.
pub(crate) fn slice_any_lt<T: PartialOrder>(s: &[T], t: &T) -> (r: bool)
    ensures
        r == seq_less_than(s@, *t),
{
    let n = s.len();
    let mut i: usize = 0;
    while i < n
        invariant
            0 <= i <= n,
            n == s@.len(),
            !seq_less_than(s@.take(i as int), *t),
        decreases n - i,
    {
        if s[i].less_than(t) {
            assert(strictly_less(s@[i as int], *t));
            return true;
        }
        i = i + 1;
        proof {
            assert forall|l: int| 0 <= l < i implies !(#[trigger] strictly_less(
                s@.take(i as int)[l],
                *t,
            )) by {
                assert(s@.take(i as int)[l] == s@[l]);
                if l < i - 1 {
                    assert(s@.take(i - 1 as int)[l] == s@[l]);
                }
            }
        }
    }
    proof {
        assert(s@.take(n as int) =~= s@);
    }
    false
}

} // verus!
