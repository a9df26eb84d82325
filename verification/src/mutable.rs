//! An antichain over a multiset of timestamps whose multiplicities may be
//! updated in batches.

use vstd::prelude::*;
use crate::order::PartialOrder;
use crate::order::TotalOrder;
use crate::order::order_equal;
use crate::frontier::AntichainRef;
use crate::frontier::seq_less_equal;
use crate::frontier::seq_less_than;
use crate::frontier::seq_is_antichain;
use crate::frontier::slice_any_le;
use crate::frontier::slice_any_lt;

verus! {

broadcast use vstd::seq_lib::group_seq_lib_default;

/// Net count of timestamp `t` in a sequence of (timestamp, delta) updates.
pub open spec fn count_in<T>(s: Seq<(T, i64)>, t: T) -> int
    decreases s.len(),
{
    if s.len() == 0 {
        0
    } else {
        count_in(s.drop_last(), t) + if s.last().0 == t {
            s.last().1 as int
        } else {
            0
        }
    }
}

/// Net count of timestamp `t` in a sequence of wide-accumulator updates.
pub open spec fn count_acc<T>(s: Seq<(T, i128)>, t: T) -> int
    decreases s.len(),
{
    if s.len() == 0 {
        0
    } else {
        count_acc(s.drop_last(), t) + if s.last().0 == t {
            s.last().1 as int
        } else {
            0
        }
    }
}

pub proof fn lemma_count_in_push<T>(s: Seq<(T, i64)>, e: (T, i64), t: T)
    ensures
        count_in(s.push(e), t) == count_in(s, t) + if e.0 == t {
            e.1 as int
        } else {
            0
        },
{
    assert(s.push(e).drop_last() =~= s);
    assert(s.push(e).last() == e);
}

pub proof fn lemma_count_in_concat<T>(a: Seq<(T, i64)>, b: Seq<(T, i64)>, t: T)
    ensures
        count_in(a + b, t) == count_in(a, t) + count_in(b, t),
    decreases b.len(),
{
    if b.len() == 0 {
        assert(a + b =~= a);
    } else {
        lemma_count_in_concat(a, b.drop_last(), t);
        assert((a + b).drop_last() =~= a + b.drop_last());
        assert((a + b).last() == b.last());
    }
}

proof fn lemma_count_acc_concat<T>(a: Seq<(T, i128)>, b: Seq<(T, i128)>, t: T)
    ensures
        count_acc(a + b, t) == count_acc(a, t) + count_acc(b, t),
    decreases b.len(),
{
    if b.len() == 0 {
        assert(a + b =~= a);
    } else {
        lemma_count_acc_concat(a, b.drop_last(), t);
        assert((a + b).drop_last() =~= a + b.drop_last());
        assert((a + b).last() == b.last());
    }
}

/// A nonzero net count requires at least one entry with that timestamp.
pub proof fn lemma_count_in_witness<T>(s: Seq<(T, i64)>, t: T)
    requires
        count_in(s, t) != 0,
    ensures
        exists|j: int| 0 <= j < s.len() && (#[trigger] s[j]).0 == t,
    decreases s.len(),
{
    if s.len() > 0 {
        if s.last().0 == t {
            assert(s[s.len() - 1].0 == t);
        } else {
            lemma_count_in_witness(s.drop_last(), t);
            let j = choose|j: int| 0 <= j < s.drop_last().len() && (#[trigger] s.drop_last()[j]).0 == t;
            assert(s[j].0 == t);
        }
    }
}

proof fn lemma_count_in_absent<T>(s: Seq<(T, i64)>, t: T)
    requires
        forall|j: int| 0 <= j < s.len() ==> (#[trigger] s[j]).0 != t,
    ensures
        count_in(s, t) == 0,
    decreases s.len(),
{
    if s.len() > 0 {
        assert(forall|j: int|
            0 <= j < s.drop_last().len() ==> (#[trigger] s.drop_last()[j]) == s[j]);
        lemma_count_in_absent(s.drop_last(), t);
        assert(s.last() == s[s.len() - 1]);
    }
}

proof fn lemma_count_acc_absent<T>(s: Seq<(T, i128)>, t: T)
    requires
        forall|j: int| 0 <= j < s.len() ==> (#[trigger] s[j]).0 != t,
    ensures
        count_acc(s, t) == 0,
    decreases s.len(),
{
    if s.len() > 0 {
        assert(forall|j: int|
            0 <= j < s.drop_last().len() ==> (#[trigger] s.drop_last()[j]) == s[j]);
        lemma_count_acc_absent(s.drop_last(), t);
        assert(s.last() == s[s.len() - 1]);
    }
}

/// In a sequence with pairwise distinct timestamps, the net count of an
/// entry's timestamp is that entry's delta.
proof fn lemma_count_acc_entry<T>(s: Seq<(T, i128)>, a: int)
    requires
        0 <= a < s.len(),
        forall|i: int, j: int|
            0 <= i < j < s.len() ==> (#[trigger] s[i]).0 != (#[trigger] s[j]).0,
    ensures
        count_acc(s, s[a].0) == s[a].1 as int,
{
    let t = s[a].0;
    assert(s =~= s.take(a) + (seq![s[a]] + s.skip(a + 1)));
    lemma_count_acc_concat(s.take(a), seq![s[a]] + s.skip(a + 1), t);
    lemma_count_acc_concat(seq![s[a]], s.skip(a + 1), t);
    assert(forall|j: int| 0 <= j < s.take(a).len() ==> (#[trigger] s.take(a)[j]).0 != t);
    lemma_count_acc_absent(s.take(a), t);
    assert(forall|j: int| 0 <= j < s.skip(a + 1).len() ==> (#[trigger] s.skip(a + 1)[j]).0 != t);
    lemma_count_acc_absent(s.skip(a + 1), t);
    assert(seq![s[a]].drop_last() =~= Seq::<(T, i128)>::empty());
    assert(count_acc(Seq::<(T, i128)>::empty(), t) == 0);
    assert(seq![s[a]].last() == s[a]);
    assert(count_acc(seq![s[a]], t) == s[a].1 as int);
}

/// Likewise for consolidated narrow entries.
proof fn lemma_count_in_entry<T>(s: Seq<(T, i64)>, a: int)
    requires
        0 <= a < s.len(),
        forall|i: int, j: int|
            0 <= i < j < s.len() ==> (#[trigger] s[i]).0 != (#[trigger] s[j]).0,
    ensures
        count_in(s, s[a].0) == s[a].1 as int,
{
    let t = s[a].0;
    assert(s =~= s.take(a) + (seq![s[a]] + s.skip(a + 1)));
    lemma_count_in_concat(s.take(a), seq![s[a]] + s.skip(a + 1), t);
    lemma_count_in_concat(seq![s[a]], s.skip(a + 1), t);
    assert(forall|j: int| 0 <= j < s.take(a).len() ==> (#[trigger] s.take(a)[j]).0 != t);
    lemma_count_in_absent(s.take(a), t);
    assert(forall|j: int| 0 <= j < s.skip(a + 1).len() ==> (#[trigger] s.skip(a + 1)[j]).0 != t);
    lemma_count_in_absent(s.skip(a + 1), t);
    assert(seq![s[a]].drop_last() =~= Seq::<(T, i64)>::empty());
    assert(count_in(Seq::<(T, i64)>::empty(), t) == 0);
    assert(seq![s[a]].last() == s[a]);
    assert(count_in(seq![s[a]], t) == s[a].1 as int);
}

/// Timestamps ascend strictly under the total order.
pub open spec fn sorted_distinct_times<T: TotalOrder, D>(s: Seq<(T, D)>) -> bool {
    forall|i: int, j: int|
        0 <= i < j < s.len() ==> (#[trigger] s[i]).0.tle_spec((#[trigger] s[j]).0) && s[i].0
            != s[j].0
}

/// `f` is the minimal antichain of the timestamps with positive net count in `u`:
/// its elements have positive count, nothing positive lies strictly below an
/// element, every positive timestamp is at or above some element, and there
/// are no duplicates.
pub open spec fn is_frontier_for<T: PartialOrder>(f: Seq<T>, u: Seq<(T, i64)>) -> bool {
    &&& (forall|i: int| 0 <= i < f.len() ==> count_in(u, #[trigger] f[i]) > 0)
    &&& (forall|i: int, s: T|
        0 <= i < f.len() && count_in(u, s) > 0 && #[trigger] s.le_spec(f[i]) ==> s == f[i])
    &&& (forall|s: T| count_in(u, s) > 0 ==> #[trigger] seq_less_equal(f, s))
    &&& f.no_duplicates()
}

/// A frontier is an antichain.
pub proof fn lemma_frontier_is_antichain<T: PartialOrder>(f: Seq<T>, u: Seq<(T, i64)>)
    requires
        is_frontier_for(f, u),
    ensures
        seq_is_antichain(f),
{
    assert forall|i: int, j: int|
        0 <= i < f.len() && 0 <= j < f.len() && i != j implies !(#[trigger] f[i].le_spec(
        f[j])) by {
        if f[i].le_spec(f[j]) {
            assert(count_in(u, f[i]) > 0);
            assert(f[i] == f[j]);
            assert(f.no_duplicates());
        }
    }
}

/// An element of one frontier of `u` occurs in any other frontier of `u`.
proof fn lemma_frontier_covers<T: PartialOrder>(f1: Seq<T>, f2: Seq<T>, u: Seq<(T, i64)>, t: T)
    requires
        is_frontier_for(f1, u),
        is_frontier_for(f2, u),
        f1.contains(t),
    ensures
        f2.contains(t),
{
    let i = choose|i: int| 0 <= i < f1.len() && f1[i] == t;
    assert(count_in(u, f1[i]) > 0);
    assert(seq_less_equal(f2, t));
    let j = choose|j: int| 0 <= j < f2.len() && #[trigger] f2[j].le_spec(t);
    assert(count_in(u, f2[j]) > 0);
    assert(f2[j].le_spec(f1[i]));
    assert(f2[j] == f1[i]);
    assert(f2[j] == t);
}

/// Any two frontiers of the same update multiset have the same elements.
pub proof fn lemma_frontier_unique<T: PartialOrder>(f1: Seq<T>, f2: Seq<T>, u: Seq<(T, i64)>)
    requires
        is_frontier_for(f1, u),
        is_frontier_for(f2, u),
    ensures
        forall|t: T| f1.contains(t) <==> f2.contains(t),
{
    assert forall|t: T| #[trigger] f1.contains(t) implies f2.contains(t) by {
        lemma_frontier_covers(f1, f2, u, t);
    }
    assert forall|t: T| #[trigger] f2.contains(t) implies f1.contains(t) by {
        lemma_frontier_covers(f2, f1, u, t);
    }
}

/// An update is safely ignorable against frontier `f` when its timestamp lies
/// strictly beyond the frontier, or it is a decrement of a timestamp that is
/// not at or above the frontier.
pub open spec fn update_ignorable<T: PartialOrder>(f: Seq<T>, e: (T, i64)) -> bool {
    seq_less_than(f, e.0) || (e.1 < 0 && !seq_less_equal(f, e.0))
}

/// The frontier of `u` is unchanged by appending a safely ignorable update.
pub proof fn lemma_ignorable_extend<T: PartialOrder>(f: Seq<T>, u: Seq<(T, i64)>, e: (T, i64))
    requires
        is_frontier_for(f, u),
        update_ignorable(f, e),
    ensures
        is_frontier_for(f, u.push(e)),
{
    let u2 = u.push(e);
    let t = e.0;
    assert forall|s: T| #[trigger] count_in(u2, s) == count_in(u, s) + if s == t {
        e.1 as int
    } else {
        0
    } by {
        lemma_count_in_push(u, e, s);
    }
    if seq_less_than(f, t) {
        let i0 = choose|i0: int|
            0 <= i0 < f.len() && #[trigger] crate::order::strictly_less(f[i0], t);
        // no frontier element equals t, else a positive element would lie strictly below it
        assert forall|i: int| 0 <= i < f.len() implies #[trigger] f[i] != t by {
            if f[i] == t {
                assert(count_in(u, f[i0]) > 0);
                assert(f[i0].le_spec(f[i]));
                assert(f[i0] == f[i]);
            }
        }
        assert forall|i: int| 0 <= i < f.len() implies count_in(u2, #[trigger] f[i]) > 0 by {}
        assert forall|i: int, s: T|
            0 <= i < f.len() && count_in(u2, s) > 0 && #[trigger] s.le_spec(#[trigger] f[i])
            implies s == f[i] by {
            if s == t {
                // f[i0] < t <= f[i] would place a positive element strictly below f[i]
                T::le_trans(f[i0], t, f[i]);
                assert(count_in(u, f[i0]) > 0);
                assert(f[i0] == f[i]);
                assert(f[i0].le_spec(t));
                assert(t.le_spec(f[i0]));
            }
        }
        assert forall|s: T| #[trigger] count_in(u2, s) > 0 implies seq_less_equal(f, s) by {
            if s == t {
                assert(f[i0].le_spec(s));
            }
        }
    } else {
        // a decrement below the frontier: t was not positive and stays not positive
        if count_in(u, t) > 0 {
            assert(seq_less_equal(f, t));
        }
        assert(count_in(u2, t) <= 0);
        assert forall|i: int| 0 <= i < f.len() implies count_in(u2, #[trigger] f[i]) > 0 by {
            if f[i] == t {
                assert(count_in(u, f[i]) > 0);
            }
        }
        assert forall|i: int, s: T|
            0 <= i < f.len() && count_in(u2, s) > 0 && #[trigger] s.le_spec(#[trigger] f[i])
            implies s == f[i] by {
            assert(s != t);
        }
        assert forall|s: T| #[trigger] count_in(u2, s) > 0 implies seq_less_equal(f, s) by {
            assert(s != t);
        }
    }
}



proof fn lemma_count_in_zero_deltas<T>(s: Seq<(T, i64)>, t: T)
    requires
        forall|j: int| 0 <= j < s.len() ==> (#[trigger] s[j]).1 == 0,
    ensures
        count_in(s, t) == 0,
    decreases s.len(),
{
    if s.len() > 0 {
        assert(forall|j: int|
            0 <= j < s.drop_last().len() ==> (#[trigger] s.drop_last()[j]) == s[j]);
        lemma_count_in_zero_deltas(s.drop_last(), t);
        assert(s.last() == s[s.len() - 1]);
    }
}

proof fn lemma_count_acc_push<T>(s: Seq<(T, i128)>, e: (T, i128), t: T)
    ensures
        count_acc(s.push(e), t) == count_acc(s, t) + if e.0 == t {
            e.1 as int
        } else {
            0
        },
{
    assert(s.push(e).drop_last() =~= s);
    assert(s.push(e).last() == e);
}

/// Returns true if the slice holds an element equal to `t`.
fn slice_contains<T: PartialOrder>(s: &[T], t: &T) -> (r: bool)
    ensures
        r == s@.contains(*t),
{
    let n = s.len();
    let mut i: usize = 0;
    while i < n
        invariant
            0 <= i <= n,
            n == s@.len(),
            forall|l: int| 0 <= l < i ==> s@[l] != *t,
        decreases n - i,
    {
        if order_equal(&s[i], t) {
            assert(s@[i as int] == *t);
            return true;
        }
        i = i + 1;
    }
    false
}

/// Returns the least index whose timestamp is at or above `t` in a vector of
/// strictly ascending entries, or the length if there is none.
fn find_insert_position<T: TotalOrder + Copy>(temp: &Vec<(T, i128)>, t: &T) -> (p: usize)
    requires
        sorted_distinct_times(temp@),
    ensures
        p <= temp@.len(),
        forall|l: int| 0 <= l < p ==> (#[trigger] temp@[l]).0.tle_spec(*t) && temp@[l].0 != *t,
        p < temp@.len() ==> t.tle_spec(temp@[p as int].0),
{
    let n = temp.len();
    let mut p: usize = 0;
    while p < n
        invariant
            0 <= p <= n,
            n == temp@.len(),
            forall|l: int| 0 <= l < p ==> !t.tle_spec((#[trigger] temp@[l]).0),
        decreases n - p,
    {
        if t.total_less_equal(&temp[p].0) {
            proof {
                assert forall|l: int|
                    0 <= l < p implies (#[trigger] temp@[l]).0.tle_spec(*t) && temp@[l].0
                    != *t by {
                    T::tle_total(*t, temp@[l].0);
                    T::tle_total(*t, *t);
                }
            }
            return p;
        }
        p = p + 1;
    }
    proof {
        assert forall|l: int|
            0 <= l < n implies (#[trigger] temp@[l]).0.tle_spec(*t) && temp@[l].0 != *t by {
            T::tle_total(*t, temp@[l].0);
            T::tle_total(*t, *t);
        }
    }
    n
}


/// Appending only safely ignorable updates leaves the frontier correct.
proof fn lemma_ignorable_suffix<T: PartialOrder>(
    f: Seq<T>,
    u: Seq<(T, i64)>,
    suffix: Seq<(T, i64)>,
)
    requires
        is_frontier_for(f, u),
        forall|i: int| 0 <= i < suffix.len() ==> update_ignorable(f, #[trigger] suffix[i]),
    ensures
        is_frontier_for(f, u + suffix),
    decreases suffix.len(),
{
    if suffix.len() == 0 {
        assert(u + suffix =~= u);
    } else {
        assert(forall|i: int|
            0 <= i < suffix.drop_last().len() ==> (#[trigger] suffix.drop_last()[i])
                == suffix[i]);
        lemma_ignorable_suffix(f, u, suffix.drop_last());
        assert(suffix[suffix.len() - 1] == suffix.last());
        lemma_ignorable_extend(f, u + suffix.drop_last(), suffix.last());
        assert((u + suffix.drop_last()).push(suffix.last()) =~= u + suffix);
    }
}

/// An antichain over a multiset of partially ordered timestamps.
///
/// The `MutableAntichain` maintains signed multiplicities for timestamps of
/// type `T`, and exposes the set of timestamps with positive count that are
/// not greater than any other timestamp with positive count. The antichain
/// may both advance and retreat.
///
/// Updates are meant to arrive in batches; when a batch may change the
/// frontier, the frontier is rebuilt from scratch by consolidating all
/// outstanding updates under a total order that refines the partial order.
#[derive(Clone, Debug)]
pub struct MutableAntichain<T> {
    dirty: usize,
    updates: Vec<(T, i64)>,
    frontier: Vec<T>,
    frontier_temp: Vec<T>,
}

impl<T: PartialOrder> MutableAntichain<T> {
    /// The recorded updates, in arrival order.
    pub closed spec fn updates_view(&self) -> Seq<(T, i64)> {
        self.updates@
    }

    /// The maintained frontier elements.
    pub closed spec fn frontier_view(&self) -> Seq<T> {
        self.frontier@
    }

    /// How many trailing updates have not been reconciled with the frontier.
    pub closed spec fn pending(&self) -> nat {
        self.dirty as nat
    }

    /// No updates await reconciliation; queries are allowed.
    pub open spec fn is_clean(&self) -> bool {
        self.pending() == 0
    }

    /// The net count recorded for timestamp `t`.
    pub open spec fn count_of(&self, t: T) -> int {
        count_in(self.updates_view(), t)
    }

    /// Structural invariant: the frontier is duplicate-free and reconciled
    /// with all but the trailing `pending()` updates — or some trailing
    /// update is not safely ignorable, in which case the next batched update
    /// call will rebuild the frontier from scratch.
    pub open spec fn wf(&self) -> bool {
        &&& self.pending() <= self.updates_view().len()
        &&& self.frontier_view().no_duplicates()
        &&& (is_frontier_for(
            self.frontier_view(),
            self.updates_view().take(self.updates_view().len() - self.pending()),
        ) || exists|i: int|
            self.updates_view().len() - self.pending() <= i < self.updates_view().len() && !update_ignorable(
                self.frontier_view(),
                #[trigger] self.updates_view()[i],
            ))
    }

    /// Creates a new empty `MutableAntichain`.
    pub fn new() -> (r: MutableAntichain<T>)
        ensures
            r.wf(),
            r.is_clean(),
            r.updates_view() == Seq::<(T, i64)>::empty(),
            r.frontier_view() == Seq::<T>::empty(),
    {
        MutableAntichain {
            dirty: 0,
            updates: Vec::new(),
            frontier: Vec::new(),
            frontier_temp: Vec::new(),
        }
    }

    /// Removes all elements.
    pub fn clear(&mut self)
        ensures
            final(self).wf(),
            final(self).is_clean(),
            final(self).updates_view() == Seq::<(T, i64)>::empty(),
            final(self).frontier_view() == Seq::<T>::empty(),
    {
        self.dirty = 0;
        self.updates.clear();
        self.frontier.clear();
        self.frontier_temp.clear();
    }

    /// Creates a new singleton `MutableAntichain` whose one timestamp has
    /// count one.
    pub fn new_bottom(bottom: T) -> (r: MutableAntichain<T>)
        where T: Copy,
        ensures
            r.wf(),
            r.is_clean(),
            r.updates_view() =~= seq![(bottom, 1i64)],
            r.frontier_view() =~= seq![bottom],
    {
        let mut updates: Vec<(T, i64)> = Vec::new();
        updates.push((bottom, 1));
        let mut frontier: Vec<T> = Vec::new();
        frontier.push(bottom);
        let r = MutableAntichain { dirty: 0, updates, frontier, frontier_temp: Vec::new() };
        proof {
            T::le_refl(bottom);
            let u = r.updates_view().take(r.updates_view().len() - 0);
            assert(u =~= r.updates_view());
            assert forall|s: T| #[trigger] count_in(u, s) == (if s == bottom {
                1int
            } else {
                0int
            }) by {
                assert(u.drop_last() =~= Seq::<(T, i64)>::empty());
                assert(count_in(Seq::<(T, i64)>::empty(), s) == 0);
                assert(u.last() == (bottom, 1i64));
            }
            assert forall|s: T| #[trigger] count_in(u, s) > 0 implies seq_less_equal(
                r.frontier_view(),
                s,
            ) by {
                assert(s == bottom);
                assert(r.frontier_view()[0] == bottom);
            }
        }
        r
    }


    /// Deletes the contents. Unlike `clear` it records doing so: every
    /// recorded delta is set to zero and all entries become pending, so the
    /// next batched update call rebuilds (and empties) the frontier.
    pub fn empty(&mut self)
        where T: Copy,
        requires
            old(self).wf(),
        ensures
            final(self).wf(),
            final(self).pending() == final(self).updates_view().len(),
            final(self).updates_view().len() == old(self).updates_view().len(),
            forall|i: int|
                0 <= i < final(self).updates_view().len()
                    ==> (#[trigger] final(self).updates_view()[i]).0
                    == old(self).updates_view()[i].0
                    && final(self).updates_view()[i].1 == 0,
            final(self).frontier_view() == old(self).frontier_view(),
            forall|t: T| final(self).count_of(t) == 0,
    {
        let n = self.updates.len();
        let mut index: usize = 0;
        while index < n
            invariant
                0 <= index <= n,
                n == self.updates@.len(),
                n == old(self).updates_view().len(),
                self.frontier@ == old(self).frontier_view(),
                self.dirty == old(self).pending(),
                forall|i: int|
                    0 <= i < index ==> (#[trigger] self.updates@[i]).0 == old(
                        self,
                    ).updates_view()[i].0 && self.updates@[i].1 == 0,
                forall|i: int|
                    index <= i < n ==> #[trigger] self.updates@[i] == old(
                        self,
                    ).updates_view()[i],
            decreases n - index,
        {
            let e = self.updates[index];
            self.updates[index] = (e.0, 0);
            index = index + 1;
        }
        self.dirty = n;
        proof {
            let now = self.updates_view();
            let f = self.frontier_view();
            let prev = old(self).updates_view();
            assert forall|t: T| count_in(now, t) == 0 by {
                if count_in(now, t) != 0 {
                    lemma_count_in_witness(now, t);
                }
                assert forall|j: int| 0 <= j < now.len() implies (#[trigger] now[j]).1 == 0 by {}
                lemma_count_in_zero_deltas(now, t);
            }
            if f.len() == 0 {
                let u0 = now.take(now.len() - now.len());
                assert(u0 =~= Seq::<(T, i64)>::empty());
                assert forall|s: T| count_in(u0, s) > 0 implies #[trigger] seq_less_equal(
                    f,
                    s,
                ) by {
                    assert(count_in(u0, s) == 0);
                }
                assert(is_frontier_for(f, u0));
            } else {
                // find an update entry at a frontier element; zeroed, it is
                // not safely ignorable, so the next batch rebuilds
                let old_clean = prev.take(prev.len() - old(self).pending());
                if is_frontier_for(f, old_clean) {
                    assert(count_in(old_clean, f[0]) > 0);
                    lemma_count_in_witness(old_clean, f[0]);
                    let j = choose|j: int|
                        0 <= j < old_clean.len() && (#[trigger] old_clean[j]).0 == f[0];
                    assert(old_clean[j] == prev[j]);
                    assert(now[j].0 == f[0]);
                    assert(!update_ignorable(f, now[j])) by {
                        if seq_less_than(f, f[0]) {
                            let i0 = choose|i0: int|
                                0 <= i0 < f.len() && #[trigger] crate::order::strictly_less(
                                    f[i0],
                                    f[0],
                                );
                            assert(count_in(old_clean, f[i0]) > 0);
                            assert(f[i0].le_spec(f[0]));
                            assert(f[i0] == f[0]);
                        }
                    }
                } else {
                    let iw = choose|iw: int|
                        prev.len() - old(self).pending() <= iw < prev.len() && !update_ignorable(
                            f,
                            #[trigger] prev[iw],
                        );
                    assert(now[iw].0 == prev[iw].0);
                    assert(!seq_less_than(f, prev[iw].0));
                    assert(!update_ignorable(f, now[iw]));
                }
            }
        }
    }

    /// Reveals the minimal elements with positive count.
    pub fn frontier<'a>(&'a self) -> (r: AntichainRef<'a, T>)
        requires
            self.is_clean(),
        ensures
            r@ == self.frontier_view(),
    {
        AntichainRef::new(self.frontier.as_slice())
    }

    /// Returns true if there are no elements in the `MutableAntichain`.
    pub fn is_empty(&self) -> (r: bool)
        requires
            self.is_clean(),
        ensures
            r == (self.frontier_view().len() == 0),
    {
        self.frontier.len() == 0
    }

    /// Returns true if any item in the `MutableAntichain` is strictly less
    /// than the argument.
    pub fn less_than(&self, time: &T) -> (r: bool)
        requires
            self.is_clean(),
        ensures
            r == seq_less_than(self.frontier_view(), *time),
    {
        self.frontier().less_than(time)
    }

    /// Returns true if any item in the `MutableAntichain` is less than or
    /// equal to the argument.
    pub fn less_equal(&self, time: &T) -> (r: bool)
        requires
            self.is_clean(),
        ensures
            r == seq_less_equal(self.frontier_view(), *time),
    {
        self.frontier().less_equal(time)
    }

    /// Reports the net count for a queried time by a linear scan of the
    /// recorded updates.
    pub fn count_for(&self, query_time: &T) -> (r: i64)
        requires
            i64::MIN <= self.count_of(*query_time) <= i64::MAX,
        ensures
            r as int == self.count_of(*query_time),
    {
        let n = self.updates.len();
        let mut acc: i128 = 0;
        let mut i: usize = 0;
        while i < n
            invariant
                0 <= i <= n,
                n == self.updates@.len(),
                acc as int == count_in(self.updates@.take(i as int), *query_time),
                -(i as int) * 0x8000_0000_0000_0000 <= acc as int <= (i as int)
                    * 0x8000_0000_0000_0000,
            decreases n - i,
        {
            let e = &self.updates[i];
            proof {
                assert(self.updates@.take(i + 1) =~= self.updates@.take(i as int).push(
                    self.updates@[i as int],
                ));
                lemma_count_in_push(self.updates@.take(i as int), self.updates@[i as int],
                    *query_time);
            }
            if order_equal(&e.0, query_time) {
                acc = acc + (e.1 as i128);
            }
            i = i + 1;
        }
        proof {
            assert(self.updates@.take(n as int) =~= self.updates@);
        }
        acc as i64
    }



    /// Applies a batch of updates; if any might affect the frontier, the
    /// frontier is rebuilt.
    pub fn update_iter(&mut self, updates: Vec<(T, i64)>)
        where T: TotalOrder + Copy,
        requires
            old(self).wf(),
            forall|t: T|
                i64::MIN <= #[trigger] count_in(old(self).updates_view() + updates@, t)
                    <= i64::MAX,
        ensures
            final(self).wf(),
            final(self).is_clean(),
            forall|t: T|
                final(self).count_of(t) == old(self).count_of(t) + count_in(updates@, t),
            is_frontier_for(final(self).frontier_view(), final(self).updates_view()),
    {
        self.update_iter_and(updates);
    }

    /// Applies a batch of updates and reports each frontier change, as a
    /// departed time with delta `-1` or an arrived time with delta `1`.
    ///
    /// When the batch cannot affect the frontier nothing is reported; the
    /// reported changes are exactly the symmetric difference of the old and
    /// new frontiers.
    pub fn update_iter_and(&mut self, updates: Vec<(T, i64)>) -> (changes: Vec<(T, i64)>)
        where T: TotalOrder + Copy,
        requires
            old(self).wf(),
            forall|t: T|
                i64::MIN <= #[trigger] count_in(old(self).updates_view() + updates@, t)
                    <= i64::MAX,
        ensures
            final(self).wf(),
            final(self).is_clean(),
            forall|t: T|
                final(self).count_of(t) == old(self).count_of(t) + count_in(updates@, t),
            is_frontier_for(final(self).frontier_view(), final(self).updates_view()),
            changes@.no_duplicates(),
            forall|e: (T, i64)|
                #[trigger] changes@.contains(e) <==> ((e.1 == -1i64 && old(
                    self,
                ).frontier_view().contains(e.0) && !final(self).frontier_view().contains(e.0)) || (
                e.1 == 1i64 && final(self).frontier_view().contains(e.0) && !old(
                    self,
                ).frontier_view().contains(e.0))),
    {
        let n_new = updates.len();
        let mut idx: usize = 0;
        while idx < n_new
            invariant
                0 <= idx <= n_new,
                n_new == updates@.len(),
                self.wf(),
                self.updates_view() == old(self).updates_view() + updates@.take(idx as int),
                self.pending() == old(self).pending() + idx,
                self.frontier_view() == old(self).frontier_view(),
            decreases n_new - idx,
        {
            let e = updates[idx];
            proof {
                assert((old(self).updates_view() + updates@.take(idx as int)).push(
                    updates@[idx as int],
                ) =~= old(self).updates_view() + updates@.take(idx + 1));
            }
            self.update_dirty(e.0, e.1);
            idx = idx + 1;
        }
        proof {
            assert(updates@.take(n_new as int) =~= updates@);
        }
        let ghost current = self.updates_view();
        let ghost d0 = self.pending();
        let ghost len_total = current.len();
        let ghost f = self.frontier_view();
        // decide whether the recently pushed data requires rebuilding the
        // frontier; this may be so even for an empty batch, because of
        // updates left dirty earlier
        let mut rebuild_required = false;
        while self.dirty > 0 && !rebuild_required
            invariant
                self.updates_view() == current,
                self.frontier_view() == f,
                self.frontier_view().no_duplicates(),
                len_total == current.len(),
                self.pending() <= d0 <= len_total,
                !rebuild_required ==> forall|i: int|
                    len_total - d0 <= i < len_total - self.pending() ==> update_ignorable(
                        f,
                        #[trigger] current[i],
                    ),
            decreases self.pending(),
        {
            let pos = self.updates.len() - self.dirty;
            let time = self.updates[pos].0;
            let delta = self.updates[pos].1;
            let beyond_frontier = slice_any_lt(self.frontier.as_slice(), &time);
            let before_frontier = !slice_any_le(self.frontier.as_slice(), &time);
            rebuild_required = rebuild_required || !(beyond_frontier || (delta < 0
                && before_frontier));
            self.dirty = self.dirty - 1;
        }
        self.dirty = 0;
        let changes: Vec<(T, i64)>;
        if rebuild_required {
            proof {
                assert forall|t: T|
                    i64::MIN <= #[trigger] count_in(current, t) <= i64::MAX by {
                    assert(i64::MIN <= count_in(old(self).updates_view() + updates@, t)
                        <= i64::MAX);
                }
            }
            changes = self.rebuild_and();
        } else {
            proof {
                let old_clean_len = old(self).updates_view().len() - old(self).pending();
                assert(old_clean_len == len_total - d0);
                assert forall|i: int|
                    len_total - d0 <= i < len_total implies update_ignorable(
                    f,
                    #[trigger] current[i]) by {}
                // the entry state cannot have held a non-ignorable trailing
                // update, so the frontier matched the clean prefix
                if !is_frontier_for(
                    f,
                    old(self).updates_view().take(old_clean_len as int),
                ) {
                    let iw = choose|iw: int|
                        old_clean_len <= iw < old(self).updates_view().len()
                            && !update_ignorable(f, #[trigger] old(self).updates_view()[iw]);
                    assert(current[iw] == old(self).updates_view()[iw]);
                    assert(false);
                }
                assert(current.take((len_total - d0) as int) =~= old(
                    self,
                ).updates_view().take(old_clean_len as int));
                lemma_ignorable_suffix(
                    f,
                    current.take((len_total - d0) as int),
                    current.skip((len_total - d0) as int),
                );
                assert(current.take((len_total - d0) as int) + current.skip(
                    (len_total - d0) as int,
                ) =~= current);
            }
            changes = Vec::new();
        }
        proof {
            assert forall|t: T|
                final(self).count_of(t) == old(self).count_of(t) + count_in(updates@, t) by {
                lemma_count_in_concat(old(self).updates_view(), updates@, t);
            }
            assert(final(self).updates_view().take(
                final(self).updates_view().len() - 0,
            ) =~= final(self).updates_view());
        }
        changes
    }

    /// Sorts and consolidates the recorded updates under the total order,
    /// recomputes the frontier from the consolidated entries, and reports the
    /// resulting frontier changes as `(time, -1)` departures and `(time, 1)`
    /// arrivals.
    fn rebuild_and(&mut self) -> (changes: Vec<(T, i64)>)
        where T: TotalOrder + Copy,
        requires
            old(self).frontier_view().no_duplicates(),
            forall|t: T| i64::MIN <= #[trigger] count_in(old(self).updates_view(), t) <= i64::MAX,
        ensures
            final(self).pending() == old(self).pending(),
            forall|t: T|
                count_in(final(self).updates_view(), t) == count_in(
                    old(self).updates_view(),
                    t,
                ),
            is_frontier_for(final(self).frontier_view(), final(self).updates_view()),
            changes@.no_duplicates(),
            forall|e: (T, i64)|
                #[trigger] changes@.contains(e) <==> ((e.1 == -1i64 && old(
                    self,
                ).frontier_view().contains(e.0) && !final(self).frontier_view().contains(e.0)) || (
                e.1 == 1i64 && final(self).frontier_view().contains(e.0) && !old(
                    self,
                ).frontier_view().contains(e.0))),
    {
        let ghost orig = self.updates@;
        // consolidate into wide accumulators, strictly ascending by time
        let mut temp: Vec<(T, i128)> = Vec::new();
        let n = self.updates.len();
        let mut i: usize = 0;
        while i < n
            invariant
                0 <= i <= n,
                n == self.updates@.len(),
                self.updates@ == orig,
                sorted_distinct_times(temp@),
                forall|t: T| count_acc(temp@, t) == count_in(orig.take(i as int), t),
                forall|a: int|
                    0 <= a < temp@.len() ==> -(i as int) * 0x8000_0000_0000_0000 <= (
                    #[trigger] temp@[a]).1 <= (i as int) * 0x8000_0000_0000_0000,
            decreases n - i,
        {
            let e = self.updates[i];
            let p = find_insert_position(&temp, &e.0);
            let ghost prev_temp = temp@;
            if p < temp.len() && e.0.total_less_equal(&temp[p].0) && temp[p].0.total_less_equal(&e.0) {
                proof {
                    T::tle_antisym(e.0, temp@[p as int].0);
                    assert(temp@[p as int].0 == e.0);
                }
                let cur = temp[p];
                temp[p] = (cur.0, cur.1 + e.1 as i128);
                proof {
                    let newe = temp@[p as int];
                    assert(newe.0 == e.0);
                    assert(newe.1 == cur.1 + e.1 as i128);
                    assert(temp@ =~= prev_temp.take(p as int) + (seq![newe] + prev_temp.skip(
                        p + 1,
                    )));
                    assert(prev_temp =~= prev_temp.take(p as int) + (seq![prev_temp[p as int]]
                        + prev_temp.skip(p + 1)));
                    assert forall|t: T| count_acc(temp@, t) == count_acc(prev_temp, t) + (if e.0
                        == t {
                        e.1 as int
                    } else {
                        0int
                    }) by {
                        lemma_count_acc_concat(prev_temp.take(p as int), seq![newe]
                            + prev_temp.skip(p + 1), t);
                        lemma_count_acc_concat(seq![newe], prev_temp.skip(p + 1), t);
                        lemma_count_acc_concat(prev_temp.take(p as int), seq![prev_temp[p as int]]
                            + prev_temp.skip(p + 1), t);
                        lemma_count_acc_concat(seq![prev_temp[p as int]], prev_temp.skip(p + 1),
                            t);
                        assert(seq![newe].drop_last() =~= Seq::<(T, i128)>::empty());
                        assert(seq![prev_temp[p as int]].drop_last() =~= Seq::<(T, i128)>::empty());
                        assert(count_acc(Seq::<(T, i128)>::empty(), t) == 0);
                    }
                    assert(sorted_distinct_times(temp@)) by {
                        assert forall|a: int, b: int| 0 <= a < b < temp@.len() implies (
                        #[trigger] temp@[a]).0.tle_spec((#[trigger] temp@[b]).0) && temp@[a].0
                            != temp@[b].0 by {
                            assert(temp@[a].0 == prev_temp[a].0);
                            assert(temp@[b].0 == prev_temp[b].0);
                        }
                    }
                }
            } else {
                temp.insert(p, (e.0, e.1 as i128));
                proof {
                    assert(temp@ == prev_temp.insert(p as int, (e.0, e.1 as i128)));
                    assert(temp@ =~= prev_temp.take(p as int) + (seq![(e.0, e.1 as i128)]
                        + prev_temp.skip(p as int)));
                    assert(prev_temp =~= prev_temp.take(p as int) + prev_temp.skip(p as int));
                    assert forall|t: T| count_acc(temp@, t) == count_acc(prev_temp, t) + (if e.0
                        == t {
                        e.1 as int
                    } else {
                        0int
                    }) by {
                        lemma_count_acc_concat(prev_temp.take(p as int), seq![(e.0, e.1 as i128)]
                            + prev_temp.skip(p as int), t);
                        lemma_count_acc_concat(seq![(e.0, e.1 as i128)], prev_temp.skip(p as int),
                            t);
                        lemma_count_acc_concat(prev_temp.take(p as int), prev_temp.skip(p as int),
                            t);
                        assert(seq![(e.0, e.1 as i128)].drop_last() =~= Seq::<(T, i128)>::empty());
                        assert(count_acc(Seq::<(T, i128)>::empty(), t) == 0);
                    }
                    // the new entry is strictly between its neighbours
                    assert(p < prev_temp.len() ==> e.0.tle_spec(prev_temp[p as int].0)
                        && e.0 != prev_temp[p as int].0) by {
                        if p < prev_temp.len() {
                            T::tle_total(e.0, prev_temp[p as int].0);
                            if e.0 == prev_temp[p as int].0 {
                                assert(prev_temp[p as int].0.tle_spec(e.0)) by {
                                    T::tle_total(prev_temp[p as int].0, e.0);
                                }
                            }
                        }
                    }
                    assert(sorted_distinct_times(temp@)) by {
                        assert forall|a: int, b: int| 0 <= a < b < temp@.len() implies (
                        #[trigger] temp@[a]).0.tle_spec((#[trigger] temp@[b]).0) && temp@[a].0
                            != temp@[b].0 by {
                            if a < p && b == p {
                                assert(temp@[a].0 == prev_temp[a].0);
                            } else if a == p && b > p {
                                assert(temp@[b].0 == prev_temp[b - 1].0);
                                if b - 1 > p {
                                    T::tle_trans(e.0, prev_temp[p as int].0, prev_temp[b - 1].0);
                                    if e.0 == prev_temp[b - 1].0 {
                                        T::tle_antisym(e.0, prev_temp[p as int].0);
                                    }
                                }
                            } else if a < p && b > p {
                                assert(temp@[a].0 == prev_temp[a].0);
                                assert(temp@[b].0 == prev_temp[b - 1].0);
                            } else if b < p {
                                assert(temp@[a].0 == prev_temp[a].0);
                                assert(temp@[b].0 == prev_temp[b].0);
                            } else if a > p {
                                assert(temp@[a].0 == prev_temp[a - 1].0);
                                assert(temp@[b].0 == prev_temp[b - 1].0);
                            }
                        }
                    }
                }
            }
            proof {
                assert(orig.take(i + 1) =~= orig.take(i as int).push(orig[i as int]));
                assert forall|t: T| count_acc(temp@, t) == count_in(orig.take(i + 1), t) by {
                    lemma_count_in_push(orig.take(i as int), orig[i as int], t);
                }
            }
            i = i + 1;
        }
        proof {
            assert(orig.take(n as int) =~= orig);
            assert(orig == old(self).updates_view());
            assert forall|t: T| i64::MIN <= #[trigger] count_in(orig, t) <= i64::MAX by {
                assert(i64::MIN <= count_in(old(self).updates_view(), t) <= i64::MAX);
            }
        }
        // emit the non-zero consolidated entries as the new update list
        let mut new_updates: Vec<(T, i64)> = Vec::new();
        let m = temp.len();
        let mut j: usize = 0;
        while j < m
            invariant
                0 <= j <= m,
                m == temp@.len(),
                self.updates@ == orig,
                sorted_distinct_times(temp@),
                forall|t: T| count_acc(temp@, t) == count_in(orig, t),
                forall|t: T| i64::MIN <= #[trigger] count_in(orig, t) <= i64::MAX,
                forall|t: T| count_in(new_updates@, t) == count_acc(temp@.take(j as int), t),
                sorted_distinct_times(new_updates@),
                forall|a: int| 0 <= a < new_updates@.len() ==> (#[trigger] new_updates@[a]).1 != 0,
                forall|a: int|
                    0 <= a < new_updates@.len() ==> exists|jj: int|
                        0 <= jj < j && (#[trigger] new_updates@[a]).0 == temp@[jj].0,
            decreases m - j,
        {
            let e = temp[j];
            proof {
                lemma_count_acc_entry(temp@, j as int);
                assert(e.1 as int == count_in(orig, e.0));
                assert(temp@.take(j + 1) =~= temp@.take(j as int).push(temp@[j as int]));
            }
            if e.1 != 0 {
                let ghost prev_new = new_updates@;
                new_updates.push((e.0, e.1 as i64));
                proof {
                    assert forall|t: T| count_in(new_updates@, t) == count_acc(
                        temp@.take(j + 1),
                        t,
                    ) by {
                        lemma_count_in_push(prev_new, (e.0, e.1 as i64), t);
                        lemma_count_acc_push(temp@.take(j as int), temp@[j as int], t);
                    }
                    assert forall|a: int, b: int| 0 <= a < b < new_updates@.len() implies (
                    #[trigger] new_updates@[a]).0.tle_spec((#[trigger] new_updates@[b]).0)
                        && new_updates@[a].0 != new_updates@[b].0 by {
                        if b == new_updates@.len() - 1 {
                            let jj = choose|jj: int|
                                0 <= jj < j && (#[trigger] prev_new[a]).0 == temp@[jj].0;
                            assert(temp@[jj].0.tle_spec(temp@[j as int].0));
                        }
                    }
                }
            } else {
                proof {
                    assert forall|t: T| count_in(new_updates@, t) == count_acc(
                        temp@.take(j + 1),
                        t,
                    ) by {
                        lemma_count_acc_push(temp@.take(j as int), temp@[j as int], t);
                    }
                }
            }
            j = j + 1;
        }
        proof {
            assert(temp@.take(m as int) =~= temp@);
        }
        self.updates = new_updates;
        let ghost cons = self.updates@;
        // recompute the frontier from the consolidated entries, whose
        // ascending order ensures no kept element is later displaced
        self.frontier_temp.clear();
        let k_end = self.updates.len();
        let mut k: usize = 0;
        while k < k_end
            invariant
                0 <= k <= k_end,
                k_end == self.updates@.len(),
                self.updates@ == cons,
                self.frontier@ == old(self).frontier_view(),
                self.dirty == old(self).pending(),
                sorted_distinct_times(cons),
                forall|a: int| 0 <= a < cons.len() ==> (#[trigger] cons[a]).1 != 0,
                forall|t: T| count_in(cons, t) == count_in(orig, t),
                forall|a: int|
                    0 <= a < self.frontier_temp@.len() ==> exists|jj: int|
                        0 <= jj < k && (#[trigger] self.frontier_temp@[a]) == cons[jj].0
                            && cons[jj].1 > 0,
                forall|jj: int|
                    0 <= jj < k && (#[trigger] cons[jj]).1 > 0 ==> seq_less_equal(
                        self.frontier_temp@,
                        cons[jj].0,
                    ),
                forall|a: int, jj: int|
                    0 <= a < self.frontier_temp@.len() && 0 <= jj < k && (#[trigger] cons[jj]).1
                        > 0 && cons[jj].0.le_spec(#[trigger] self.frontier_temp@[a]) ==> cons[jj].0
                        == self.frontier_temp@[a],
                self.frontier_temp@.no_duplicates(),
            decreases k_end - k,
        {
            let e = self.updates[k];
            let ghost prev_ft = self.frontier_temp@;
            if e.1 > 0 {
                if !slice_any_le(self.frontier_temp.as_slice(), &e.0) {
                    self.frontier_temp.push(e.0);
                    proof {
                        let ft = self.frontier_temp@;
                        T::le_refl(e.0);
                        // earlier kept elements are not above the new one, and
                        // earlier positives cannot lie strictly below it
                        assert forall|jj: int|
                            0 <= jj < k + 1 && (#[trigger] cons[jj]).1 > 0 implies seq_less_equal(
                            ft, cons[jj].0) by {
                            if jj < k {
                                assert(seq_less_equal(prev_ft, cons[jj].0));
                                let w = choose|w: int|
                                    0 <= w < prev_ft.len() && #[trigger] prev_ft[w].le_spec(
                                        cons[jj].0,
                                    );
                                assert(ft[w].le_spec(cons[jj].0));
                            } else {
                                assert(ft[ft.len() - 1].le_spec(cons[jj].0));
                            }
                        }
                        assert forall|a: int, jj: int|
                            0 <= a < ft.len() && 0 <= jj < k + 1 && (#[trigger] cons[jj]).1 > 0
                                && cons[jj].0.le_spec(#[trigger] ft[a]) implies cons[jj].0
                            == ft[a] by {
                            if a < prev_ft.len() {
                                if jj == k {
                                    let aj = choose|aj: int|
                                        0 <= aj < k && #[trigger] prev_ft[a] == cons[aj].0
                                            && cons[aj].1 > 0;
                                    T::tle_refines(cons[k as int].0, prev_ft[a]);
                                    T::tle_antisym(cons[k as int].0, cons[aj].0);
                                }
                            } else {
                                // ft[a] is the new element
                                if jj < k {
                                    assert(seq_less_equal(prev_ft, cons[jj].0));
                                    let w = choose|w: int|
                                        0 <= w < prev_ft.len() && #[trigger] prev_ft[w].le_spec(
                                            cons[jj].0,
                                        );
                                    T::le_trans(prev_ft[w], cons[jj].0, e.0);
                                    assert(seq_less_equal(prev_ft, e.0));
                                }
                            }
                        }
                        assert(ft.no_duplicates()) by {
                            assert forall|a: int| 0 <= a < prev_ft.len() implies prev_ft[a]
                                != e.0 by {
                                if prev_ft[a] == e.0 {
                                    assert(prev_ft[a].le_spec(e.0));
                                    assert(seq_less_equal(prev_ft, e.0));
                                }
                            }
                        }
                    }
                } else {
                    proof {
                        // a positive entry already covered from below cannot
                        // lie at or below any kept element
                        assert forall|a: int, jj: int|
                            0 <= a < self.frontier_temp@.len() && 0 <= jj < k + 1 && (
                            #[trigger] cons[jj]).1 > 0 && cons[jj].0.le_spec(
                                #[trigger] self.frontier_temp@[a],
                            ) implies cons[jj].0 == self.frontier_temp@[a] by {
                            if jj == k {
                                let aj = choose|aj: int|
                                    0 <= aj < k && #[trigger] self.frontier_temp@[a]
                                        == cons[aj].0 && cons[aj].1 > 0;
                                T::tle_refines(cons[k as int].0, self.frontier_temp@[a]);
                                T::tle_antisym(cons[k as int].0, cons[aj].0);
                            }
                        }
                    }
                }
            } else {
                proof {
                    assert forall|a: int, jj: int|
                        0 <= a < self.frontier_temp@.len() && 0 <= jj < k + 1 && (
                        #[trigger] cons[jj]).1 > 0 && cons[jj].0.le_spec(
                            #[trigger] self.frontier_temp@[a],
                        ) implies cons[jj].0 == self.frontier_temp@[a] by {}
                }
            }
            k = k + 1;
        }
        proof {
            let ft = self.frontier_temp@;
            assert forall|a: int| 0 <= a < ft.len() implies count_in(cons, #[trigger] ft[a])
                > 0 by {
                let jj = choose|jj: int|
                    0 <= jj < k && #[trigger] ft[a] == cons[jj].0 && cons[jj].1 > 0;
                lemma_count_in_entry(cons, jj);
            }
            assert forall|a: int, s: T|
                0 <= a < ft.len() && count_in(cons, s) > 0 && #[trigger] s.le_spec(ft[a]) implies s
                == ft[a] by {
                lemma_count_in_witness(cons, s);
                let jj = choose|jj: int| 0 <= jj < cons.len() && (#[trigger] cons[jj]).0 == s;
                lemma_count_in_entry(cons, jj);
            }
            assert forall|s: T| count_in(cons, s) > 0 implies #[trigger] seq_less_equal(
                ft,
                s,
            ) by {
                lemma_count_in_witness(cons, s);
                let jj = choose|jj: int| 0 <= jj < cons.len() && (#[trigger] cons[jj]).0 == s;
                lemma_count_in_entry(cons, jj);
            }
            assert(is_frontier_for(ft, cons));
        }
        // report departures, swap in the new frontier, report arrivals
        let mut changes: Vec<(T, i64)> = Vec::new();
        let ghost old_f = self.frontier@;
        let ghost new_f = self.frontier_temp@;
        let a_end = self.frontier.len();
        let mut a: usize = 0;
        while a < a_end
            invariant
                0 <= a <= a_end,
                a_end == self.frontier@.len(),
                self.frontier@ == old_f,
                self.frontier_temp@ == new_f,
                self.updates@ == cons,
                old_f.no_duplicates(),
                changes@.no_duplicates(),
                forall|e: (T, i64)|
                    #[trigger] changes@.contains(e) <==> (e.1 == -1i64 && old_f.take(
                        a as int,
                    ).contains(e.0) && !new_f.contains(e.0)),
            decreases a_end - a,
        {
            let t = self.frontier[a];
            let ghost prev_changes = changes@;
            if !slice_contains(self.frontier_temp.as_slice(), &t) {
                changes.push((t, -1));
                proof {
                    assert(!prev_changes.contains((t, -1i64)));
                    assert forall|e: (T, i64)| #[trigger] changes@.contains(e) implies (e.1
                        == -1i64 && old_f.take(a + 1).contains(e.0) && !new_f.contains(e.0)) by {
                        if e != (t, -1i64) {
                            assert(prev_changes.contains(e));
                            let w = choose|w: int|
                                0 <= w < a && #[trigger] old_f.take(a as int)[w] == e.0;
                            assert(old_f.take(a + 1)[w] == e.0);
                        } else {
                            assert(old_f.take(a + 1)[a as int] == t);
                        }
                    }
                    assert forall|e: (T, i64)|
                        (e.1 == -1i64 && old_f.take(a + 1).contains(e.0) && !new_f.contains(
                            e.0,
                        )) implies #[trigger] changes@.contains(e) by {
                        let w = choose|w: int|
                            0 <= w < a + 1 && #[trigger] old_f.take(a + 1)[w] == e.0;
                        if w < a {
                            assert(old_f.take(a as int)[w] == e.0);
                            assert(prev_changes.contains(e));
                            let wc = choose|wc: int|
                                0 <= wc < prev_changes.len() && #[trigger] prev_changes[wc] == e;
                            assert(changes@[wc] == e);
                        } else {
                            assert(e.0 == t);
                            assert(changes@[changes@.len() - 1] == e);
                        }
                    }
                }
            } else {
                proof {
                    assert forall|e: (T, i64)| #[trigger] changes@.contains(e) implies (e.1
                        == -1i64 && old_f.take(a + 1).contains(e.0) && !new_f.contains(e.0)) by {
                        let w = choose|w: int|
                            0 <= w < a && #[trigger] old_f.take(a as int)[w] == e.0;
                        assert(old_f.take(a + 1)[w] == e.0);
                    }
                    assert forall|e: (T, i64)|
                        (e.1 == -1i64 && old_f.take(a + 1).contains(e.0) && !new_f.contains(
                            e.0,
                        )) implies #[trigger] changes@.contains(e) by {
                        let w = choose|w: int|
                            0 <= w < a + 1 && #[trigger] old_f.take(a + 1)[w] == e.0;
                        if w < a {
                            assert(old_f.take(a as int)[w] == e.0);
                        } else {
                            assert(e.0 == t);
                            assert(new_f.contains(t));
                        }
                    }
                }
            }
            a = a + 1;
        }
        proof {
            assert(old_f.take(a_end as int) =~= old_f);
        }
        core::mem::swap(&mut self.frontier, &mut self.frontier_temp);
        let b_end = self.frontier.len();
        let mut b: usize = 0;
        while b < b_end
            invariant
                0 <= b <= b_end,
                b_end == self.frontier@.len(),
                self.frontier@ == new_f,
                self.frontier_temp@ == old_f,
                self.updates@ == cons,
                old_f.no_duplicates(),
                new_f.no_duplicates(),
                changes@.no_duplicates(),
                forall|e: (T, i64)|
                    #[trigger] changes@.contains(e) <==> ((e.1 == -1i64 && old_f.contains(e.0)
                        && !new_f.contains(e.0)) || (e.1 == 1i64 && new_f.take(
                        b as int,
                    ).contains(e.0) && !old_f.contains(e.0))),
            decreases b_end - b,
        {
            let t = self.frontier[b];
            let ghost prev_changes = changes@;
            if !slice_contains(self.frontier_temp.as_slice(), &t) {
                changes.push((t, 1));
                proof {
                    assert(!prev_changes.contains((t, 1i64)));
                    assert forall|e: (T, i64)| #[trigger] changes@.contains(e) implies ((e.1
                        == -1i64 && old_f.contains(e.0) && !new_f.contains(e.0)) || (e.1 == 1i64
                        && new_f.take(b + 1).contains(e.0) && !old_f.contains(e.0))) by {
                        if e != (t, 1i64) {
                            assert(prev_changes.contains(e));
                            if e.1 == 1i64 && !old_f.contains(e.0) {
                                let w = choose|w: int|
                                    0 <= w < b && #[trigger] new_f.take(b as int)[w] == e.0;
                                assert(new_f.take(b + 1)[w] == e.0);
                            }
                        } else {
                            assert(new_f.take(b + 1)[b as int] == t);
                        }
                    }
                    assert forall|e: (T, i64)|
                        ((e.1 == -1i64 && old_f.contains(e.0) && !new_f.contains(e.0)) || (e.1
                            == 1i64 && new_f.take(b + 1).contains(e.0) && !old_f.contains(
                            e.0,
                        ))) implies #[trigger] changes@.contains(e) by {
                        if e.1 == 1i64 && !old_f.contains(e.0) {
                            let w = choose|w: int|
                                0 <= w < b + 1 && #[trigger] new_f.take(b + 1)[w] == e.0;
                            if w < b {
                                assert(new_f.take(b as int)[w] == e.0);
                                assert(prev_changes.contains(e));
                                let wc = choose|wc: int|
                                    0 <= wc < prev_changes.len() && #[trigger] prev_changes[wc]
                                        == e;
                                assert(changes@[wc] == e);
                            } else {
                                assert(e.0 == t);
                                assert(changes@[changes@.len() - 1] == e);
                            }
                        } else {
                            assert(prev_changes.contains(e));
                            let wc = choose|wc: int|
                                0 <= wc < prev_changes.len() && #[trigger] prev_changes[wc] == e;
                            assert(changes@[wc] == e);
                        }
                    }
                    assert(changes@.no_duplicates()) by {
                        assert forall|w: int| 0 <= w < prev_changes.len() implies prev_changes[w]
                            != (t, 1i64) by {}
                    }
                }
            } else {
                proof {
                    assert forall|e: (T, i64)| #[trigger] changes@.contains(e) implies ((e.1
                        == -1i64 && old_f.contains(e.0) && !new_f.contains(e.0)) || (e.1 == 1i64
                        && new_f.take(b + 1).contains(e.0) && !old_f.contains(e.0))) by {
                        if e.1 == 1i64 && !old_f.contains(e.0) {
                            let w = choose|w: int|
                                0 <= w < b && #[trigger] new_f.take(b as int)[w] == e.0;
                            assert(new_f.take(b + 1)[w] == e.0);
                        }
                    }
                    assert forall|e: (T, i64)|
                        ((e.1 == -1i64 && old_f.contains(e.0) && !new_f.contains(e.0)) || (e.1
                            == 1i64 && new_f.take(b + 1).contains(e.0) && !old_f.contains(
                            e.0,
                        ))) implies #[trigger] changes@.contains(e) by {
                        if e.1 == 1i64 && !old_f.contains(e.0) {
                            let w = choose|w: int|
                                0 <= w < b + 1 && #[trigger] new_f.take(b + 1)[w] == e.0;
                            if w < b {
                                assert(new_f.take(b as int)[w] == e.0);
                            } else {
                                assert(e.0 == t);
                                assert(old_f.contains(t));
                            }
                        }
                    }
                }
            }
            b = b + 1;
        }
        proof {
            assert(new_f.take(b_end as int) =~= new_f);
        }
        self.frontier_temp.clear();
        changes
    }

    /// Allows a single-element push, but dirties the antichain and prevents
    /// inspection until a batched update call reconciles it.
    pub fn update_dirty(&mut self, time: T, delta: i64)
        requires
            old(self).wf(),
        ensures
            final(self).wf(),
            final(self).updates_view() == old(self).updates_view().push((time, delta)),
            final(self).pending() == old(self).pending() + 1,
            final(self).frontier_view() == old(self).frontier_view(),
    {
        self.updates.push((time, delta));
        let n = self.updates.len();
        assert(self.dirty < n);
        self.dirty = self.dirty + 1;
        proof {
            let prev = old(self).updates_view();
            let now = self.updates_view();
            let f = self.frontier_view();
            let clean_len = prev.len() - old(self).pending();
            assert(now.take(clean_len as int) =~= prev.take(clean_len as int));
            if !is_frontier_for(f, now.take(clean_len as int)) {
                let iw = choose|iw: int|
                    clean_len <= iw < prev.len() && !update_ignorable(f, #[trigger] prev[iw]);
                assert(now[iw] == prev[iw]);
                assert(!update_ignorable(f, now[iw]));
            }
        }
    }
}

impl<T: PartialOrder> Default for MutableAntichain<T> {
    /// The empty, clean antichain.
    fn default() -> (r: Self)
        ensures
            r.wf(),
            r.is_clean(),
            r.updates_view() == Seq::<(T, i64)>::empty(),
            r.frontier_view() == Seq::<T>::empty(),
    {
        MutableAntichain::new()
    }
}

} // verus!
