//! A single-channel timeline: an ordered map from time to value.
//!
//! Entries are held in a vector sorted by strictly increasing time key.
//! The logical value at a time `t` is the value of the greatest key at or
//! before `t`, or the type default when no key qualifies (zero-order-hold
//! floor semantics).  Compaction removes entries whose value equals the
//! held value just before them; it is proved to preserve every floor
//! query.

use vstd::prelude::*;

verus! {

use crate::value::ChannelValue;

/// Some entry carries the key `t`.
pub open spec fn key_in<T>(s: Seq<(usize, T)>, t: usize) -> bool {
    exists|k: int| 0 <= k < s.len() && #[trigger] s[k].0 == t
}

/// Keys are strictly increasing.
pub open spec fn keys_sorted<T>(s: Seq<(usize, T)>) -> bool {
    forall|i: int, j: int| 0 <= i < j < s.len() ==> #[trigger] s[i].0 < #[trigger] s[j].0
}

/// The value stored at exactly time `t`, if any.
pub open spec fn get_at<T>(s: Seq<(usize, T)>, t: usize) -> Option<T>
    decreases s.len(),
{
    if s.len() == 0 {
        None
    } else if s.last().0 == t {
        Some(s.last().1)
    } else {
        get_at(s.drop_last(), t)
    }
}

/// The entry value at the greatest key at or before `t`, if any.
pub open spec fn floor_entry<T>(s: Seq<(usize, T)>, t: usize) -> Option<T>
    decreases s.len(),
{
    if s.len() == 0 {
        None
    } else if s.last().0 <= t {
        Some(s.last().1)
    } else {
        floor_entry(s.drop_last(), t)
    }
}

/// The held value at time `t`: the floor entry, or the default `d`.
pub open spec fn floor_val<T>(s: Seq<(usize, T)>, t: usize, d: T) -> T {
    match floor_entry(s, t) {
        Some(v) => v,
        None => d,
    }
}

/// The timeline after inserting (or overwriting) `value` at `time`,
/// keeping keys sorted.
pub open spec fn spec_insert<T>(s: Seq<(usize, T)>, time: usize, value: T) -> Seq<(usize, T)>
    decreases s.len(),
{
    if s.len() == 0 {
        seq![(time, value)]
    } else if s.last().0 < time {
        s.push((time, value))
    } else if s.last().0 == time {
        s.drop_last().push((time, value))
    } else {
        spec_insert(s.drop_last(), time, value).push(s.last())
    }
}

/// The timeline after removing the entry at exactly `time`, if present.
pub open spec fn spec_remove<T>(s: Seq<(usize, T)>, time: usize) -> Seq<(usize, T)>
    decreases s.len(),
{
    if s.len() == 0 {
        s
    } else if s.last().0 == time {
        s.drop_last()
    } else {
        spec_remove(s.drop_last(), time).push(s.last())
    }
}

/// The last stored value, or `d` for an empty timeline.  This equals the
/// held value at and after the last key.
pub open spec fn last_val<K, T>(s: Seq<(K, T)>, d: T) -> T {
    if s.len() == 0 {
        d
    } else {
        s.last().1
    }
}

/// The compacted timeline: an entry survives exactly when its value
/// differs from the value of the entry just before it (or from `d` for
/// the first entry).
pub open spec fn opt_seq<K, T>(s: Seq<(K, T)>, d: T) -> Seq<(K, T)>
    decreases s.len(),
{
    if s.len() == 0 {
        s
    } else {
        let rest = opt_seq(s.drop_last(), d);
        if s.last().1 == last_val(s.drop_last(), d) {
            rest
        } else {
            rest.push(s.last())
        }
    }
}

/// No entry repeats the held value just before it.
pub open spec fn is_minimal<K, T>(s: Seq<(K, T)>, d: T) -> bool {
    forall|i: int|
        0 <= i < s.len() ==> #[trigger] s[i].1 != (if i == 0 {
            d
        } else {
            s[i - 1].1
        })
}

/// An entry of a sorted timeline bounds the keys before it.
pub proof fn lemma_sorted_prefix<T>(s: Seq<(usize, T)>)
    requires
        keys_sorted(s),
        s.len() > 0,
    ensures
        keys_sorted(s.drop_last()),
{
    assert forall|i: int, j: int|
        0 <= i < j < s.drop_last().len() implies #[trigger] s.drop_last()[i].0
        < #[trigger] s.drop_last()[j].0 by {
        assert(s[i].0 < s[j].0);
    }
}

/// Positional reading of `floor_entry`: the entry at the partition point
/// is the floor entry.
pub proof fn lemma_floor_entry_position<T>(s: Seq<(usize, T)>, t: usize, i: int)
    requires
        keys_sorted(s),
        0 <= i < s.len(),
        s[i].0 <= t,
        i == s.len() - 1 || s[i + 1].0 > t,
    ensures
        floor_entry(s, t) == Some(s[i].1),
    decreases s.len(),
{
    if i == s.len() - 1 {
    } else {
        assert(s.last().0 > t);
        lemma_sorted_prefix(s);
        lemma_floor_entry_position(s.drop_last(), t, i);
    }
}

/// When every key lies beyond `t`, there is no floor entry.
pub proof fn lemma_floor_entry_none<T>(s: Seq<(usize, T)>, t: usize)
    requires
        forall|i: int| 0 <= i < s.len() ==> #[trigger] s[i].0 > t,
    ensures
        floor_entry(s, t) is None,
    decreases s.len(),
{
    if s.len() > 0 {
        lemma_floor_entry_none(s.drop_last(), t);
    }
}

/// Positional reading of `get_at` for a sorted timeline.
pub proof fn lemma_get_at_position<T>(s: Seq<(usize, T)>, t: usize, i: int)
    requires
        0 <= i < s.len(),
        s[i].0 == t,
        forall|j: int| 0 <= j < s.len() && j != i ==> #[trigger] s[j].0 != t,
    ensures
        get_at(s, t) == Some(s[i].1),
    decreases s.len(),
{
    if i == s.len() - 1 {
    } else {
        assert(s.last().0 != t);
        lemma_get_at_position(s.drop_last(), t, i);
    }
}

/// When no key equals `t`, `get_at` finds nothing.
pub proof fn lemma_get_at_none<T>(s: Seq<(usize, T)>, t: usize)
    requires
        forall|i: int| 0 <= i < s.len() ==> #[trigger] s[i].0 != t,
    ensures
        get_at(s, t) is None,
    decreases s.len(),
{
    if s.len() > 0 {
        lemma_get_at_none(s.drop_last(), t);
    }
}

/// Inserting at a fresh key splits the timeline at the partition point.
pub proof fn lemma_spec_insert_split<T>(s: Seq<(usize, T)>, time: usize, value: T, p: int)
    requires
        keys_sorted(s),
        0 <= p <= s.len(),
        forall|i: int| 0 <= i < p ==> #[trigger] s[i].0 < time,
        forall|i: int| p <= i < s.len() ==> #[trigger] s[i].0 > time,
    ensures
        spec_insert(s, time, value) =~= s.subrange(0, p) + seq![(time, value)] + s.subrange(
            p,
            s.len() as int,
        ),
    decreases s.len(),
{
    if s.len() == 0 {
    } else if s.last().0 < time {
        assert(p == s.len());
        assert(s.subrange(0, p) =~= s);
        assert(s.subrange(p, s.len() as int) =~= Seq::empty());
    } else {
        assert(s.last().0 > time);
        assert(p < s.len());
        lemma_sorted_prefix(s);
        lemma_spec_insert_split(s.drop_last(), time, value, p);
        assert(s.drop_last().subrange(0, p) =~= s.subrange(0, p));
        assert(s.drop_last().subrange(p, s.len() - 1).push(s.last()) =~= s.subrange(
            p,
            s.len() as int,
        ));
    }
}

/// Inserting at an existing key overwrites that entry in place.
pub proof fn lemma_spec_insert_update<T>(s: Seq<(usize, T)>, time: usize, value: T, k: int)
    requires
        keys_sorted(s),
        0 <= k < s.len(),
        s[k].0 == time,
    ensures
        spec_insert(s, time, value) =~= s.update(k, (time, value)),
    decreases s.len(),
{
    if k == s.len() - 1 {
        assert(s.drop_last().push((time, value)) =~= s.update(k, (time, value)));
    } else {
        assert(s.last().0 > time);
        lemma_sorted_prefix(s);
        lemma_spec_insert_update(s.drop_last(), time, value, k);
        assert(s.drop_last().update(k, (time, value)).push(s.last()) =~= s.update(
            k,
            (time, value),
        ));
    }
}

/// Removing an existing key deletes exactly that entry.
pub proof fn lemma_spec_remove_at<T>(s: Seq<(usize, T)>, time: usize, k: int)
    requires
        keys_sorted(s),
        0 <= k < s.len(),
        s[k].0 == time,
    ensures
        spec_remove(s, time) =~= s.subrange(0, k) + s.subrange(k + 1, s.len() as int),
    decreases s.len(),
{
    if k == s.len() - 1 {
        assert(s.drop_last() =~= s.subrange(0, k) + s.subrange(k + 1, s.len() as int));
    } else {
        assert(s.last().0 != time);
        lemma_sorted_prefix(s);
        lemma_spec_remove_at(s.drop_last(), time, k);
        let lhs = (s.drop_last().subrange(0, k) + s.drop_last().subrange(k + 1, s.len() - 1)).push(
            s.last(),
        );
        assert(lhs =~= s.subrange(0, k) + s.subrange(k + 1, s.len() as int));
    }
}

/// Removing an absent key changes nothing.
pub proof fn lemma_spec_remove_absent<T>(s: Seq<(usize, T)>, time: usize)
    requires
        forall|i: int| 0 <= i < s.len() ==> #[trigger] s[i].0 != time,
    ensures
        spec_remove(s, time) =~= s,
    decreases s.len(),
{
    if s.len() > 0 {
        lemma_spec_remove_absent(s.drop_last(), time);
        assert(spec_remove(s, time) =~= s.drop_last().push(s.last()));
        assert(s.drop_last().push(s.last()) =~= s);
    }
}

/// A single-channel timeline, ordered by strictly increasing time.
pub struct Sequence<T> {
    entries: Vec<(usize, T)>,
}

impl<T> View for Sequence<T> {
    type V = Seq<(usize, T)>;

    closed spec fn view(&self) -> Seq<(usize, T)> {
        self.entries@
    }
}

impl<T> Sequence<T> {
    /// Create an empty timeline.
    pub fn new() -> (r: Self)
        ensures
            r@ =~= Seq::<(usize, T)>::empty(),
            keys_sorted(r@),
    {
        Sequence { entries: Vec::new() }
    }

    /// The explicit entries, in ascending time order.
    pub fn iter(&self) -> (r: &Vec<(usize, T)>)
        ensures
            r@ == self@,
    {
        &self.entries
    }

    /// The number of explicit entries.
    pub fn len(&self) -> (r: usize)
        ensures
            r == self@.len(),
    {
        self.entries.len()
    }

    /// Borrow the value at exactly `time` mutably, if present.  The
    /// timeline afterwards holds whatever the caller leaves behind.
    pub fn get_mut(&mut self, time: usize) -> (r: Option<&mut T>)
        requires
            keys_sorted(old(self)@),
        ensures
            match r {
                Some(v) => {
                    &&& get_at(old(self)@, time) == Some(*v)
                    &&& keys_sorted(final(self)@)
                    &&& final(self)@ == spec_insert(old(self)@, time, *final(v))
                },
                None => {
                    &&& get_at(old(self)@, time) is None
                    &&& final(self)@ == old(self)@
                },
            },
    {
        let p = self.partition_le(time);
        if p > 0 && self.entries[p - 1].0 == time {
            proof {
                assert forall|j: int|
                    0 <= j < self@.len() && j != p - 1 implies #[trigger] self@[j].0 != time by {
                    if j < p - 1 {
                        assert(self@[j].0 < self@[p - 1].0);
                    }
                }
                lemma_get_at_position(self@, time, p - 1);
                lemma_spec_insert_sorted(self@, time, self@[p - 1].1);
            }
            let e = &mut self.entries[p - 1];
            proof {
                lemma_spec_insert_update(old(self)@, time, (*final(e)).1, p - 1);
            }
            Some(&mut e.1)
        } else {
            proof {
                assert forall|j: int| 0 <= j < self@.len() implies #[trigger] self@[j].0
                    != time by {
                    if j < p - 1 {
                        assert(self@[j].0 < self@[p - 1].0);
                    }
                }
                lemma_get_at_none(self@, time);
            }
            None
        }
    }

    /// Append an entry whose key lies beyond every present key.
    pub(crate) fn push_back(&mut self, time: usize, value: T)
        requires
            keys_sorted(old(self)@),
            old(self)@.len() > 0 ==> old(self)@.last().0 < time,
        ensures
            keys_sorted(final(self)@),
            final(self)@ == old(self)@.push((time, value)),
    {
        self.entries.push((time, value));
        proof {
            assert forall|i: int, j: int|
                0 <= i < j < self@.len() implies #[trigger] self@[i].0 < #[trigger] self@[j].0 by {
                if j < self@.len() - 1 {
                    assert(old(self)@[i].0 < old(self)@[j].0);
                } else {
                    if i < old(self)@.len() - 1 {
                        assert(old(self)@[i].0 < old(self)@[old(self)@.len() - 1].0);
                    }
                }
            }
        }
    }

    /// The index splitting keys at or before `time` from keys beyond it.
    fn partition_le(&self, time: usize) -> (p: usize)
        requires
            keys_sorted(self@),
        ensures
            p <= self@.len(),
            forall|i: int| 0 <= i < p ==> #[trigger] self@[i].0 <= time,
            forall|i: int| p <= i < self@.len() ==> #[trigger] self@[i].0 > time,
    {
        let mut lo: usize = 0;
        let mut hi: usize = self.entries.len();
        while lo < hi
            invariant
                lo <= hi <= self@.len(),
                keys_sorted(self@),
                forall|i: int| 0 <= i < lo ==> #[trigger] self@[i].0 <= time,
                forall|i: int| hi <= i < self@.len() ==> #[trigger] self@[i].0 > time,
            decreases hi - lo,
        {
            let mid: usize = lo + (hi - lo) / 2;
            if self.entries[mid].0 <= time {
                proof {
                    assert forall|i: int| 0 <= i < mid + 1 implies #[trigger] self@[i].0
                        <= time by {
                        if i < mid {
                            assert(self@[i].0 < self@[mid as int].0);
                        }
                    }
                }
                lo = mid + 1;
            } else {
                proof {
                    assert forall|i: int| mid <= i < self@.len() implies #[trigger] self@[i].0
                        > time by {
                        if i > mid {
                            assert(self@[mid as int].0 < self@[i].0);
                        }
                    }
                }
                hi = mid;
            }
        }
        lo
    }

    /// Insert or overwrite `value` at exact time `time`.
    pub fn insert(&mut self, time: usize, value: T)
        requires
            keys_sorted(old(self)@),
        ensures
            keys_sorted(final(self)@),
            final(self)@ == spec_insert(old(self)@, time, value),
    {
        let p = self.partition_le(time);
        if p > 0 && self.entries[p - 1].0 == time {
            self.entries.set(p - 1, (time, value));
            proof {
                lemma_spec_insert_update(old(self)@, time, value, p - 1);
                assert(final(self)@ =~= spec_insert(old(self)@, time, value));
            }
        } else {
            self.entries.insert(p, (time, value));
            proof {
                assert forall|i: int| 0 <= i < p implies #[trigger] old(self)@[i].0 < time by {
                    if i < p - 1 {
                        assert(old(self)@[i].0 < old(self)@[p - 1].0);
                    }
                }
                lemma_spec_insert_split(old(self)@, time, value, p as int);
                assert(final(self)@ =~= old(self)@.subrange(0, p as int) + seq![(time, value)]
                    + old(self)@.subrange(p as int, old(self)@.len() as int));
            }
        }
        proof {
            lemma_spec_insert_sorted(old(self)@, time, value);
        }
    }

    /// Remove the entry at exact time `time`, if present.
    pub fn remove(&mut self, time: usize)
        requires
            keys_sorted(old(self)@),
        ensures
            keys_sorted(final(self)@),
            final(self)@ == spec_remove(old(self)@, time),
    {
        let p = self.partition_le(time);
        if p > 0 && self.entries[p - 1].0 == time {
            let _ = self.entries.remove(p - 1);
            proof {
                lemma_spec_remove_at(old(self)@, time, p - 1);
                assert(final(self)@ =~= spec_remove(old(self)@, time));
            }
        } else {
            proof {
                assert forall|i: int| 0 <= i < old(self)@.len() implies #[trigger] old(
                    self,
                )@[i].0 != time by {
                    if i < p - 1 {
                        assert(old(self)@[i].0 < old(self)@[p - 1].0);
                    }
                }
                lemma_spec_remove_absent(old(self)@, time);
            }
        }
        proof {
            lemma_spec_remove_sorted(old(self)@, time);
        }
    }
}

impl<T: Copy> Sequence<T> {
    /// The value stored at exactly `time`, if any.
    pub fn get(&self, time: usize) -> (r: Option<T>)
        requires
            keys_sorted(self@),
        ensures
            r == get_at(self@, time),
    {
        let p = self.partition_le(time);
        if p > 0 && self.entries[p - 1].0 == time {
            proof {
                assert forall|j: int|
                    0 <= j < self@.len() && j != p - 1 implies #[trigger] self@[j].0 != time by {
                    if j < p - 1 {
                        assert(self@[j].0 < self@[p - 1].0);
                    }
                }
                lemma_get_at_position(self@, time, p - 1);
            }
            Some(self.entries[p - 1].1)
        } else {
            proof {
                assert forall|j: int| 0 <= j < self@.len() implies #[trigger] self@[j].0
                    != time by {
                    if j < p - 1 {
                        assert(self@[j].0 < self@[p - 1].0);
                    }
                }
                lemma_get_at_none(self@, time);
            }
            None
        }
    }
}

impl<T: ChannelValue> Sequence<T> {
    /// The held value at `time`: the entry at the greatest key at or
    /// before `time`, or the type default when no key qualifies.
    pub fn floor(&self, time: usize) -> (r: T)
        requires
            keys_sorted(self@),
        ensures
            r == floor_val(self@, time, T::default_spec()),
    {
        let p = self.partition_le(time);
        if p > 0 {
            proof {
                lemma_floor_entry_position(self@, time, p - 1);
            }
            self.entries[p - 1].1
        } else {
            proof {
                lemma_floor_entry_none(self@, time);
            }
            T::default_value()
        }
    }

    /// Compact the timeline in one left-to-right pass: drop every entry
    /// whose value equals the held value just before it.  Every floor
    /// query is preserved and no redundant entry survives.
    pub fn optimize(&mut self)
        requires
            keys_sorted(old(self)@),
        ensures
            keys_sorted(final(self)@),
            final(self)@ == opt_seq(old(self)@, T::default_spec()),
            is_minimal(final(self)@, T::default_spec()),
            forall|t: usize|
                floor_val(final(self)@, t, T::default_spec()) == floor_val(
                    old(self)@,
                    t,
                    T::default_spec(),
                ),
    {
        let ghost orig = self@;
        let ghost d = T::default_spec();
        let n = self.entries.len();
        let mut out: Vec<(usize, T)> = Vec::new();
        let mut last: T = T::default_value();
        let mut k: usize = 0;
        while k < n
            invariant
                k <= n,
                self@ == orig,
                self@.len() == n,
                out@ == opt_seq(orig.take(k as int), d),
                last == last_val(orig.take(k as int), d),
            decreases n - k,
        {
            let (time, value) = self.entries[k];
            proof {
                assert(orig.take(k + 1).drop_last() =~= orig.take(k as int));
                assert(orig.take(k + 1).last() == orig[k as int]);
            }
            if !value.eq_value(last) {
                out.push((time, value));
                last = value;
            }
            k = k + 1;
        }
        proof {
            assert(orig.take(n as int) =~= orig);
        }
        self.entries = out;
        proof {
            lemma_opt_seq_sorted(orig, d);
            lemma_opt_seq_minimal(orig, d);
            assert forall|t: usize|
                floor_val(final(self)@, t, d) == floor_val(orig, t, d) by {
                lemma_opt_seq_floor(orig, d, t);
            }
        }
    }
}

/// Insertion keeps the keys sorted.
pub proof fn lemma_spec_insert_sorted<T>(s: Seq<(usize, T)>, time: usize, value: T)
    requires
        keys_sorted(s),
    ensures
        keys_sorted(spec_insert(s, time, value)),
    decreases s.len(),
{
    if s.len() == 0 {
    } else if s.last().0 < time {
    } else if s.last().0 == time {
        let r = s.drop_last().push((time, value));
        assert forall|i: int, j: int| 0 <= i < j < r.len() implies #[trigger] r[i].0
            < #[trigger] r[j].0 by {
            assert(s[i].0 < s[j].0);
        }
    } else {
        lemma_sorted_prefix(s);
        lemma_spec_insert_sorted(s.drop_last(), time, value);
        lemma_spec_insert_keys(s.drop_last(), time, value);
        let r0 = spec_insert(s.drop_last(), time, value);
        let r = r0.push(s.last());
        assert forall|i: int, j: int| 0 <= i < j < r.len() implies #[trigger] r[i].0
            < #[trigger] r[j].0 by {
            if j == r.len() - 1 {
                assert(r0[i].0 == time || key_in(s.drop_last(), r0[i].0));
                if r0[i].0 != time {
                    let k = choose|k: int|
                        0 <= k < s.drop_last().len() && #[trigger] s.drop_last()[k].0 == r0[i].0;
                    assert(s[k].0 < s.last().0);
                } else {
                    assert(s.last().0 > time);
                }
            }
        }
    }
}

/// Every key of an insertion result is the new key or an old key.
pub proof fn lemma_spec_insert_keys<T>(s: Seq<(usize, T)>, time: usize, value: T)
    ensures
        forall|i: int|
            0 <= i < spec_insert(s, time, value).len() ==> (#[trigger] spec_insert(
                s,
                time,
                value,
            )[i]).0 == time || key_in(s, spec_insert(s, time, value)[i].0),
    decreases s.len(),
{
    let r = spec_insert(s, time, value);
    if s.len() == 0 {
    } else if s.last().0 < time {
        assert forall|i: int|
            0 <= i < r.len() implies (#[trigger] r[i]).0 == time || key_in(s, r[i].0) by {
            if i < s.len() {
                assert(s[i].0 == r[i].0);
            }
        }
    } else if s.last().0 == time {
        assert forall|i: int|
            0 <= i < r.len() implies (#[trigger] r[i]).0 == time || key_in(s, r[i].0) by {
            if i < s.len() - 1 {
                assert(s[i].0 == r[i].0);
            }
        }
    } else {
        lemma_spec_insert_keys(s.drop_last(), time, value);
        let r0 = spec_insert(s.drop_last(), time, value);
        assert forall|i: int|
            0 <= i < r.len() implies (#[trigger] r[i]).0 == time || key_in(s, r[i].0) by {
            if i < r0.len() {
                assert(r0[i] == r[i]);
                assert(r0[i].0 == time || key_in(s.drop_last(), r0[i].0));
                if r0[i].0 != time {
                    let k = choose|k: int|
                        0 <= k < s.drop_last().len() && #[trigger] s.drop_last()[k].0 == r0[i].0;
                    assert(s[k].0 == r[i].0);
                }
            } else {
                assert(s[s.len() - 1].0 == r[i].0);
            }
        }
    }
}

/// Removal keeps the keys sorted.
pub proof fn lemma_spec_remove_sorted<T>(s: Seq<(usize, T)>, time: usize)
    requires
        keys_sorted(s),
    ensures
        keys_sorted(spec_remove(s, time)),
    decreases s.len(),
{
    if s.len() == 0 {
    } else if s.last().0 == time {
        lemma_sorted_prefix(s);
    } else {
        lemma_sorted_prefix(s);
        lemma_spec_remove_sorted(s.drop_last(), time);
        lemma_spec_remove_keys(s.drop_last(), time);
        let r0 = spec_remove(s.drop_last(), time);
        let r = r0.push(s.last());
        assert forall|i: int, j: int| 0 <= i < j < r.len() implies #[trigger] r[i].0
            < #[trigger] r[j].0 by {
            if j == r.len() - 1 {
                assert(key_in(s.drop_last(), r0[i].0));
                let k = choose|k: int|
                    0 <= k < s.drop_last().len() && #[trigger] s.drop_last()[k].0 == r0[i].0;
                assert(s[k].0 < s.last().0);
            }
        }
    }
}

/// Every key of a removal result is an old key.
pub proof fn lemma_spec_remove_keys<T>(s: Seq<(usize, T)>, time: usize)
    ensures
        forall|i: int|
            0 <= i < spec_remove(s, time).len() ==> key_in(
                s,
                (#[trigger] spec_remove(s, time)[i]).0,
            ),
    decreases s.len(),
{
    let r = spec_remove(s, time);
    if s.len() == 0 {
    } else if s.last().0 == time {
        assert forall|i: int| 0 <= i < r.len() implies key_in(s, (#[trigger] r[i]).0) by {
            assert(s[i].0 == r[i].0);
        }
    } else {
        lemma_spec_remove_keys(s.drop_last(), time);
        let r0 = spec_remove(s.drop_last(), time);
        assert forall|i: int| 0 <= i < r.len() implies key_in(s, (#[trigger] r[i]).0) by {
            if i < r0.len() {
                assert(r0[i] == r[i]);
                assert(key_in(s.drop_last(), r0[i].0));
                let k = choose|k: int|
                    0 <= k < s.drop_last().len() && #[trigger] s.drop_last()[k].0 == r0[i].0;
                assert(s[k].0 == r[i].0);
            } else {
                assert(s[s.len() - 1].0 == r[i].0);
            }
        }
    }
}


/// Compaction preserves the final held value.
pub proof fn lemma_opt_seq_last<K, T>(s: Seq<(K, T)>, d: T)
    ensures
        last_val(opt_seq(s, d), d) == last_val(s, d),
    decreases s.len(),
{
    if s.len() > 0 {
        lemma_opt_seq_last(s.drop_last(), d);
    }
}

/// Every key of the compacted timeline is a key of the original.
pub proof fn lemma_opt_seq_keys<T>(s: Seq<(usize, T)>, d: T)
    ensures
        forall|i: int|
            0 <= i < opt_seq(s, d).len() ==> key_in(s, (#[trigger] opt_seq(s, d)[i]).0),
    decreases s.len(),
{
    let r = opt_seq(s, d);
    if s.len() > 0 {
        lemma_opt_seq_keys(s.drop_last(), d);
        let r0 = opt_seq(s.drop_last(), d);
        assert forall|i: int| 0 <= i < r.len() implies key_in(s, (#[trigger] r[i]).0) by {
            if i < r0.len() {
                assert(r0[i] == r[i]);
                assert(key_in(s.drop_last(), r0[i].0));
                let k = choose|k: int|
                    0 <= k < s.drop_last().len() && #[trigger] s.drop_last()[k].0 == r0[i].0;
                assert(s[k].0 == r[i].0);
            } else {
                assert(r[i] == s.last());
                assert(s[s.len() - 1].0 == r[i].0);
            }
        }
    }
}

/// Compaction keeps the keys sorted.
pub proof fn lemma_opt_seq_sorted<T>(s: Seq<(usize, T)>, d: T)
    requires
        keys_sorted(s),
    ensures
        keys_sorted(opt_seq(s, d)),
    decreases s.len(),
{
    if s.len() > 0 {
        lemma_sorted_prefix(s);
        lemma_opt_seq_sorted(s.drop_last(), d);
        lemma_opt_seq_keys(s.drop_last(), d);
        let r0 = opt_seq(s.drop_last(), d);
        let r = opt_seq(s, d);
        if s.last().1 != last_val(s.drop_last(), d) {
            assert(r == r0.push(s.last()));
            assert forall|i: int, j: int| 0 <= i < j < r.len() implies #[trigger] r[i].0
                < #[trigger] r[j].0 by {
                if j == r.len() - 1 {
                    assert(key_in(s.drop_last(), r0[i].0));
                    let k = choose|k: int|
                        0 <= k < s.drop_last().len() && #[trigger] s.drop_last()[k].0 == r0[i].0;
                    assert(s[k].0 < s.last().0);
                }
            }
        }
    }
}

/// Compaction preserves every floor query (the floor-correctness law for
/// the compactor: no `(time, channel)` query changes).
pub proof fn lemma_opt_seq_floor<T>(s: Seq<(usize, T)>, d: T, t: usize)
    requires
        keys_sorted(s),
    ensures
        floor_val(opt_seq(s, d), t, d) == floor_val(s, t, d),
    decreases s.len(),
{
    if s.len() > 0 {
        lemma_sorted_prefix(s);
        lemma_opt_seq_floor(s.drop_last(), d, t);
        let r0 = opt_seq(s.drop_last(), d);
        let r = opt_seq(s, d);
        if s.last().1 == last_val(s.drop_last(), d) {
            assert(r == r0);
            if s.last().0 <= t {
                if s.drop_last().len() == 0 {
                    assert(floor_val(s, t, d) == s.last().1);
                } else {
                    assert(s.drop_last().last().0 <= t);
                    assert(floor_val(s.drop_last(), t, d) == last_val(s.drop_last(), d));
                }
            }
        } else {
            assert(r == r0.push(s.last()));
            if s.last().0 <= t {
            } else {
                assert(r.drop_last() =~= r0);
            }
        }
    }
}

/// Compaction leaves no entry equal to the held value just before it.
pub proof fn lemma_opt_seq_minimal<K, T>(s: Seq<(K, T)>, d: T)
    ensures
        is_minimal(opt_seq(s, d), d),
    decreases s.len(),
{
    if s.len() > 0 {
        lemma_opt_seq_minimal(s.drop_last(), d);
        lemma_opt_seq_last(s.drop_last(), d);
        let r0 = opt_seq(s.drop_last(), d);
        let r = opt_seq(s, d);
        if s.last().1 != last_val(s.drop_last(), d) {
            assert forall|i: int|
                0 <= i < r.len() implies #[trigger] r[i].1 != (if i == 0 {
                    d
                } else {
                    r[i - 1].1
                }) by {
                if i < r0.len() {
                    assert(r[i] == r0[i]);
                    if i > 0 {
                        assert(r[i - 1] == r0[i - 1]);
                    }
                } else {
                    assert(r[i] == s.last());
                    if i > 0 {
                        assert(r[i - 1].1 == last_val(r0, d));
                    }
                }
            }
        }
    }
}

/// An already-minimal timeline is its own compaction.
pub proof fn lemma_opt_seq_of_minimal<K, T>(s: Seq<(K, T)>, d: T)
    requires
        is_minimal(s, d),
    ensures
        opt_seq(s, d) == s,
    decreases s.len(),
{
    if s.len() > 0 {
        assert forall|i: int|
            0 <= i < s.drop_last().len() implies #[trigger] s.drop_last()[i].1 != (if i == 0 {
                d
            } else {
                s.drop_last()[i - 1].1
            }) by {
            assert(s[i] == s.drop_last()[i]);
            if i > 0 {
                assert(s[i - 1] == s.drop_last()[i - 1]);
            }
        }
        lemma_opt_seq_of_minimal(s.drop_last(), d);
        assert(s.last().1 != last_val(s.drop_last(), d));
        assert(opt_seq(s, d) =~= s);
    }
}

/// Floor correctness: the held value is the entry at the greatest key at
/// or before `t` when one exists, and otherwise every key lies beyond
/// `t`.
pub proof fn lemma_floor_is_greatest_key<T>(s: Seq<(usize, T)>, t: usize)
    requires
        keys_sorted(s),
    ensures
        floor_entry(s, t) is None ==> forall|j: int| 0 <= j < s.len() ==> #[trigger] s[j].0 > t,
        floor_entry(s, t) matches Some(v) ==> exists|i: int|
            {
                &&& 0 <= i < s.len()
                &&& #[trigger] s[i].0 <= t
                &&& s[i].1 == v
                &&& forall|j: int| 0 <= j < s.len() && #[trigger] s[j].0 <= t ==> j <= i
            },
    decreases s.len(),
{
    if s.len() == 0 {
    } else if s.last().0 <= t {
        let i = s.len() - 1;
        assert({
            &&& 0 <= i < s.len()
            &&& s[i].0 <= t
            &&& s[i].1 == s.last().1
            &&& forall|j: int| 0 <= j < s.len() && #[trigger] s[j].0 <= t ==> j <= i
        });
    } else {
        lemma_sorted_prefix(s);
        lemma_floor_is_greatest_key(s.drop_last(), t);
        if floor_entry(s, t) is None {
            assert forall|j: int| 0 <= j < s.len() implies #[trigger] s[j].0 > t by {
                if j < s.len() - 1 {
                    assert(s.drop_last()[j].0 > t);
                }
            }
        } else {
            let v = floor_entry(s, t)->0;
            assert(floor_entry(s.drop_last(), t) == Some(v));
            let i = choose|i: int|
                {
                    &&& 0 <= i < s.drop_last().len()
                    &&& #[trigger] s.drop_last()[i].0 <= t
                    &&& s.drop_last()[i].1 == v
                    &&& forall|j: int|
                        0 <= j < s.drop_last().len() && #[trigger] s.drop_last()[j].0 <= t ==> j
                            <= i
                };
            assert(s[i] == s.drop_last()[i]);
            assert forall|j: int| 0 <= j < s.len() && #[trigger] s[j].0 <= t implies j <= i by {
                if j < s.len() - 1 {
                    assert(s.drop_last()[j].0 <= t);
                }
            }
            assert({
                &&& 0 <= i < s.len()
                &&& s[i].0 <= t
                &&& s[i].1 == v
                &&& forall|j: int| 0 <= j < s.len() && #[trigger] s[j].0 <= t ==> j <= i
            });
        }
    }
}


/// After an insertion, the inserted key reads back the new value.
pub proof fn lemma_get_at_after_insert<T>(s: Seq<(usize, T)>, time: usize, value: T)
    requires
        keys_sorted(s),
    ensures
        get_at(spec_insert(s, time, value), time) == Some(value),
    decreases s.len(),
{
    let r = spec_insert(s, time, value);
    if s.len() == 0 {
    } else if s.last().0 < time {
    } else if s.last().0 == time {
    } else {
        lemma_sorted_prefix(s);
        lemma_get_at_after_insert(s.drop_last(), time, value);
        assert(r.drop_last() =~= spec_insert(s.drop_last(), time, value));
        assert(r.last() == s.last());
        assert(r.last().0 != time);
    }
}

/// Inserting twice at one key keeps only the second value.
pub proof fn lemma_spec_insert_twice<T>(s: Seq<(usize, T)>, time: usize, a: T, b: T)
    ensures
        spec_insert(spec_insert(s, time, a), time, b) == spec_insert(s, time, b),
    decreases s.len(),
{
    let r1 = spec_insert(s, time, a);
    if s.len() == 0 {
        assert(r1.drop_last() =~= Seq::<(usize, T)>::empty());
        assert(spec_insert(r1, time, b) =~= spec_insert(s, time, b));
    } else if s.last().0 < time {
        assert(r1.drop_last() =~= s);
        assert(spec_insert(r1, time, b) =~= spec_insert(s, time, b));
    } else if s.last().0 == time {
        assert(r1.drop_last() =~= s.drop_last());
        assert(spec_insert(r1, time, b) =~= spec_insert(s, time, b));
    } else {
        lemma_spec_insert_twice(s.drop_last(), time, a, b);
        assert(r1.drop_last() =~= spec_insert(s.drop_last(), time, a));
        assert(r1.last() == s.last());
        assert(spec_insert(r1, time, b) =~= spec_insert(s, time, b));
    }
}

} // verus!


