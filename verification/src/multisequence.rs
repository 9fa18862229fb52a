//! The multi-channel timeline store: an ordered map from time to a
//! snapshot of optional per-channel values.
//!
//! The store is created with a fixed channel width.  The logical value of
//! channel `c` at time `t` is the value recorded for `c` in the snapshot
//! at the greatest key at or before `t` in which `c` is present, or the
//! type default when no such key exists.  Every key present in the store
//! has at least one present slot; compaction and the in-place algebra
//! preserve this.

use vstd::prelude::*;

verus! {

use crate::optionarray::OptionArray;
use crate::sequence::{
    floor_entry,
    floor_val,
    get_at,
    is_minimal,
    keys_sorted,
    key_in,
    last_val,
    opt_seq,
    lemma_opt_seq_floor,
    lemma_opt_seq_minimal,
    lemma_opt_seq_sorted,
    lemma_sorted_prefix,
    Sequence,
};
use crate::algebra::{apply_op, BitOp};
use crate::value::{BitwiseValue, ChannelValue};

/// The explicit `(time, value)` entries of channel `c`, in store order.
pub open spec fn project<T>(s: Seq<(usize, Seq<Option<T>>)>, c: int) -> Seq<(usize, T)>
    decreases s.len(),
{
    if s.len() == 0 {
        Seq::empty()
    } else {
        let rest = project(s.drop_last(), c);
        if s.last().1[c] is Some {
            rest.push((s.last().0, s.last().1[c]->0))
        } else {
            rest
        }
    }
}

/// The value channel `c` holds at time `t` under floor semantics, if any
/// entry qualifies.
pub open spec fn chan_floor<T>(s: Seq<(usize, Seq<Option<T>>)>, t: usize, c: int) -> Option<T> {
    floor_entry(project(s, c), t)
}

/// The held value of channel `c` at time `t`, falling back to `d`.
pub open spec fn chan_floor_val<T>(s: Seq<(usize, Seq<Option<T>>)>, t: usize, c: int, d: T) -> T {
    floor_val(project(s, c), t, d)
}

/// The value channel `c` records at exactly time `t`, if any.
pub open spec fn chan_at<T>(s: Seq<(usize, Seq<Option<T>>)>, t: usize, c: int) -> Option<T> {
    match get_at(s, t) {
        Some(snap) => snap[c],
        None => None,
    }
}

/// At least one channel is present in the snapshot.
pub open spec fn snapshot_nonempty<T>(snap: Seq<Option<T>>) -> bool {
    exists|c: int| 0 <= c < snap.len() && snap[c] is Some
}

/// Store well-formedness: keys strictly increase, every snapshot has the
/// configured width, and no snapshot is empty.
pub open spec fn store_wf<T>(s: Seq<(usize, Seq<Option<T>>)>, width: nat) -> bool {
    &&& keys_sorted(s)
    &&& forall|i: int| 0 <= i < s.len() ==> (#[trigger] s[i].1).len() == width
    &&& forall|i: int| 0 <= i < s.len() ==> snapshot_nonempty(#[trigger] s[i].1)
}

/// An all-absent snapshot of the given width.
pub open spec fn blank_snapshot<T>(width: nat) -> Seq<Option<T>> {
    Seq::new(width, |c: int| None)
}

/// The store after recording `value` for channel `c` at `time`: the
/// snapshot at `time` is updated, being created first if absent.
pub open spec fn spec_set<T>(
    s: Seq<(usize, Seq<Option<T>>)>,
    time: usize,
    c: int,
    value: T,
    width: nat,
) -> Seq<(usize, Seq<Option<T>>)>
    decreases s.len(),
{
    if s.len() == 0 {
        seq![(time, blank_snapshot::<T>(width).update(c, Some(value)))]
    } else if s.last().0 < time {
        s.push((time, blank_snapshot::<T>(width).update(c, Some(value))))
    } else if s.last().0 == time {
        s.drop_last().push((time, s.last().1.update(c, Some(value))))
    } else {
        spec_set(s.drop_last(), time, c, value, width).push(s.last())
    }
}

/// Projecting the channel that `spec_set` wrote inserts the new value
/// into that channel's timeline.
pub proof fn lemma_spec_set_project_same<T>(
    s: Seq<(usize, Seq<Option<T>>)>,
    time: usize,
    c: int,
    value: T,
    width: nat,
)
    requires
        keys_sorted(s),
        0 <= c < width,
        forall|i: int| 0 <= i < s.len() ==> (#[trigger] s[i].1).len() == width,
    ensures
        project(spec_set(s, time, c, value, width), c) == crate::sequence::spec_insert(
            project(s, c),
            time,
            value,
        ),
    decreases s.len(),
{
    let r = spec_set(s, time, c, value, width);
    if s.len() == 0 {
        assert(r.drop_last() =~= Seq::<(usize, Seq<Option<T>>)>::empty());
        assert(project(r, c) =~= seq![(time, value)]);
    } else if s.last().0 < time {
        assert(r.drop_last() =~= s);
        lemma_project_key_bound(s, c);
        if project(s, c).len() > 0 {
            assert(project(s, c).last().0 < time);
        }
    } else if s.last().0 == time {
        assert(r.drop_last() =~= s.drop_last());
        lemma_project_key_bound(s.drop_last(), c);
        if s.last().1[c] is Some {
            if project(s.drop_last(), c).len() > 0 {
                lemma_sorted_prefix(s);
                assert(project(s, c).drop_last() =~= project(s.drop_last(), c));
                assert(project(s, c).last().0 == time);
            }
        } else {
            if project(s, c).len() > 0 {
                assert(project(s, c).last().0 < time);
            }
        }
    } else {
        lemma_sorted_prefix(s);
        lemma_spec_set_project_same(s.drop_last(), time, c, value, width);
        assert(r.drop_last() =~= spec_set(s.drop_last(), time, c, value, width));
        assert(r.last() == s.last());
        if project(s, c).len() > 0 && s.last().1[c] is Some {
            assert(project(s, c).last().0 > time);
            assert(project(s, c).drop_last() =~= project(s.drop_last(), c));
        }
    }
}

/// Projecting any other channel is unchanged by `spec_set`.
pub proof fn lemma_spec_set_project_other<T>(
    s: Seq<(usize, Seq<Option<T>>)>,
    time: usize,
    c: int,
    value: T,
    width: nat,
    c2: int,
)
    requires
        0 <= c < width,
        0 <= c2 < width,
        c2 != c,
        forall|i: int| 0 <= i < s.len() ==> (#[trigger] s[i].1).len() == width,
    ensures
        project(spec_set(s, time, c, value, width), c2) == project(s, c2),
    decreases s.len(),
{
    let r = spec_set(s, time, c, value, width);
    if s.len() == 0 {
        assert(r.drop_last() =~= Seq::<(usize, Seq<Option<T>>)>::empty());
        assert(r.last().1[c2] is None);
        assert(project(r.drop_last(), c2) =~= Seq::<(usize, T)>::empty());
        assert(project(r, c2) =~= project(s, c2));
    } else if s.last().0 < time {
        assert(r.drop_last() =~= s);
        assert(r.last().1[c2] is None);
        assert(project(r, c2) =~= project(s, c2));
    } else if s.last().0 == time {
        assert(r.drop_last() =~= s.drop_last());
        assert(r.last().1[c2] == s.last().1[c2]);
        assert(project(r, c2) =~= project(s, c2));
    } else {
        lemma_spec_set_project_other(s.drop_last(), time, c, value, width, c2);
        assert(r.drop_last() =~= spec_set(s.drop_last(), time, c, value, width));
        assert(r.last() == s.last());
        assert(project(r, c2) =~= project(s, c2));
    }
}

/// Keys of a projection come from the store, so they are bounded by the
/// last store key.
pub proof fn lemma_project_key_bound<T>(s: Seq<(usize, Seq<Option<T>>)>, c: int)
    requires
        keys_sorted(s),
    ensures
        keys_sorted(project(s, c)),
        forall|i: int|
            0 <= i < project(s, c).len() ==> key_in(s, (#[trigger] project(s, c)[i]).0),
        s.len() > 0 && project(s, c).len() > 0 ==> project(s, c).last().0 <= s.last().0,
    decreases s.len(),
{
    if s.len() > 0 {
        lemma_sorted_prefix(s);
        lemma_project_key_bound(s.drop_last(), c);
        let r0 = project(s.drop_last(), c);
        let r = project(s, c);
        assert forall|i: int| 0 <= i < r.len() implies key_in(s, (#[trigger] r[i]).0) by {
            if i < r0.len() {
                assert(r[i] == r0[i]);
                assert(key_in(s.drop_last(), r0[i].0));
                let k = choose|k: int|
                    0 <= k < s.drop_last().len() && #[trigger] s.drop_last()[k].0 == r0[i].0;
                assert(s[k].0 == r[i].0);
            } else {
                assert(r[i].0 == s.last().0);
                assert(s[s.len() - 1].0 == r[i].0);
            }
        }
        if s.last().1[c] is Some {
            assert forall|i: int, j: int| 0 <= i < j < r.len() implies #[trigger] r[i].0
                < #[trigger] r[j].0 by {
                if j == r.len() - 1 {
                    assert(key_in(s.drop_last(), r0[i].0));
                    let k = choose|k: int|
                        0 <= k < s.drop_last().len() && #[trigger] s.drop_last()[k].0 == r0[i].0;
                    assert(s[k].0 < s.last().0);
                }
            }
        } else {
            if r.len() > 0 && s.drop_last().len() > 0 {
                assert(r.last().0 <= s.drop_last().last().0);
                assert(s.drop_last().last().0 < s.last().0);
            }
        }
    }
}

/// Entries of the store beyond every key at or before `t` do not affect
/// the floor of any channel.
pub proof fn lemma_chan_floor_skip<T>(s: Seq<(usize, Seq<Option<T>>)>, t: usize, c: int, p: int)
    requires
        keys_sorted(s),
        0 <= p <= s.len(),
        forall|i: int| p <= i < s.len() ==> (#[trigger] s[i]).0 > t,
    ensures
        floor_entry(project(s, c), t) == floor_entry(project(s.take(p), c), t),
    decreases s.len(),
{
    if p < s.len() {
        assert(s.last().0 > t);
        lemma_sorted_prefix(s);
        lemma_chan_floor_skip(s.drop_last(), t, c, p);
        assert(s.drop_last().take(p) =~= s.take(p));
        if s.last().1[c] is Some {
            assert(project(s, c).drop_last() =~= project(s.drop_last(), c));
            assert(project(s, c).last().0 > t);
        }
    } else {
        assert(s.take(p) =~= s);
    }
}

/// A multi-channel timeline store with a fixed channel width.
pub struct MultiSequence<T> {
    width: usize,
    entries: Vec<(usize, OptionArray<T>)>,
}

/// The spec-level reading of a vector of store entries.
spec fn entries_view<T>(es: Seq<(usize, OptionArray<T>)>) -> Seq<(usize, Seq<Option<T>>)> {
    es.map_values(|p: (usize, OptionArray<T>)| (p.0, p.1@))
}

impl<T> View for MultiSequence<T> {
    type V = Seq<(usize, Seq<Option<T>>)>;

    closed spec fn view(&self) -> Seq<(usize, Seq<Option<T>>)> {
        entries_view(self.entries@)
    }
}

impl<T> MultiSequence<T> {
    /// The configured channel width.
    pub closed spec fn spec_width(&self) -> nat {
        self.width as nat
    }

    /// Internal snapshot invariants (the presence bitsets agree with the
    /// slot vectors).
    pub closed spec fn inv(&self) -> bool {
        forall|i: int| 0 <= i < self.entries@.len() ==> (#[trigger] self.entries@[i].1).wf()
    }

    /// Create an empty store of `width` channels.
    pub fn new(width: usize) -> (r: Self)
        ensures
            r.inv(),
            r@ =~= Seq::<(usize, Seq<Option<T>>)>::empty(),
            r.spec_width() == width,
            store_wf(r@, r.spec_width()),
    {
        MultiSequence { width, entries: Vec::new() }
    }

    /// The configured channel width.
    pub fn width(&self) -> (r: usize)
        ensures
            r == self.spec_width(),
    {
        self.width
    }

    /// The number of distinct time keys currently stored.
    pub fn len(&self) -> (r: usize)
        ensures
            r == self@.len(),
    {
        self.entries.len()
    }

    /// The index splitting keys at or before `time` from keys beyond it.
    fn partition_le(&self, time: usize) -> (p: usize)
        requires
            keys_sorted(self@),
        ensures
            p <= self@.len(),
            forall|i: int| 0 <= i < p ==> (#[trigger] self@[i]).0 <= time,
            forall|i: int| p <= i < self@.len() ==> (#[trigger] self@[i]).0 > time,
    {
        let ghost v = self@;
        let mut lo: usize = 0;
        let mut hi: usize = self.entries.len();
        proof {
            assert(v.len() == self.entries@.len());
        }
        while lo < hi
            invariant
                lo <= hi <= v.len(),
                v == self@,
                v.len() == self.entries@.len(),
                keys_sorted(v),
                forall|i: int| 0 <= i < lo ==> (#[trigger] v[i]).0 <= time,
                forall|i: int| hi <= i < v.len() ==> (#[trigger] v[i]).0 > time,
            decreases hi - lo,
        {
            let mid: usize = lo + (hi - lo) / 2;
            proof {
                assert(v[mid as int].0 == self.entries@[mid as int].0);
            }
            if self.entries[mid].0 <= time {
                proof {
                    assert forall|i: int| 0 <= i < mid + 1 implies (#[trigger] v[i]).0 <= time by {
                        if i < mid {
                            assert(v[i].0 < v[mid as int].0);
                        }
                    }
                }
                lo = mid + 1;
            } else {
                proof {
                    assert forall|i: int| mid <= i < v.len() implies (#[trigger] v[i]).0 > time by {
                        if i > mid {
                            assert(v[mid as int].0 < v[i].0);
                        }
                    }
                }
                hi = mid;
            }
        }
        lo
    }
}


/// `spec_set` at an existing key updates that snapshot in place.
pub proof fn lemma_spec_set_update<T>(
    s: Seq<(usize, Seq<Option<T>>)>,
    time: usize,
    c: int,
    value: T,
    width: nat,
    k: int,
)
    requires
        keys_sorted(s),
        0 <= k < s.len(),
        s[k].0 == time,
    ensures
        spec_set(s, time, c, value, width) =~= s.update(k, (time, s[k].1.update(c, Some(value)))),
    decreases s.len(),
{
    if k == s.len() - 1 {
        assert(s.drop_last().push((time, s.last().1.update(c, Some(value)))) =~= s.update(
            k,
            (time, s[k].1.update(c, Some(value))),
        ));
    } else {
        assert(s.last().0 > time);
        lemma_sorted_prefix(s);
        lemma_spec_set_update(s.drop_last(), time, c, value, width, k);
        assert(s.drop_last().update(k, (time, s[k].1.update(c, Some(value)))).push(s.last()) =~= s
            .update(k, (time, s[k].1.update(c, Some(value)))));
    }
}

/// `spec_set` at a fresh key splits the store at the partition point.
pub proof fn lemma_spec_set_split<T>(
    s: Seq<(usize, Seq<Option<T>>)>,
    time: usize,
    c: int,
    value: T,
    width: nat,
    p: int,
)
    requires
        keys_sorted(s),
        0 <= p <= s.len(),
        forall|i: int| 0 <= i < p ==> (#[trigger] s[i]).0 < time,
        forall|i: int| p <= i < s.len() ==> (#[trigger] s[i]).0 > time,
    ensures
        spec_set(s, time, c, value, width) =~= s.subrange(0, p) + seq![
            (time, blank_snapshot::<T>(width).update(c, Some(value))),
        ] + s.subrange(p, s.len() as int),
    decreases s.len(),
{
    if s.len() == 0 {
    } else if s.last().0 < time {
        assert(p == s.len());
        assert(s.subrange(0, p) =~= s);
    } else {
        assert(s.last().0 > time);
        assert(p < s.len());
        lemma_sorted_prefix(s);
        lemma_spec_set_split(s.drop_last(), time, c, value, width, p);
        assert(s.drop_last().subrange(0, p) =~= s.subrange(0, p));
        assert(s.drop_last().subrange(p, s.len() - 1).push(s.last()) =~= s.subrange(
            p,
            s.len() as int,
        ));
    }
}

/// Borrow one store entry mutably.
fn entry_mut<T>(entries: &mut Vec<(usize, OptionArray<T>)>, i: usize) -> (r: &mut (
    usize,
    OptionArray<T>,
))
    requires
        i < old(entries)@.len(),
    ensures
        *r == old(entries)@[i as int],
        final(entries)@ == old(entries)@.update(i as int, *final(r)),
{
    &mut entries[i]
}

impl<T> MultiSequence<T> {
    /// Record `value` for channel `channel` at `time`, creating the
    /// snapshot at `time` first if none exists.
    pub fn set(&mut self, time: usize, channel: usize, value: T)
        requires
            old(self).inv(),
            store_wf(old(self)@, old(self).spec_width()),
            channel < old(self).spec_width(),
        ensures
            final(self).inv(),
            final(self).spec_width() == old(self).spec_width(),
            store_wf(final(self)@, final(self).spec_width()),
            final(self)@ == spec_set(
                old(self)@,
                time,
                channel as int,
                value,
                old(self).spec_width(),
            ),
    {
        let ghost orig = self@;
        let ghost w = self.spec_width();
        let p = self.partition_le(time);
        if p > 0 && self.entries[p - 1].0 == time {
            proof {
                assert(orig[p - 1].1.len() == w);
            }
            let e = entry_mut(&mut self.entries, p - 1);
            e.1.set(channel, value);
            proof {
                lemma_spec_set_update(orig, time, channel as int, value, w, p - 1);
                let r = spec_set(orig, time, channel as int, value, w);
                assert(final(self)@ =~= r);
                assert forall|i: int| 0 <= i < r.len() implies (#[trigger] r[i].1).len() == w by {
                    if i != p - 1 {
                        assert(orig[i].1.len() == w);
                    }
                }
                assert forall|i: int|
                    0 <= i < r.len() implies snapshot_nonempty(#[trigger] r[i].1) by {
                    if i == p - 1 {
                        assert(r[i].1[channel as int] is Some);
                    } else {
                        assert(snapshot_nonempty(orig[i].1));
                    }
                }
            }
        } else {
            let width = self.width;
            let mut arr: OptionArray<T> = OptionArray::new(width);
            arr.set(channel, value);
            self.entries.insert(p, (time, arr));
            proof {
                assert forall|i: int| 0 <= i < p implies (#[trigger] orig[i]).0 < time by {
                    if i < p - 1 {
                        assert(orig[i].0 < orig[p - 1].0);
                    }
                }
                assert(arr@ =~= blank_snapshot::<T>(w).update(channel as int, Some(value)));
                lemma_spec_set_split(orig, time, channel as int, value, w, p as int);
                let r = spec_set(orig, time, channel as int, value, w);
                assert(final(self)@ =~= r);
                assert forall|i: int| 0 <= i < r.len() implies (#[trigger] r[i].1).len() == w by {
                    if i < p {
                        assert(orig[i].1.len() == w);
                    } else if i > p {
                        assert(orig[i - 1].1.len() == w);
                    }
                }
                assert forall|i: int|
                    0 <= i < r.len() implies snapshot_nonempty(#[trigger] r[i].1) by {
                    if i < p {
                        assert(snapshot_nonempty(orig[i].1));
                    } else if i > p {
                        assert(snapshot_nonempty(orig[i - 1].1));
                    } else {
                        assert(r[i].1[channel as int] is Some);
                    }
                }
                assert forall|i: int, j: int|
                    0 <= i < j < r.len() implies (#[trigger] r[i]).0 < (#[trigger] r[j]).0 by {
                    if j < p {
                        assert(orig[i].0 < orig[j].0);
                    } else if j == p {
                        assert(orig[i].0 < time);
                    } else {
                        if i < p {
                            assert(orig[i].0 < time);
                            assert(orig[j - 1].0 > time);
                        } else if i == p {
                            assert(orig[j - 1].0 > time);
                        } else {
                            assert(orig[i - 1].0 < orig[j - 1].0);
                        }
                    }
                }
            }
        }
    }

    /// The exact snapshot stored at `time`, if any.
    pub fn get(&self, time: usize) -> (r: Option<&OptionArray<T>>)
        requires
            self.inv(),
            store_wf(self@, self.spec_width()),
        ensures
            match r {
                Some(arr) => get_at(self@, time) == Some(arr@) && arr.wf() && arr@.len()
                    == self.spec_width(),
                None => get_at(self@, time) is None,
            },
    {
        let p = self.partition_le(time);
        if p > 0 && self.entries[p - 1].0 == time {
            proof {
                assert forall|j: int|
                    0 <= j < self@.len() && j != p - 1 implies (#[trigger] self@[j]).0 != time by {
                    if j < p - 1 {
                        assert(self@[j].0 < self@[p - 1].0);
                    }
                }
                crate::sequence::lemma_get_at_position(self@, time, p - 1);
            }
            Some(&self.entries[p - 1].1)
        } else {
            proof {
                assert forall|j: int| 0 <= j < self@.len() implies (#[trigger] self@[j]).0
                    != time by {
                    if j < p - 1 {
                        assert(self@[j].0 < self@[p - 1].0);
                    }
                }
                crate::sequence::lemma_get_at_none(self@, time);
            }
            None
        }
    }

    /// The raw store entries, in ascending time order.
    pub fn iter(&self) -> (r: &Vec<(usize, OptionArray<T>)>)
        requires
            self.inv(),
        ensures
            r@.len() == self@.len(),
            forall|i: int|
                0 <= i < r@.len() ==> (#[trigger] r@[i]).0 == self@[i].0 && r@[i].1@ == self@[i].1
                    && r@[i].1.wf(),
    {
        &self.entries
    }
}


/// The store after a batch of per-channel writes at one time key.
pub open spec fn spec_set_group<T>(
    s: Seq<(usize, Seq<Option<T>>)>,
    time: usize,
    values: Seq<(usize, T)>,
    width: nat,
) -> Seq<(usize, Seq<Option<T>>)>
    decreases values.len(),
{
    if values.len() == 0 {
        s
    } else {
        spec_set(
            spec_set_group(s, time, values.drop_last(), width),
            time,
            values.last().0 as int,
            values.last().1,
            width,
        )
    }
}

/// The store after writing a whole per-channel timeline into channel `c`.
pub open spec fn spec_absorb<T>(
    s: Seq<(usize, Seq<Option<T>>)>,
    c: int,
    entries: Seq<(usize, T)>,
    width: nat,
) -> Seq<(usize, Seq<Option<T>>)>
    decreases entries.len(),
{
    if entries.len() == 0 {
        s
    } else {
        spec_set(
            spec_absorb(s, c, entries.drop_last(), width),
            entries.last().0,
            c,
            entries.last().1,
            width,
        )
    }
}

/// The store after erasing channel `c` everywhere; keys whose snapshot
/// becomes empty are pruned.
pub open spec fn spec_clear_channel<T>(s: Seq<(usize, Seq<Option<T>>)>, c: int) -> Seq<
    (usize, Seq<Option<T>>),
>
    decreases s.len(),
{
    if s.len() == 0 {
        s
    } else {
        let rest = spec_clear_channel(s.drop_last(), c);
        let snap = s.last().1.update(c, None);
        if snapshot_nonempty(snap) {
            rest.push((s.last().0, snap))
        } else {
            rest
        }
    }
}

impl<T: ChannelValue> MultiSequence<T> {
    /// The held value of channel `channel` at `time`: the value in the
    /// snapshot at the greatest key at or before `time` where the channel
    /// is present, or the type default.
    pub fn floor(&self, time: usize, channel: usize) -> (r: T)
        requires
            self.inv(),
            store_wf(self@, self.spec_width()),
            channel < self.spec_width(),
        ensures
            r == chan_floor_val(self@, time, channel as int, T::default_spec()),
    {
        let ghost c = channel as int;
        let p = self.partition_le(time);
        proof {
            lemma_chan_floor_skip(self@, time, c, p as int);
        }
        let mut i: usize = p;
        while i > 0
            invariant
                i <= p <= self@.len(),
                self.inv(),
                store_wf(self@, self.spec_width()),
                channel < self.spec_width(),
                c == channel as int,
                forall|j: int| 0 <= j < p ==> (#[trigger] self@[j]).0 <= time,
                floor_entry(project(self@, c), time) == floor_entry(
                    project(self@.take(i as int), c),
                    time,
                ),
            decreases i,
        {
            proof {
                assert(self@.take(i as int).drop_last() =~= self@.take(i - 1));
                assert(self@.take(i as int).last() == self@[i - 1]);
                assert(self@[i - 1].1 == self.entries@[i - 1].1@);
            }
            let got = self.entries[i - 1].1.get(channel);
            match got {
                Some(v) => {
                    proof {
                        let pr = project(self@.take(i as int), c);
                        assert(pr.last() == (self@[i - 1].0, self@[i - 1].1[c]->0));
                        assert(pr.last().0 <= time);
                    }
                    return *v;
                },
                None => {},
            }
            i = i - 1;
        }
        proof {
            assert(self@.take(0) =~= Seq::<(usize, Seq<Option<T>>)>::empty());
        }
        T::default_value()
    }

    /// One floor query per channel, as a vector.
    pub fn floor_all(&self, time: usize) -> (r: Vec<T>)
        requires
            self.inv(),
            store_wf(self@, self.spec_width()),
        ensures
            r@.len() == self.spec_width(),
            forall|c: int|
                0 <= c < r@.len() ==> #[trigger] r@[c] == chan_floor_val(
                    self@,
                    time,
                    c,
                    T::default_spec(),
                ),
    {
        let w = self.width;
        let mut out: Vec<T> = Vec::new();
        let mut c: usize = 0;
        while c < w
            invariant
                c <= w,
                w == self.spec_width(),
                self.inv(),
                store_wf(self@, self.spec_width()),
                out@.len() == c,
                forall|j: int|
                    0 <= j < c ==> #[trigger] out@[j] == chan_floor_val(
                        self@,
                        time,
                        j,
                        T::default_spec(),
                    ),
            decreases w - c,
        {
            let v = self.floor(time, c);
            out.push(v);
            c = c + 1;
        }
        out
    }

    /// Floor queries for a chosen set of channels.
    pub fn floor_selected(&self, time: usize, indices: &Vec<usize>) -> (r: Vec<T>)
        requires
            self.inv(),
            store_wf(self@, self.spec_width()),
            forall|i: int|
                0 <= i < indices@.len() ==> #[trigger] indices@[i] < self.spec_width(),
        ensures
            r@.len() == indices@.len(),
            forall|i: int|
                0 <= i < r@.len() ==> #[trigger] r@[i] == chan_floor_val(
                    self@,
                    time,
                    indices@[i] as int,
                    T::default_spec(),
                ),
    {
        let n = indices.len();
        let mut out: Vec<T> = Vec::new();
        let mut k: usize = 0;
        while k < n
            invariant
                k <= n,
                n == indices@.len(),
                self.inv(),
                store_wf(self@, self.spec_width()),
                forall|i: int|
                    0 <= i < indices@.len() ==> #[trigger] indices@[i] < self.spec_width(),
                out@.len() == k,
                forall|i: int|
                    0 <= i < k ==> #[trigger] out@[i] == chan_floor_val(
                        self@,
                        time,
                        indices@[i] as int,
                        T::default_spec(),
                    ),
            decreases n - k,
        {
            let v = self.floor(time, indices[k]);
            out.push(v);
            k = k + 1;
        }
        out
    }
}

impl<T: Copy> MultiSequence<T> {
    /// Write several channels of one time key in a batch.
    pub fn set_group(&mut self, time: usize, values: &Vec<(usize, T)>)
        requires
            old(self).inv(),
            store_wf(old(self)@, old(self).spec_width()),
            forall|i: int|
                0 <= i < values@.len() ==> (#[trigger] values@[i]).0 < old(self).spec_width(),
        ensures
            final(self).inv(),
            final(self).spec_width() == old(self).spec_width(),
            store_wf(final(self)@, final(self).spec_width()),
            final(self)@ == spec_set_group(old(self)@, time, values@, old(self).spec_width()),
    {
        let ghost orig = self@;
        let ghost w = self.spec_width();
        let n = values.len();
        let mut k: usize = 0;
        while k < n
            invariant
                k <= n,
                n == values@.len(),
                self.inv(),
                self.spec_width() == w,
                store_wf(self@, w),
                forall|i: int| 0 <= i < values@.len() ==> (#[trigger] values@[i]).0 < w,
                self@ == spec_set_group(orig, time, values@.take(k as int), w),
            decreases n - k,
        {
            let (channel, value) = values[k];
            self.set(time, channel, value);
            proof {
                assert(values@.take(k + 1).drop_last() =~= values@.take(k as int));
                assert(values@.take(k + 1).last() == values@[k as int]);
            }
            k = k + 1;
        }
        proof {
            assert(values@.take(n as int) =~= values@);
        }
    }

    /// Replace the whole snapshot at `time` with the given full-width
    /// values, every channel present.
    pub fn insert(&mut self, time: usize, values: &Vec<T>)
        requires
            old(self).inv(),
            store_wf(old(self)@, old(self).spec_width()),
            values@.len() == old(self).spec_width(),
            old(self).spec_width() > 0,
        ensures
            final(self).inv(),
            final(self).spec_width() == old(self).spec_width(),
            store_wf(final(self)@, final(self).spec_width()),
            final(self)@ == crate::sequence::spec_insert(
                old(self)@,
                time,
                values@.map_values(|v: T| Some(v)),
            ),
    {
        let ghost orig = self@;
        let ghost w = self.spec_width();
        let ghost target = values@.map_values(|v: T| Some(v));
        let width = self.width;
        let mut arr: OptionArray<T> = OptionArray::new(width);
        let mut c: usize = 0;
        while c < width
            invariant
                c <= width,
                arr.wf(),
                arr@.len() == width,
                values@.len() == width,
                forall|j: int| 0 <= j < c ==> arr@[j] == Some(values@[j]),
                forall|j: int| c <= j < width ==> arr@[j] is None,
            decreases width - c,
        {
            arr.set(c, values[c]);
            c = c + 1;
        }
        proof {
            assert(arr@ =~= target);
        }
        let p = self.partition_le(time);
        if p > 0 && self.entries[p - 1].0 == time {
            let e = entry_mut(&mut self.entries, p - 1);
            *e = (time, arr);
            proof {
                crate::sequence::lemma_spec_insert_update(orig, time, target, p - 1);
                let r = crate::sequence::spec_insert(orig, time, target);
                assert(final(self)@ =~= r);
                assert forall|i: int|
                    0 <= i < r.len() implies (#[trigger] r[i].1).len() == w && snapshot_nonempty(
                    r[i].1) by {
                    if i != p - 1 {
                        assert(orig[i].1.len() == w);
                        assert(snapshot_nonempty(orig[i].1));
                    } else {
                        assert(r[i].1[0] is Some);
                    }
                }
            }
        } else {
            self.entries.insert(p, (time, arr));
            proof {
                assert forall|i: int| 0 <= i < p implies (#[trigger] orig[i]).0 < time by {
                    if i < p - 1 {
                        assert(orig[i].0 < orig[p - 1].0);
                    }
                }
                crate::sequence::lemma_spec_insert_split(orig, time, target, p as int);
                let r = crate::sequence::spec_insert(orig, time, target);
                assert(final(self)@ =~= r);
                assert forall|i: int|
                    0 <= i < r.len() implies (#[trigger] r[i].1).len() == w && snapshot_nonempty(
                    r[i].1) by {
                    if i < p {
                        assert(orig[i].1.len() == w);
                        assert(snapshot_nonempty(orig[i].1));
                    } else if i > p {
                        assert(orig[i - 1].1.len() == w);
                        assert(snapshot_nonempty(orig[i - 1].1));
                    } else {
                        assert(r[i].1[0] is Some);
                    }
                }
                assert forall|i: int, j: int|
                    0 <= i < j < r.len() implies (#[trigger] r[i]).0 < (#[trigger] r[j]).0 by {
                    if j < p {
                        assert(orig[i].0 < orig[j].0);
                    } else if j == p {
                        assert(orig[i].0 < time);
                    } else {
                        if i < p {
                            assert(orig[i].0 < time);
                            assert(orig[j - 1].0 > time);
                        } else if i == p {
                            assert(orig[j - 1].0 > time);
                        } else {
                            assert(orig[i - 1].0 < orig[j - 1].0);
                        }
                    }
                }
            }
        }
    }

    /// Extract channel `index` as a standalone per-channel timeline: the
    /// ordered explicit `(time, value)` entries where the channel is
    /// present.
    pub fn get_sequence(&self, index: usize) -> (r: Sequence<T>)
        requires
            self.inv(),
            store_wf(self@, self.spec_width()),
            index < self.spec_width(),
        ensures
            keys_sorted(r@),
            r@ == project(self@, index as int),
    {
        let ghost c = index as int;
        let n = self.entries.len();
        let mut seq: Sequence<T> = Sequence::new();
        let mut k: usize = 0;
        while k < n
            invariant
                k <= n,
                n == self@.len(),
                self.inv(),
                store_wf(self@, self.spec_width()),
                index < self.spec_width(),
                c == index as int,
                keys_sorted(seq@),
                seq@ == project(self@.take(k as int), c),
            decreases n - k,
        {
            proof {
                assert(self@.take(k + 1).drop_last() =~= self@.take(k as int));
                assert(self@.take(k + 1).last() == self@[k as int]);
                assert(self@[k as int].1 == self.entries@[k as int].1@);
                lemma_sorted_take(self@, k as int);
                lemma_project_key_bound(self@.take(k as int), c);
            }
            match self.entries[k].1.get(index) {
                Some(v) => {
                    proof {
                        if seq@.len() > 0 {
                            let pk = project(self@.take(k as int), c);
                            assert(key_in(self@.take(k as int), pk.last().0));
                            let m = choose|m: int|
                                0 <= m < self@.take(k as int).len() && #[trigger] self@.take(
                                    k as int,
                                )[m].0 == pk.last().0;
                            assert(self@[m].0 < self@[k as int].0);
                        }
                    }
                    seq.push_back(self.entries[k].0, *v);
                },
                None => {},
            }
            k = k + 1;
        }
        proof {
            assert(self@.take(n as int) =~= self@);
        }
        seq
    }

    /// Write every explicit entry of a per-channel timeline into channel
    /// `index` of this store (the inverse of projection).
    pub fn insert_sequence(&mut self, index: usize, seq: &Sequence<T>)
        requires
            old(self).inv(),
            store_wf(old(self)@, old(self).spec_width()),
            index < old(self).spec_width(),
        ensures
            final(self).inv(),
            final(self).spec_width() == old(self).spec_width(),
            store_wf(final(self)@, final(self).spec_width()),
            final(self)@ == spec_absorb(old(self)@, index as int, seq@, old(self).spec_width()),
    {
        let ghost orig = self@;
        let ghost w = self.spec_width();
        let ghost c = index as int;
        let entries = seq.iter();
        let n = entries.len();
        let mut k: usize = 0;
        while k < n
            invariant
                k <= n,
                n == seq@.len(),
                entries@ == seq@,
                self.inv(),
                self.spec_width() == w,
                store_wf(self@, w),
                index < w,
                c == index as int,
                self@ == spec_absorb(orig, c, seq@.take(k as int), w),
            decreases n - k,
        {
            let (time, value) = entries[k];
            self.set(time, index, value);
            proof {
                assert(seq@.take(k + 1).drop_last() =~= seq@.take(k as int));
                assert(seq@.take(k + 1).last() == seq@[k as int]);
            }
            k = k + 1;
        }
        proof {
            assert(seq@.take(n as int) =~= seq@);
        }
    }
}

/// Taking a prefix of a sorted store keeps it sorted.
pub proof fn lemma_sorted_take<T>(s: Seq<(usize, Seq<Option<T>>)>, k: int)
    requires
        keys_sorted(s),
        0 <= k <= s.len(),
    ensures
        keys_sorted(s.take(k)),
{
    assert forall|i: int, j: int|
        0 <= i < j < s.take(k).len() implies #[trigger] s.take(k)[i].0 < #[trigger] s.take(
        k)[j].0 by {
        assert(s[i].0 < s[j].0);
    }
}


impl<T: ChannelValue> MultiSequence<T> {
    /// Compact the store in one left-to-right pass over its time keys:
    /// for each channel, an explicit value equal to the currently held
    /// value is dropped; keys whose snapshot becomes empty are pruned.
    /// Every per-channel floor query is preserved, and afterwards no
    /// channel entry repeats the held value just before it.
    pub fn optimize(&mut self)
        requires
            old(self).inv(),
            store_wf(old(self)@, old(self).spec_width()),
        ensures
            final(self).inv(),
            final(self).spec_width() == old(self).spec_width(),
            store_wf(final(self)@, final(self).spec_width()),
            forall|c: int|
                0 <= c < final(self).spec_width() ==> #[trigger] project(final(self)@, c)
                    == opt_seq(project(old(self)@, c), T::default_spec()),
            forall|c: int|
                0 <= c < final(self).spec_width() ==> is_minimal(
                    #[trigger] project(final(self)@, c),
                    T::default_spec(),
                ),
            forall|t: usize, c: int|
                0 <= c < final(self).spec_width() ==> #[trigger] chan_floor_val(
                    final(self)@,
                    t,
                    c,
                    T::default_spec(),
                ) == chan_floor_val(old(self)@, t, c, T::default_spec()),
    {
        let ghost orig = self@;
        let ghost w = self.spec_width();
        let ghost d = T::default_spec();
        let width = self.width;
        let n = self.entries.len();
        let mut out: Vec<(usize, OptionArray<T>)> = Vec::new();
        let mut last: Vec<T> = Vec::new();
        let mut c0: usize = 0;
        while c0 < width
            invariant
                c0 <= width,
                last@.len() == c0,
                forall|j: int| 0 <= j < c0 ==> #[trigger] last@[j] == T::default_spec(),
            decreases width - c0,
        {
            last.push(T::default_value());
            c0 = c0 + 1;
        }
        proof {
            assert(orig.take(0) =~= Seq::<(usize, Seq<Option<T>>)>::empty());
            assert(entries_view(out@) =~= Seq::<(usize, Seq<Option<T>>)>::empty());
            assert forall|c: int| 0 <= c < w implies #[trigger] project(entries_view(out@), c)
                == opt_seq(project(orig.take(0), c), d) by {
                assert(project(orig.take(0), c) =~= Seq::<(usize, T)>::empty());
                assert(project(entries_view(out@), c) =~= Seq::<(usize, T)>::empty());
            }
        }
        let mut k: usize = 0;
        while k < n
            invariant
                k <= n,
                n == orig.len(),
                orig == self@,
                self.inv(),
                store_wf(orig, w),
                width as nat == w,
                self.spec_width() == w,
                last@.len() == w,
                keys_sorted(entries_view(out@)),
                out@.len() > 0 ==> k > 0,
                out@.len() > 0 && k > 0 ==> entries_view(out@).last().0 <= orig[k - 1].0,
                forall|i: int|
                    0 <= i < out@.len() ==> (#[trigger] out@[i]).1.wf() && out@[i].1@.len() == w
                        && snapshot_nonempty(out@[i].1@),
                forall|c: int|
                    0 <= c < w ==> #[trigger] project(entries_view(out@), c) == opt_seq(
                        project(orig.take(k as int), c),
                        d,
                    ),
                forall|c: int|
                    0 <= c < w ==> #[trigger] last@[c] == last_val(
                        project(orig.take(k as int), c),
                        d,
                    ),
            decreases n - k,
        {
            let time = self.entries[k].0;
            let ghost last_pre = last@;
            let mut snap: OptionArray<T> = OptionArray::new(width);
            let mut any = false;
            let mut c: usize = 0;
            proof {
                assert(orig[k as int].1 == self.entries@[k as int].1@);
                assert(time == orig[k as int].0);
            }
            while c < width
                invariant
                    c <= width,
                    k < n,
                    n == orig.len(),
                    orig == self@,
                    self.inv(),
                    store_wf(orig, w),
                    width as nat == w,
                    orig[k as int].1 == self.entries@[k as int].1@,
                    snap.wf(),
                    snap@.len() == w,
                    last@.len() == w,
                    last_pre.len() == w,
                    forall|j: int|
                        0 <= j < c ==> #[trigger] snap@[j] == (if orig[k as int].1[j] is Some
                            && orig[k as int].1[j]->0 != last_pre[j] {
                            orig[k as int].1[j]
                        } else {
                            None::<T>
                        }),
                    forall|j: int| c <= j < w ==> (#[trigger] snap@[j]) is None,
                    forall|j: int|
                        0 <= j < c ==> #[trigger] last@[j] == (if orig[k as int].1[j] is Some {
                            orig[k as int].1[j]->0
                        } else {
                            last_pre[j]
                        }),
                    forall|j: int| c <= j < w ==> #[trigger] last@[j] == last_pre[j],
                    any == exists|j: int| 0 <= j < c && (#[trigger] snap@[j]) is Some,
                decreases width - c,
            {
                match self.entries[k].1.get(c) {
                    Some(v) => {
                        let vv = *v;
                        if !vv.eq_value(last[c]) {
                            snap.set(c, vv);
                            last.set(c, vv);
                            any = true;
                            proof {
                                assert(snap@[c as int] is Some);
                            }
                        }
                    },
                    None => {},
                }
                c = c + 1;
            }
            let ghost out_pre = out@;
            proof {
                assert(orig.take(k + 1).drop_last() =~= orig.take(k as int));
                assert(orig.take(k + 1).last() == orig[k as int]);
            }
            if any {
                out.push((time, snap));
                proof {
                    assert(out@ == out_pre.push((time, snap)));
                    let ev0 = entries_view(out_pre);
                    let ev1 = entries_view(out@);
                    assert(ev1 =~= ev0.push((time, snap@)));
                    assert(ev1.drop_last() =~= ev0);
                    assert forall|c2: int|
                        0 <= c2 < w implies #[trigger] project(ev1, c2) == opt_seq(
                        project(orig.take(k + 1), c2),
                        d,
                    ) by {
                        let pc = project(orig.take(k as int), c2);
                        let pc1 = project(orig.take(k + 1), c2);
                        let cur = orig[k as int].1[c2];
                        assert(snap@[c2] == (if cur is Some && cur->0 != last_pre[c2] {
                            cur
                        } else {
                            None::<T>
                        }));
                        assert(project(ev0, c2) == opt_seq(pc, d));
                        if orig[k as int].1[c2] is Some {
                            let v = orig[k as int].1[c2]->0;
                            assert(pc1 == pc.push((time, v)));
                            assert(pc1.drop_last() =~= pc);
                            assert(last_val(pc, d) == last_pre[c2]);
                            if v != last_pre[c2] {
                                assert(snap@[c2] == Some(v));
                                assert(ev1.last() == (time, snap@));
                                assert(project(ev1, c2) == project(ev0, c2).push((time, v)));
                                assert(opt_seq(pc1, d) == opt_seq(pc, d).push((time, v)));
                            } else {
                                assert(snap@[c2] is None);
                                assert(project(ev1, c2) == project(ev0, c2));
                                assert(opt_seq(pc1, d) == opt_seq(pc, d));
                            }
                        } else {
                            assert(pc1 == pc);
                            assert(snap@[c2] is None);
                            assert(project(ev1, c2) == project(ev0, c2));
                        }
                    }
                    assert forall|c2: int|
                        0 <= c2 < w implies #[trigger] last@[c2] == last_val(
                        project(orig.take(k + 1), c2),
                        d,
                    ) by {
                        let pc = project(orig.take(k as int), c2);
                        let pc1 = project(orig.take(k + 1), c2);
                        assert(last@[c2] == (if orig[k as int].1[c2] is Some {
                            orig[k as int].1[c2]->0
                        } else {
                            last_pre[c2]
                        }));
                        assert(last_pre[c2] == last_val(pc, d));
                        if orig[k as int].1[c2] is Some {
                            assert(pc1 == pc.push((time, orig[k as int].1[c2]->0)));
                        } else {
                            assert(pc1 == pc);
                        }
                    }
                    assert forall|i: int, j: int|
                        0 <= i < j < ev1.len() implies (#[trigger] ev1[i]).0 < (
                    #[trigger] ev1[j]).0 by {
                        if j == ev1.len() - 1 {
                            assert(ev0[i].0 <= ev0.last().0);
                            assert(ev0.last().0 <= orig[k - 1].0);
                            assert(orig[k - 1].0 < orig[k as int].0);
                        } else {
                            assert(ev0[i].0 < ev0[j].0);
                        }
                    }
                    assert(snapshot_nonempty(snap@));
                }
            } else {
                proof {
                    let ev0 = entries_view(out@);
                    assert forall|c2: int|
                        0 <= c2 < w implies #[trigger] project(ev0, c2) == opt_seq(
                        project(orig.take(k + 1), c2),
                        d,
                    ) by {
                        let pc = project(orig.take(k as int), c2);
                        let pc1 = project(orig.take(k + 1), c2);
                        let cur = orig[k as int].1[c2];
                        assert(snap@[c2] == (if cur is Some && cur->0 != last_pre[c2] {
                            cur
                        } else {
                            None::<T>
                        }));
                        assert(project(ev0, c2) == opt_seq(pc, d));
                        if orig[k as int].1[c2] is Some {
                            let v = orig[k as int].1[c2]->0;
                            if v != last_pre[c2] {
                                assert(snap@[c2] is Some);
                                assert(false);
                            }
                            assert(pc1 == pc.push((time, v)));
                            assert(pc1.drop_last() =~= pc);
                            assert(last_val(pc, d) == last_pre[c2]);
                            assert(opt_seq(pc1, d) == opt_seq(pc, d));
                        } else {
                            assert(pc1 == pc);
                        }
                    }
                    assert forall|c2: int|
                        0 <= c2 < w implies #[trigger] last@[c2] == last_val(
                        project(orig.take(k + 1), c2),
                        d,
                    ) by {
                        let pc = project(orig.take(k as int), c2);
                        let pc1 = project(orig.take(k + 1), c2);
                        assert(last@[c2] == (if orig[k as int].1[c2] is Some {
                            orig[k as int].1[c2]->0
                        } else {
                            last_pre[c2]
                        }));
                        assert(last_pre[c2] == last_val(pc, d));
                        if orig[k as int].1[c2] is Some {
                            let v = orig[k as int].1[c2]->0;
                            if v != last_pre[c2] {
                                assert(snap@[c2] is Some);
                                assert(false);
                            }
                            assert(pc1 == pc.push((time, v)));
                        } else {
                            assert(pc1 == pc);
                        }
                    }
                }
            }
            k = k + 1;
        }
        proof {
            assert(orig.take(n as int) =~= orig);
        }
        self.entries = out;
        proof {
            assert forall|c: int|
                0 <= c < w implies is_minimal(#[trigger] project(final(self)@, c), d) by {
                lemma_opt_seq_minimal(project(orig, c), d);
            }
            assert forall|t: usize, c: int|
                0 <= c < w implies #[trigger] chan_floor_val(final(self)@, t, c, d)
                == chan_floor_val(orig, t, c, d) by {
                lemma_project_key_bound(orig, c);
                lemma_opt_seq_floor(project(orig, c), d, t);
            }
        }
    }
}


/// Exact-time reads after `spec_set`: the written channel reads back the
/// new value, every other channel at that time is unchanged.
pub proof fn lemma_spec_set_chan_at<T>(
    s: Seq<(usize, Seq<Option<T>>)>,
    time: usize,
    c: int,
    value: T,
    width: nat,
)
    requires
        keys_sorted(s),
        0 <= c < width,
        forall|i: int| 0 <= i < s.len() ==> (#[trigger] s[i].1).len() == width,
    ensures
        chan_at(spec_set(s, time, c, value, width), time, c) == Some(value),
        forall|c2: int|
            0 <= c2 < width && c2 != c ==> #[trigger] chan_at(
                spec_set(s, time, c, value, width),
                time,
                c2,
            ) == chan_at(s, time, c2),
{
    let r = spec_set(s, time, c, value, width);
    if exists|k: int| 0 <= k < s.len() && (#[trigger] s[k]).0 == time {
        let k = choose|k: int| 0 <= k < s.len() && (#[trigger] s[k]).0 == time;
        lemma_spec_set_update(s, time, c, value, width, k);
        assert forall|j: int| 0 <= j < s.len() && j != k implies (#[trigger] s[j]).0 != time by {
            if j < k {
                assert(s[j].0 < s[k].0);
            } else {
                assert(s[k].0 < s[j].0);
            }
        }
        crate::sequence::lemma_get_at_position(r, time, k);
        crate::sequence::lemma_get_at_position(s, time, k);
        assert(get_at(r, time) == Some(s[k].1.update(c, Some(value))));
    } else {
        assert(forall|k: int| 0 <= k < s.len() ==> (#[trigger] s[k]).0 != time);
        let p = count_below(s, time);
        lemma_count_below_partition(s, time);
        lemma_spec_set_split(s, time, c, value, width, p);
        let snap = blank_snapshot::<T>(width).update(c, Some(value));
        assert(r[p] == (time, snap));
        assert forall|j: int| 0 <= j < r.len() && j != p implies (#[trigger] r[j]).0 != time by {
            if j < p {
                assert(r[j] == s[j]);
            } else {
                assert(r[j] == s[j - 1]);
            }
        }
        crate::sequence::lemma_get_at_position(r, time, p);
        crate::sequence::lemma_get_at_none(s, time);
        assert(get_at(r, time) == Some(snap));
        assert forall|c2: int|
            0 <= c2 < width && c2 != c implies #[trigger] chan_at(r, time, c2) == chan_at(
            s,
            time,
            c2,
        ) by {
            assert(snap[c2] is None);
        }
    }
}

/// The number of keys strictly below `time` in a sorted store; it
/// partitions the store around `time` when `time` itself is absent.
spec fn count_below<T>(s: Seq<(usize, Seq<Option<T>>)>, time: usize) -> int
    decreases s.len(),
{
    if s.len() == 0 {
        0
    } else if s.last().0 < time {
        s.len() as int
    } else {
        count_below(s.drop_last(), time)
    }
}

proof fn lemma_count_below_partition<T>(s: Seq<(usize, Seq<Option<T>>)>, time: usize)
    requires
        keys_sorted(s),
        forall|k: int| 0 <= k < s.len() ==> (#[trigger] s[k]).0 != time,
    ensures
        0 <= count_below(s, time) <= s.len(),
        forall|i: int| 0 <= i < count_below(s, time) ==> (#[trigger] s[i]).0 < time,
        forall|i: int| count_below(s, time) <= i < s.len() ==> (#[trigger] s[i]).0 > time,
    decreases s.len(),
{
    if s.len() > 0 {
        lemma_sorted_prefix(s);
        if s.last().0 < time {
            assert forall|i: int| 0 <= i < s.len() implies (#[trigger] s[i]).0 < time by {
                if i < s.len() - 1 {
                    assert(s[i].0 < s[s.len() - 1].0);
                }
            }
        } else {
            lemma_count_below_partition(s.drop_last(), time);
            assert forall|i: int|
                0 <= i < count_below(s, time) implies (#[trigger] s[i]).0 < time by {
                assert(s.drop_last()[i].0 < time);
            }
            assert forall|i: int|
                count_below(s, time) <= i < s.len() implies (#[trigger] s[i]).0 > time by {
                if i < s.len() - 1 {
                    assert(s.drop_last()[i].0 > time);
                }
            }
        }
    }
}


impl<T: Copy> MultiSequence<T> {
    /// Erase channel `channel` from every snapshot, pruning keys whose
    /// snapshot becomes empty.
    fn clear_channel(&mut self, channel: usize)
        requires
            old(self).inv(),
            store_wf(old(self)@, old(self).spec_width()),
            channel < old(self).spec_width(),
        ensures
            final(self).inv(),
            final(self).spec_width() == old(self).spec_width(),
            store_wf(final(self)@, final(self).spec_width()),
            final(self)@ == spec_clear_channel(old(self)@, channel as int),
    {
        let ghost orig = self@;
        let ghost w = self.spec_width();
        let ghost c = channel as int;
        let width = self.width;
        let n = self.entries.len();
        let mut out: Vec<(usize, OptionArray<T>)> = Vec::new();
        proof {
            assert(orig.take(0) =~= Seq::<(usize, Seq<Option<T>>)>::empty());
            assert(entries_view(out@) =~= spec_clear_channel(orig.take(0), c));
        }
        let mut k: usize = 0;
        while k < n
            invariant
                k <= n,
                n == orig.len(),
                orig == self@,
                self.inv(),
                store_wf(orig, w),
                width as nat == w,
                self.spec_width() == w,
                channel < w,
                c == channel as int,
                keys_sorted(entries_view(out@)),
                out@.len() > 0 ==> k > 0,
                out@.len() > 0 && k > 0 ==> entries_view(out@).last().0 <= orig[k - 1].0,
                forall|i: int|
                    0 <= i < out@.len() ==> (#[trigger] out@[i]).1.wf() && out@[i].1@.len() == w
                        && snapshot_nonempty(out@[i].1@),
                entries_view(out@) == spec_clear_channel(orig.take(k as int), c),
            decreases n - k,
        {
            let time = self.entries[k].0;
            let mut snap: OptionArray<T> = OptionArray::new(width);
            let mut any = false;
            let mut cc: usize = 0;
            proof {
                assert(orig[k as int].1 == self.entries@[k as int].1@);
                assert(time == orig[k as int].0);
            }
            while cc < width
                invariant
                    cc <= width,
                    k < n,
                    n == orig.len(),
                    orig == self@,
                    self.inv(),
                    store_wf(orig, w),
                    width as nat == w,
                    channel < w,
                    c == channel as int,
                    orig[k as int].1 == self.entries@[k as int].1@,
                    snap.wf(),
                    snap@.len() == w,
                    forall|j: int|
                        0 <= j < cc ==> #[trigger] snap@[j] == (if j == c {
                            None::<T>
                        } else {
                            orig[k as int].1[j]
                        }),
                    forall|j: int| cc <= j < w ==> (#[trigger] snap@[j]) is None,
                    any == exists|j: int| 0 <= j < cc && (#[trigger] snap@[j]) is Some,
                decreases width - cc,
            {
                if cc != channel {
                    match self.entries[k].1.get(cc) {
                        Some(v) => {
                            snap.set(cc, *v);
                            any = true;
                            proof {
                                assert(snap@[cc as int] is Some);
                            }
                        },
                        None => {},
                    }
                }
                cc = cc + 1;
            }
            let ghost out_pre = out@;
            proof {
                assert(orig.take(k + 1).drop_last() =~= orig.take(k as int));
                assert(orig.take(k + 1).last() == orig[k as int]);
                assert(snap@ =~= orig[k as int].1.update(c, None::<T>));
            }
            if any {
                out.push((time, snap));
                proof {
                    assert(out@ == out_pre.push((time, snap)));
                    let ev0 = entries_view(out_pre);
                    let ev1 = entries_view(out@);
                    assert(ev1 =~= ev0.push((time, snap@)));
                    assert(snapshot_nonempty(snap@));
                    assert(ev1 == spec_clear_channel(orig.take(k + 1), c));
                    assert forall|i: int, j: int|
                        0 <= i < j < ev1.len() implies (#[trigger] ev1[i]).0 < (
                    #[trigger] ev1[j]).0 by {
                        if j == ev1.len() - 1 {
                            assert(ev0[i].0 <= ev0.last().0);
                            assert(ev0.last().0 <= orig[k - 1].0);
                            assert(orig[k - 1].0 < orig[k as int].0);
                        } else {
                            assert(ev0[i].0 < ev0[j].0);
                        }
                    }
                }
            } else {
                proof {
                    assert(!snapshot_nonempty(snap@));
                    assert(entries_view(out@) == spec_clear_channel(orig.take(k + 1), c));
                }
            }
            k = k + 1;
        }
        proof {
            assert(orig.take(n as int) =~= orig);
        }
        self.entries = out;
    }

    /// Replace channel `index` wholesale: erase its entries everywhere,
    /// then write the given timeline into it.
    pub fn replace_sequence(&mut self, index: usize, seq: &Sequence<T>)
        requires
            old(self).inv(),
            store_wf(old(self)@, old(self).spec_width()),
            index < old(self).spec_width(),
        ensures
            final(self).inv(),
            final(self).spec_width() == old(self).spec_width(),
            store_wf(final(self)@, final(self).spec_width()),
            final(self)@ == spec_absorb(
                spec_clear_channel(old(self)@, index as int),
                index as int,
                seq@,
                old(self).spec_width(),
            ),
    {
        self.clear_channel(index);
        self.insert_sequence(index, seq);
    }
}


/// The little-endian byte pair of a 16-bit value, low byte first.
pub open spec fn raw_snapshot(snap: Seq<Option<u16>>) -> Seq<Option<u8>> {
    Seq::new(
        2 * snap.len(),
        |i: int|
            match snap[i / 2] {
                Some(v) => Some(
                    if i % 2 == 0 {
                        (v % 256) as u8
                    } else {
                        (v / 256) as u8
                    },
                ),
                None => None,
            },
    )
}

/// The typed reading of a byte snapshot: a value is present exactly
/// when both of its bytes are.
pub open spec fn typed_snapshot(snap: Seq<Option<u8>>) -> Seq<Option<u16>> {
    Seq::new(
        snap.len() / 2,
        |c: int|
            match (snap[2 * c], snap[2 * c + 1]) {
                (Some(lo), Some(hi)) => Some((lo as u16 + 256 * (hi as u16)) as u16),
                _ => None,
            },
    )
}

/// A 16-bit store spread out over byte channels, key by key.
pub open spec fn spec_to_raw(s: Seq<(usize, Seq<Option<u16>>)>) -> Seq<(usize, Seq<Option<u8>>)> {
    s.map_values(|p: (usize, Seq<Option<u16>>)| (p.0, raw_snapshot(p.1)))
}

/// A byte store reassembled into 16-bit channels; keys whose typed
/// snapshot is empty are pruned.
pub open spec fn spec_from_raw(s: Seq<(usize, Seq<Option<u8>>)>) -> Seq<(usize, Seq<Option<u16>>)>
    decreases s.len(),
{
    if s.len() == 0 {
        Seq::empty()
    } else {
        let rest = spec_from_raw(s.drop_last());
        let snap = typed_snapshot(s.last().1);
        if snapshot_nonempty(snap) {
            rest.push((s.last().0, snap))
        } else {
            rest
        }
    }
}

impl MultiSequence<u16> {
    /// Spread this 16-bit store out over byte channels: channel `c`
    /// becomes byte channels `2c` (low) and `2c + 1` (high), present
    /// exactly where the typed channel is.
    pub fn to_raw(&self) -> (r: MultiSequence<u8>)
        requires
            self.inv(),
            store_wf(self@, self.spec_width()),
            self.spec_width() <= 0x7fff_ffff,
        ensures
            r.inv(),
            r.spec_width() == 2 * self.spec_width(),
            store_wf(r@, r.spec_width()),
            r@ == spec_to_raw(self@),
    {
        let ghost orig = self@;
        let ghost w = self.spec_width();
        let width = self.width;
        let n = self.entries.len();
        let mut out: Vec<(usize, OptionArray<u8>)> = Vec::new();
        let mut k: usize = 0;
        while k < n
            invariant
                k <= n,
                n == orig.len(),
                orig == self@,
                self.inv(),
                store_wf(orig, w),
                width as nat == w,
                width <= 0x7fff_ffff,
                out@.len() == k,
                forall|i: int|
                    0 <= i < k ==> (#[trigger] out@[i]).1.wf() && out@[i].0 == orig[i].0
                        && out@[i].1@ == raw_snapshot(orig[i].1),
            decreases n - k,
        {
            let time = self.entries[k].0;
            let mut snap: OptionArray<u8> = OptionArray::new(2 * width);
            let mut c: usize = 0;
            proof {
                assert(orig[k as int].1 == self.entries@[k as int].1@);
            }
            while c < width
                invariant
                    c <= width,
                    k < n,
                    n == orig.len(),
                    orig == self@,
                    self.inv(),
                    store_wf(orig, w),
                    width as nat == w,
                    width <= 0x7fff_ffff,
                    orig[k as int].1 == self.entries@[k as int].1@,
                    snap.wf(),
                    snap@.len() == 2 * width,
                    forall|i: int|
                        0 <= i < 2 * c ==> #[trigger] snap@[i] == raw_snapshot(orig[k as int].1)[i],
                    forall|i: int| 2 * c <= i < 2 * width ==> (#[trigger] snap@[i]) is None,
                decreases width - c,
            {
                match self.entries[k].1.get(c) {
                    Some(v) => {
                        let lo: u8 = (*v % 256) as u8;
                        let hi: u8 = (*v / 256) as u8;
                        snap.set(2 * c, lo);
                        snap.set(2 * c + 1, hi);
                    },
                    None => {},
                }
                proof {
                    assert forall|i: int|
                        0 <= i < 2 * (c + 1) implies #[trigger] snap@[i] == raw_snapshot(
                        orig[k as int].1,
                    )[i] by {
                        assert(i / 2 < w);
                    }
                }
                c = c + 1;
            }
            proof {
                assert(snap@ =~= raw_snapshot(orig[k as int].1));
            }
            out.push((time, snap));
            k = k + 1;
        }
        let result = MultiSequence { width: 2 * width, entries: out };
        proof {
            assert(result@ =~= spec_to_raw(orig));
            assert forall|i: int, j: int|
                0 <= i < j < result@.len() implies (#[trigger] result@[i]).0 < (
            #[trigger] result@[j]).0 by {
                assert(orig[i].0 < orig[j].0);
            }
            assert forall|i: int|
                0 <= i < result@.len() implies (#[trigger] result@[i].1).len() == 2 * w
                    && snapshot_nonempty(result@[i].1) by {
                assert(snapshot_nonempty(orig[i].1));
                let c = choose|c: int| 0 <= c < orig[i].1.len() && orig[i].1[c] is Some;
                assert(result@[i].1[2 * c] is Some);
            }
        }
        result
    }
}

impl MultiSequence<u8> {
    /// Reassemble a byte store into 16-bit channels: a value is present
    /// at a key exactly when both of its bytes are present there; keys
    /// with no complete value are pruned.  The byte width must divide
    /// evenly into values.
    pub fn from_raw(raw: &MultiSequence<u8>) -> (r: MultiSequence<u16>)
        requires
            raw.inv(),
            store_wf(raw@, raw.spec_width()),
            raw.spec_width() % 2 == 0,
        ensures
            r.inv(),
            r.spec_width() == raw.spec_width() / 2,
            store_wf(r@, r.spec_width()),
            r@ == spec_from_raw(raw@),
    {
        let ghost orig = raw@;
        let ghost w = raw.spec_width();
        let width = raw.width;
        let half = width / 2;
        let n = raw.entries.len();
        let mut out: Vec<(usize, OptionArray<u16>)> = Vec::new();
        proof {
            assert(orig.take(0) =~= Seq::<(usize, Seq<Option<u8>>)>::empty());
            assert(entries_view(out@) =~= spec_from_raw(orig.take(0)));
        }
        let mut k: usize = 0;
        while k < n
            invariant
                k <= n,
                n == orig.len(),
                orig == raw@,
                raw.inv(),
                store_wf(orig, w),
                width as nat == w,
                w % 2 == 0,
                half == width / 2,
                keys_sorted(entries_view(out@)),
                out@.len() > 0 ==> k > 0,
                out@.len() > 0 && k > 0 ==> entries_view(out@).last().0 <= orig[k - 1].0,
                forall|i: int|
                    0 <= i < out@.len() ==> (#[trigger] out@[i]).1.wf() && out@[i].1@.len() == w / 2
                        && snapshot_nonempty(out@[i].1@),
                entries_view(out@) == spec_from_raw(orig.take(k as int)),
            decreases n - k,
        {
            let time = raw.entries[k].0;
            let mut snap: OptionArray<u16> = OptionArray::new(half);
            let mut any = false;
            let mut c: usize = 0;
            proof {
                assert(orig[k as int].1 == raw.entries@[k as int].1@);
                assert(time == orig[k as int].0);
            }
            while c < half
                invariant
                    c <= half,
                    k < n,
                    n == orig.len(),
                    orig == raw@,
                    raw.inv(),
                    store_wf(orig, w),
                    width as nat == w,
                    w % 2 == 0,
                    half == width / 2,
                    orig[k as int].1 == raw.entries@[k as int].1@,
                    snap.wf(),
                    snap@.len() == w / 2,
                    forall|j: int|
                        0 <= j < c ==> #[trigger] snap@[j] == typed_snapshot(orig[k as int].1)[j],
                    forall|j: int| c <= j < half ==> (#[trigger] snap@[j]) is None,
                    any == exists|j: int| 0 <= j < c && (#[trigger] snap@[j]) is Some,
                decreases half - c,
            {
                let lo = raw.entries[k].1.get(2 * c);
                let hi = raw.entries[k].1.get(2 * c + 1);
                match (lo, hi) {
                    (Some(l), Some(h)) => {
                        let v: u16 = (*l as u16) + 256 * (*h as u16);
                        snap.set(c, v);
                        any = true;
                        proof {
                            assert(snap@[c as int] is Some);
                        }
                    },
                    _ => {},
                }
                c = c + 1;
            }
            let ghost out_pre = out@;
            proof {
                assert(orig.take(k + 1).drop_last() =~= orig.take(k as int));
                assert(orig.take(k + 1).last() == orig[k as int]);
                assert(snap@ =~= typed_snapshot(orig[k as int].1));
            }
            if any {
                out.push((time, snap));
                proof {
                    assert(out@ == out_pre.push((time, snap)));
                    let ev0 = entries_view(out_pre);
                    let ev1 = entries_view(out@);
                    assert(ev1 =~= ev0.push((time, snap@)));
                    assert(snapshot_nonempty(snap@));
                    assert(ev1 == spec_from_raw(orig.take(k + 1)));
                    assert forall|i: int, j: int|
                        0 <= i < j < ev1.len() implies (#[trigger] ev1[i]).0 < (
                    #[trigger] ev1[j]).0 by {
                        if j == ev1.len() - 1 {
                            assert(ev0[i].0 <= ev0.last().0);
                            assert(ev0.last().0 <= orig[k - 1].0);
                            assert(orig[k - 1].0 < orig[k as int].0);
                        } else {
                            assert(ev0[i].0 < ev0[j].0);
                        }
                    }
                }
            } else {
                proof {
                    assert(!snapshot_nonempty(snap@));
                    assert(entries_view(out@) == spec_from_raw(orig.take(k + 1)));
                }
            }
            k = k + 1;
        }
        proof {
            assert(orig.take(n as int) =~= orig);
        }
        MultiSequence { width: half, entries: out }
    }
}


/// Reading a typed snapshot back out of its byte spread returns the
/// original snapshot.
pub proof fn lemma_snapshot_round_trip(snap: Seq<Option<u16>>)
    ensures
        typed_snapshot(raw_snapshot(snap)) == snap,
{
    let r = typed_snapshot(raw_snapshot(snap));
    assert forall|c: int| 0 <= c < snap.len() implies r[c] == snap[c] by {
        assert(raw_snapshot(snap)[2 * c] == (match snap[c] {
            Some(v) => Some((v % 256) as u8),
            None => None,
        }));
        assert(raw_snapshot(snap)[2 * c + 1] == (match snap[c] {
            Some(v) => Some((v / 256) as u8),
            None => None,
        }));
        if snap[c] is Some {
            let v = snap[c]->0;
            assert(v % 256 + 256 * (v / 256) == v) by (nonlinear_arith);
        }
    }
    assert(r =~= snap);
}

/// Spreading a 16-bit store over byte channels and reassembling it
/// returns the original store: the reinterpretation loses nothing.
pub proof fn lemma_store_round_trip(s: Seq<(usize, Seq<Option<u16>>)>, width: nat)
    requires
        store_wf(s, width),
    ensures
        spec_from_raw(spec_to_raw(s)) == s,
    decreases s.len(),
{
    if s.len() > 0 {
        lemma_sorted_prefix(s);
        assert forall|i: int|
            0 <= i < s.drop_last().len() implies (#[trigger] s.drop_last()[i].1).len() == width
            && snapshot_nonempty(s.drop_last()[i].1) by {
            assert(s[i].1.len() == width);
            assert(snapshot_nonempty(s[i].1));
        }
        lemma_store_round_trip(s.drop_last(), width);
        let r = spec_to_raw(s);
        assert(r.drop_last() =~= spec_to_raw(s.drop_last()));
        lemma_snapshot_round_trip(s.last().1);
        assert(snapshot_nonempty(s.last().1));
        let c = choose|c: int| 0 <= c < s.last().1.len() && s.last().1[c] is Some;
        assert(typed_snapshot(raw_snapshot(s.last().1))[c] is Some);
        assert(snapshot_nonempty(typed_snapshot(r.last().1)));
        assert(spec_from_raw(r) =~= s);
    }
}


/// The held value of channel `c` at (and including) entry `k` of the
/// store.
pub open spec fn held_at<T>(s: Seq<(usize, Seq<Option<T>>)>, k: int, c: int, d: T) -> T {
    last_val(project(s.take(k + 1), c), d)
}

/// The complement store: at every explicit key of the operand, every
/// channel carries the bitwise complement of its held value there,
/// omitting default results; keys whose snapshot would be empty are
/// pruned.  No key is synthesized.
pub open spec fn spec_complement_store<T: BitwiseValue>(
    s: Seq<(usize, Seq<Option<T>>)>,
    width: nat,
    k: int,
) -> Seq<(usize, Seq<Option<T>>)>
    decreases
            (if k > 0 {
                k
            } else {
                0
            }),
{
    if k <= 0 {
        Seq::empty()
    } else {
        let rest = spec_complement_store(s, width, k - 1);
        let snap = Seq::new(
            width,
            |c: int|
                {
                    let v = held_at(s, k - 1, c, T::default_spec()).not_spec();
                    if v != T::default_spec() {
                        Some(v)
                    } else {
                        None
                    }
                },
        );
        if snapshot_nonempty(snap) {
            rest.push((s[k - 1].0, snap))
        } else {
            rest
        }
    }
}

impl<T: BitwiseValue> MultiSequence<T> {
    /// The bitwise complement of this store: at every explicit key,
    /// each channel's held value is complemented, with default results
    /// omitted; no new keys are synthesized.
    pub fn complement(&self) -> (r: MultiSequence<T>)
        requires
            self.inv(),
            store_wf(self@, self.spec_width()),
        ensures
            r.inv(),
            r.spec_width() == self.spec_width(),
            store_wf(r@, r.spec_width()),
            r@ == spec_complement_store(self@, self.spec_width(), self@.len() as int),
    {
        let ghost orig = self@;
        let ghost w = self.spec_width();
        let ghost d = T::default_spec();
        let width = self.width;
        let n = self.entries.len();
        let mut out: Vec<(usize, OptionArray<T>)> = Vec::new();
        let mut last: Vec<T> = Vec::new();
        let mut c0: usize = 0;
        while c0 < width
            invariant
                c0 <= width,
                last@.len() == c0,
                forall|j: int| 0 <= j < c0 ==> #[trigger] last@[j] == T::default_spec(),
            decreases width - c0,
        {
            last.push(T::default_value());
            c0 = c0 + 1;
        }
        proof {
            assert(entries_view(out@) =~= spec_complement_store(orig, w, 0));
            assert forall|c: int| 0 <= c < w implies #[trigger] last@[c] == last_val(
                project(orig.take(0), c),
                d,
            ) by {
                assert(project(orig.take(0), c) =~= Seq::<(usize, T)>::empty());
            }
        }
        let mut k: usize = 0;
        while k < n
            invariant
                k <= n,
                n == orig.len(),
                orig == self@,
                self.inv(),
                store_wf(orig, w),
                width as nat == w,
                self.spec_width() == w,
                d == T::default_spec(),
                last@.len() == w,
                keys_sorted(entries_view(out@)),
                out@.len() > 0 ==> k > 0,
                out@.len() > 0 && k > 0 ==> entries_view(out@).last().0 <= orig[k - 1].0,
                forall|i: int|
                    0 <= i < out@.len() ==> (#[trigger] out@[i]).1.wf() && out@[i].1@.len() == w
                        && snapshot_nonempty(out@[i].1@),
                entries_view(out@) == spec_complement_store(orig, w, k as int),
                forall|c: int|
                    0 <= c < w ==> #[trigger] last@[c] == last_val(project(orig.take(k as int), c), d),
            decreases n - k,
        {
            let time = self.entries[k].0;
            let ghost last_pre = last@;
            let mut snap: OptionArray<T> = OptionArray::new(width);
            let mut any = false;
            let mut c: usize = 0;
            proof {
                assert(orig[k as int].1 == self.entries@[k as int].1@);
                assert(time == orig[k as int].0);
            }
            while c < width
                invariant
                    c <= width,
                    k < n,
                    n == orig.len(),
                    orig == self@,
                    self.inv(),
                    store_wf(orig, w),
                    width as nat == w,
                    d == T::default_spec(),
                    orig[k as int].1 == self.entries@[k as int].1@,
                    snap.wf(),
                    snap@.len() == w,
                    last@.len() == w,
                    last_pre.len() == w,
                    forall|j: int|
                        0 <= j < c ==> #[trigger] snap@[j] == (if (if orig[k as int].1[j]
                            is Some {
                            orig[k as int].1[j]->0
                        } else {
                            last_pre[j]
                        }).not_spec() != d {
                            Some(
                                (if orig[k as int].1[j] is Some {
                                    orig[k as int].1[j]->0
                                } else {
                                    last_pre[j]
                                }).not_spec(),
                            )
                        } else {
                            None::<T>
                        }),
                    forall|j: int| c <= j < w ==> (#[trigger] snap@[j]) is None,
                    forall|j: int|
                        0 <= j < c ==> #[trigger] last@[j] == (if orig[k as int].1[j] is Some {
                            orig[k as int].1[j]->0
                        } else {
                            last_pre[j]
                        }),
                    forall|j: int| c <= j < w ==> #[trigger] last@[j] == last_pre[j],
                    any == exists|j: int| 0 <= j < c && (#[trigger] snap@[j]) is Some,
                decreases width - c,
            {
                let cur: T = match self.entries[k].1.get(c) {
                    Some(v) => {
                        let vv = *v;
                        last.set(c, vv);
                        vv
                    },
                    None => last[c],
                };
                let flipped = cur.not_value();
                if !flipped.eq_value(T::default_value()) {
                    snap.set(c, flipped);
                    any = true;
                    proof {
                        assert(snap@[c as int] is Some);
                    }
                }
                c = c + 1;
            }
            let ghost out_pre = out@;
            proof {
                assert(orig.take(k + 1).drop_last() =~= orig.take(k as int));
                assert(orig.take(k + 1).last() == orig[k as int]);
                assert forall|c2: int|
                    0 <= c2 < w implies held_at(orig, k as int, c2, d) == (
                if orig[k as int].1[c2] is Some {
                    orig[k as int].1[c2]->0
                } else {
                    last_pre[c2]
                }) by {
                    let pc = project(orig.take(k as int), c2);
                    let pc1 = project(orig.take(k + 1), c2);
                    if orig[k as int].1[c2] is Some {
                        assert(pc1 == pc.push((time, orig[k as int].1[c2]->0)));
                    } else {
                        assert(pc1 == pc);
                    }
                }
                assert forall|c2: int|
                    0 <= c2 < w implies #[trigger] last@[c2] == last_val(
                    project(orig.take(k + 1), c2),
                    d,
                ) by {
                    let pc = project(orig.take(k as int), c2);
                    let pc1 = project(orig.take(k + 1), c2);
                    if orig[k as int].1[c2] is Some {
                        assert(pc1 == pc.push((time, orig[k as int].1[c2]->0)));
                    } else {
                        assert(pc1 == pc);
                    }
                }
                let sspec = Seq::new(
                    w,
                    |c2: int|
                        {
                            let v = held_at(orig, k as int, c2, d).not_spec();
                            if v != d {
                                Some(v)
                            } else {
                                None::<T>
                            }
                        },
                );
                assert(snap@ =~= sspec);
            }
            if any {
                out.push((time, snap));
                proof {
                    assert(out@ == out_pre.push((time, snap)));
                    let ev0 = entries_view(out_pre);
                    let ev1 = entries_view(out@);
                    assert(ev1 =~= ev0.push((time, snap@)));
                    assert(snapshot_nonempty(snap@));
                    assert(ev1 == spec_complement_store(orig, w, k + 1));
                    assert forall|i: int, j: int|
                        0 <= i < j < ev1.len() implies (#[trigger] ev1[i]).0 < (
                    #[trigger] ev1[j]).0 by {
                        if j == ev1.len() - 1 {
                            assert(ev0[i].0 <= ev0.last().0);
                            assert(ev0.last().0 <= orig[k - 1].0);
                            assert(orig[k - 1].0 < orig[k as int].0);
                        } else {
                            assert(ev0[i].0 < ev0[j].0);
                        }
                    }
                }
            } else {
                proof {
                    assert(!snapshot_nonempty(snap@));
                    assert(entries_view(out@) == spec_complement_store(orig, w, k + 1));
                }
            }
            k = k + 1;
        }
        MultiSequence { width, entries: out }
    }
}


/// The pointwise snapshot of two stores: every channel carries the
/// connective of the held values of both sides, with default results
/// omitted.
pub open spec fn combine_snap<T: BitwiseValue>(
    a: Seq<(usize, Seq<Option<T>>)>,
    b: Seq<(usize, Seq<Option<T>>)>,
    op: BitOp,
    width: nat,
) -> Seq<Option<T>> {
    Seq::new(
        width,
        |c: int|
            {
                let v = apply_op(
                    op,
                    last_val(project(a, c), T::default_spec()),
                    last_val(project(b, c), T::default_spec()),
                );
                if v != T::default_spec() {
                    Some(v)
                } else {
                    None
                }
            },
    )
}

/// The combined store: one candidate snapshot per key of either
/// operand, valued channel by channel at the connective of the held
/// values of both sides there; snapshots left empty by the omission
/// rule are pruned.
pub open spec fn store_combine<T: BitwiseValue>(
    a: Seq<(usize, Seq<Option<T>>)>,
    b: Seq<(usize, Seq<Option<T>>)>,
    op: BitOp,
    width: nat,
) -> Seq<(usize, Seq<Option<T>>)>
    decreases a.len() + b.len(),
{
    if a.len() == 0 && b.len() == 0 {
        Seq::empty()
    } else if b.len() == 0 || (a.len() > 0 && a.last().0 > b.last().0) {
        let k = a.last().0;
        let snap = combine_snap(a, b, op, width);
        let rest = store_combine(a.drop_last(), b, op, width);
        if snapshot_nonempty(snap) {
            rest.push((k, snap))
        } else {
            rest
        }
    } else if a.len() == 0 || b.last().0 > a.last().0 {
        let k = b.last().0;
        let snap = combine_snap(a, b, op, width);
        let rest = store_combine(a, b.drop_last(), op, width);
        if snapshot_nonempty(snap) {
            rest.push((k, snap))
        } else {
            rest
        }
    } else {
        let k = a.last().0;
        let snap = combine_snap(a, b, op, width);
        let rest = store_combine(a.drop_last(), b.drop_last(), op, width);
        if snapshot_nonempty(snap) {
            rest.push((k, snap))
        } else {
            rest
        }
    }
}

impl<T: BitwiseValue> MultiSequence<T> {
    /// Combine two stores of equal width pointwise under the given
    /// connective: for every key of either operand, every channel
    /// carries the connective of the held values of both sides, with
    /// default results omitted and empty snapshots pruned.
    pub fn combine(&self, other: &MultiSequence<T>, op: BitOp) -> (r: MultiSequence<T>)
        requires
            self.inv(),
            other.inv(),
            store_wf(self@, self.spec_width()),
            store_wf(other@, other.spec_width()),
            self.spec_width() == other.spec_width(),
        ensures
            r.inv(),
            r.spec_width() == self.spec_width(),
            store_wf(r@, r.spec_width()),
            r@ == store_combine(self@, other@, op, self.spec_width()),
    {
        let ghost va = self@;
        let ghost vb = other@;
        let ghost w = self.spec_width();
        let ghost d = T::default_spec();
        let width = self.width;
        let na = self.entries.len();
        let nb = other.entries.len();
        let mut out: Vec<(usize, OptionArray<T>)> = Vec::new();
        let mut last_a: Vec<T> = Vec::new();
        let mut last_b: Vec<T> = Vec::new();
        let mut c0: usize = 0;
        while c0 < width
            invariant
                c0 <= width,
                last_a@.len() == c0,
                last_b@.len() == c0,
                forall|j: int| 0 <= j < c0 ==> #[trigger] last_a@[j] == T::default_spec(),
                forall|j: int| 0 <= j < c0 ==> #[trigger] last_b@[j] == T::default_spec(),
            decreases width - c0,
        {
            last_a.push(T::default_value());
            last_b.push(T::default_value());
            c0 = c0 + 1;
        }
        let mut i: usize = 0;
        let mut j: usize = 0;
        proof {
            assert(va.take(0) =~= Seq::<(usize, Seq<Option<T>>)>::empty());
            assert(vb.take(0) =~= Seq::<(usize, Seq<Option<T>>)>::empty());
            assert(entries_view(out@) =~= store_combine(va.take(0), vb.take(0), op, w));
            assert forall|c: int| 0 <= c < w implies #[trigger] last_a@[c] == last_val(
                project(va.take(0), c),
                d,
            ) && last_b@[c] == last_val(project(vb.take(0), c), d) by {
                assert(project(va.take(0), c) =~= Seq::<(usize, T)>::empty());
                assert(project(vb.take(0), c) =~= Seq::<(usize, T)>::empty());
            }
        }
        while i < na || j < nb
            invariant
                i <= na,
                j <= nb,
                na == va.len(),
                nb == vb.len(),
                va == self@,
                vb == other@,
                self.inv(),
                other.inv(),
                store_wf(va, w),
                store_wf(vb, w),
                width as nat == w,
                self.spec_width() == w,
                d == T::default_spec(),
                last_a@.len() == w,
                last_b@.len() == w,
                keys_sorted(entries_view(out@)),
                forall|c: int|
                    0 <= c < w ==> #[trigger] last_a@[c] == last_val(project(va.take(i as int), c), d),
                forall|c: int|
                    0 <= c < w ==> #[trigger] last_b@[c] == last_val(project(vb.take(j as int), c), d),
                entries_view(out@) == store_combine(va.take(i as int), vb.take(j as int), op, w),
                forall|q: int|
                    0 <= q < out@.len() ==> (#[trigger] out@[q]).1.wf() && out@[q].1@.len() == w
                        && snapshot_nonempty(out@[q].1@),
                i < na && j > 0 ==> vb[j - 1].0 < va[i as int].0,
                j < nb && i > 0 ==> va[i - 1].0 < vb[j as int].0,
                out@.len() > 0 && i < na ==> entries_view(out@).last().0 < va[i as int].0,
                out@.len() > 0 && j < nb ==> entries_view(out@).last().0 < vb[j as int].0,
            decreases (na - i) + (nb - j),
        {
            let take_a = j >= nb || (i < na && self.entries[i].0 < other.entries[j].0);
            let take_both = i < na && j < nb && self.entries[i].0 == other.entries[j].0;
            let ghost pa = va.take(i as int);
            let ghost pb = vb.take(j as int);
            let ghost last_a_pre = last_a@;
            let ghost last_b_pre = last_b@;
            let time: usize;
            let adv_a: bool;
            let adv_b: bool;
            if take_both {
                time = self.entries[i].0;
                adv_a = true;
                adv_b = true;
            } else if take_a {
                time = self.entries[i].0;
                adv_a = true;
                adv_b = false;
            } else {
                time = other.entries[j].0;
                adv_a = false;
                adv_b = true;
            }
            proof {
                if adv_a {
                    assert(va.take(i + 1).drop_last() =~= pa);
                    assert(va.take(i + 1).last() == va[i as int]);
                    assert(va[i as int].1 == self.entries@[i as int].1@);
                }
                if adv_b {
                    assert(vb.take(j + 1).drop_last() =~= pb);
                    assert(vb.take(j + 1).last() == vb[j as int]);
                    assert(vb[j as int].1 == other.entries@[j as int].1@);
                }
            }
            let mut snap: OptionArray<T> = OptionArray::new(width);
            let mut any = false;
            let mut c: usize = 0;
            while c < width
                invariant
                    c <= width,
                    i <= na,
                    j <= nb,
                    na == va.len(),
                    nb == vb.len(),
                    va == self@,
                    vb == other@,
                    self.inv(),
                    other.inv(),
                    store_wf(va, w),
                    store_wf(vb, w),
                    width as nat == w,
                    d == T::default_spec(),
                    adv_a ==> i < na && va[i as int].1 == self.entries@[i as int].1@,
                    adv_b ==> j < nb && vb[j as int].1 == other.entries@[j as int].1@,
                    snap.wf(),
                    snap@.len() == w,
                    last_a@.len() == w,
                    last_b@.len() == w,
                    last_a_pre.len() == w,
                    last_b_pre.len() == w,
                    forall|q: int| c <= q < w ==> #[trigger] last_a@[q] == last_a_pre[q],
                    forall|q: int| c <= q < w ==> #[trigger] last_b@[q] == last_b_pre[q],
                    forall|q: int|
                        0 <= q < c ==> #[trigger] last_a@[q] == (if adv_a && va[i as int].1[q]
                            is Some {
                            va[i as int].1[q]->0
                        } else {
                            last_a_pre[q]
                        }),
                    forall|q: int|
                        0 <= q < c ==> #[trigger] last_b@[q] == (if adv_b && vb[j as int].1[q]
                            is Some {
                            vb[j as int].1[q]->0
                        } else {
                            last_b_pre[q]
                        }),
                    forall|q: int|
                        0 <= q < c ==> #[trigger] snap@[q] == (if apply_op(
                            op,
                            last_a@[q],
                            last_b@[q],
                        ) != d {
                            Some(apply_op(op, last_a@[q], last_b@[q]))
                        } else {
                            None::<T>
                        }),
                    forall|q: int| c <= q < w ==> (#[trigger] snap@[q]) is None,
                    any == exists|q: int| 0 <= q < c && (#[trigger] snap@[q]) is Some,
                decreases width - c,
            {
                let cur_a: T = if adv_a {
                    match self.entries[i].1.get(c) {
                        Some(v) => {
                            let vv = *v;
                            last_a.set(c, vv);
                            vv
                        },
                        None => last_a[c],
                    }
                } else {
                    last_a[c]
                };
                let cur_b: T = if adv_b {
                    match other.entries[j].1.get(c) {
                        Some(v) => {
                            let vv = *v;
                            last_b.set(c, vv);
                            vv
                        },
                        None => last_b[c],
                    }
                } else {
                    last_b[c]
                };
                let v = match op {
                    BitOp::And => cur_a.and_value(cur_b),
                    BitOp::Or => cur_a.or_value(cur_b),
                    BitOp::Xor => cur_a.xor_value(cur_b),
                };
                if !v.eq_value(T::default_value()) {
                    snap.set(c, v);
                    any = true;
                    proof {
                        assert(snap@[c as int] is Some);
                    }
                }
                c = c + 1;
            }
            let ghost pa1 = if adv_a {
                va.take(i + 1)
            } else {
                pa
            };
            let ghost pb1 = if adv_b {
                vb.take(j + 1)
            } else {
                pb
            };
            proof {
                assert forall|q: int|
                    0 <= q < w implies #[trigger] last_a@[q] == last_val(project(pa1, q), d)
                    && last_b@[q] == last_val(project(pb1, q), d) by {
                    if adv_a {
                        let pc = project(pa, q);
                        let pc1 = project(pa1, q);
                        if va[i as int].1[q] is Some {
                            assert(pc1 == pc.push((va[i as int].0, va[i as int].1[q]->0)));
                        } else {
                            assert(pc1 == pc);
                        }
                    }
                    if adv_b {
                        let pc = project(pb, q);
                        let pc1 = project(pb1, q);
                        if vb[j as int].1[q] is Some {
                            assert(pc1 == pc.push((vb[j as int].0, vb[j as int].1[q]->0)));
                        } else {
                            assert(pc1 == pc);
                        }
                    }
                }
                assert(snap@ =~= combine_snap(pa1, pb1, op, w));
                // unfold the combined-store recursion one step
                if take_both {
                    assert(pa1.last().0 == pb1.last().0);
                    assert(pa1.drop_last() =~= pa);
                    assert(pb1.drop_last() =~= pb);
                } else if take_a {
                    if pb.len() > 0 {
                        assert(pb.last() == vb[j - 1]);
                        assert(pb.last().0 < time);
                    }
                    assert(pa1.drop_last() =~= pa);
                } else {
                    if pa.len() > 0 {
                        assert(pa.last() == va[i - 1]);
                        assert(pa.last().0 < time);
                    }
                    assert(pb1.drop_last() =~= pb);
                }
                assert(store_combine(pa1, pb1, op, w) == (if snapshot_nonempty(
                    combine_snap(pa1, pb1, op, w),
                ) {
                    store_combine(pa, pb, op, w).push((time, combine_snap(pa1, pb1, op, w)))
                } else {
                    store_combine(pa, pb, op, w)
                }));
            }
            let ghost out_pre = out@;
            if any {
                out.push((time, snap));
                proof {
                    assert(out@ == out_pre.push((time, snap)));
                    let ev0 = entries_view(out_pre);
                    let ev1 = entries_view(out@);
                    assert(ev1 =~= ev0.push((time, snap@)));
                    assert(snapshot_nonempty(snap@));
                    assert(ev1 == store_combine(pa1, pb1, op, w));
                    assert forall|x: int, y: int|
                        0 <= x < y < ev1.len() implies (#[trigger] ev1[x]).0 < (
                    #[trigger] ev1[y]).0 by {
                        if y == ev1.len() - 1 {
                            assert(ev0[x].0 <= ev0.last().0);
                        } else {
                            assert(ev0[x].0 < ev0[y].0);
                        }
                    }
                }
            } else {
                proof {
                    assert(!snapshot_nonempty(snap@));
                    assert(entries_view(out@) == store_combine(pa1, pb1, op, w));
                }
            }
            if adv_a {
                i = i + 1;
            }
            if adv_b {
                j = j + 1;
            }
        }
        proof {
            assert(va.take(na as int) =~= va);
            assert(vb.take(nb as int) =~= vb);
        }
        MultiSequence { width, entries: out }
    }

    /// Combine in place: the same result as `combine`, so stale
    /// channel entries whose combined value equals the default are
    /// pruned rather than left behind.
    pub fn combine_assign(&mut self, other: &MultiSequence<T>, op: BitOp)
        requires
            old(self).inv(),
            other.inv(),
            store_wf(old(self)@, old(self).spec_width()),
            store_wf(other@, other.spec_width()),
            old(self).spec_width() == other.spec_width(),
        ensures
            final(self).inv(),
            final(self).spec_width() == old(self).spec_width(),
            store_wf(final(self)@, final(self).spec_width()),
            final(self)@ == store_combine(old(self)@, other@, op, old(self).spec_width()),
    {
        let r = self.combine(other, op);
        *self = r;
    }
}


impl<T: ChannelValue> MultiSequence<T> {
    /// Replace the snapshot at `time` with the image of the currently
    /// held values under `f`: the held value of every channel at `time`
    /// is gathered, handed to `f`, and the full-width result is written
    /// back as the snapshot at `time`.
    pub fn change<F: Fn(Vec<T>) -> Vec<T>>(&mut self, time: usize, f: F)
        requires
            old(self).inv(),
            store_wf(old(self)@, old(self).spec_width()),
            old(self).spec_width() > 0,
            forall|v: Vec<T>|
                v@.len() == old(self).spec_width() ==> #[trigger] f.requires((v,)),
            forall|v: Vec<T>, r: Vec<T>|
                #[trigger] f.ensures((v,), r) ==> r@.len() == old(self).spec_width(),
        ensures
            final(self).inv(),
            final(self).spec_width() == old(self).spec_width(),
            store_wf(final(self)@, final(self).spec_width()),
            exists|held: Vec<T>, image: Vec<T>|
                {
                    &&& held@.len() == old(self).spec_width()
                    &&& forall|c: int|
                        0 <= c < held@.len() ==> #[trigger] held@[c] == chan_floor_val(
                            old(self)@,
                            time,
                            c,
                            T::default_spec(),
                        )
                    &&& #[trigger] f.ensures((held,), image)
                    &&& final(self)@ == crate::sequence::spec_insert(
                        old(self)@,
                        time,
                        image@.map_values(|v: T| Some(v)),
                    )
                },
    {
        let held = self.floor_all(time);
        let ghost held_ghost = held;
        let image = f(held);
        let ghost image_ghost = image;
        self.insert(time, &image);
        proof {
            assert(f.ensures((held_ghost,), image_ghost));
        }
    }
}


/// No channel of any snapshot carries the default value explicitly.
pub open spec fn store_no_default_entries<T>(s: Seq<(usize, Seq<Option<T>>)>, d: T) -> bool {
    forall|i: int, c: int|
        0 <= i < s.len() && 0 <= c < (#[trigger] s[i].1).len() ==> (#[trigger] s[i].1[c])
            != Some(d)
}

/// The exclusive disjunction of a store with itself has no keys at
/// all: every channel's candidate value equals the default, so every
/// snapshot is empty and pruned.
pub proof fn lemma_store_xor_self_empty<T: BitwiseValue>(a: Seq<(usize, Seq<Option<T>>)>, w: nat)
    ensures
        store_combine(a, a, BitOp::Xor, w) == Seq::<(usize, Seq<Option<T>>)>::empty(),
    decreases a.len(),
{
    T::lemma_default_laws();
    if a.len() > 0 {
        lemma_store_xor_self_empty::<T>(a.drop_last(), w);
        let snap = combine_snap(a, a, BitOp::Xor, w);
        assert forall|c: int| 0 <= c < snap.len() implies !((#[trigger] snap[c]) is Some) by {
            let h = last_val(project(a, c), T::default_spec());
            assert(h.xor_spec(h) == T::default_spec());
        }
        assert(!snapshot_nonempty(snap));
    }
}

/// Zero-order-hold correctness of the store-level disjunction: at every
/// time and channel, the held value of the combined store is the
/// disjunction of the held values of the operands, provided neither
/// operand records the default explicitly.
pub proof fn lemma_store_or_floor_semantics<T: BitwiseValue>(
    a: Seq<(usize, Seq<Option<T>>)>,
    b: Seq<(usize, Seq<Option<T>>)>,
    w: nat,
    t: usize,
    c: int,
)
    requires
        store_wf(a, w),
        store_wf(b, w),
        store_no_default_entries(a, T::default_spec()),
        store_no_default_entries(b, T::default_spec()),
        0 <= c < w,
    ensures
        chan_floor_val(store_combine(a, b, BitOp::Or, w), t, c, T::default_spec())
            == chan_floor_val(a, t, c, T::default_spec()).or_spec(
            chan_floor_val(b, t, c, T::default_spec()),
        ),
    decreases a.len() + b.len(),
{
    let d = T::default_spec();
    T::lemma_default_laws();
    let r = store_combine(a, b, BitOp::Or, w);
    lemma_project_key_bound(a, c);
    lemma_project_key_bound(b, c);
    if a.len() == 0 && b.len() == 0 {
        assert(project(r, c) =~= Seq::<(usize, T)>::empty());
        assert(project(a, c) =~= Seq::<(usize, T)>::empty());
        assert(project(b, c) =~= Seq::<(usize, T)>::empty());
    } else {
        let on_a = b.len() == 0 || (a.len() > 0 && a.last().0 > b.last().0);
        let on_b = !on_a && (a.len() == 0 || b.last().0 > a.last().0);
        let k: usize = if on_a {
            a.last().0
        } else {
            b.last().0
        };
        let a1 = if on_b {
            a
        } else {
            a.drop_last()
        };
        let b1 = if on_a {
            b
        } else {
            b.drop_last()
        };
        let snap = combine_snap(a, b, BitOp::Or, w);
        let rest = store_combine(a1, b1, BitOp::Or, w);
        if !on_b {
            lemma_sorted_prefix(a);
            assert forall|i: int, c2: int|
                0 <= i < a1.len() && 0 <= c2 < (#[trigger] a1[i].1).len() implies (
            #[trigger] a1[i].1[c2]) != Some(d) by {
                assert(a[i].1[c2] != Some(d));
            }
        }
        if !on_a {
            lemma_sorted_prefix(b);
            assert forall|i: int, c2: int|
                0 <= i < b1.len() && 0 <= c2 < (#[trigger] b1[i].1).len() implies (
            #[trigger] b1[i].1[c2]) != Some(d) by {
                assert(b[i].1[c2] != Some(d));
            }
        }
        lemma_store_or_floor_semantics::<T>(a1, b1, w, t, c);
        // the held values of the consumed operands do not change across
        // the dropped last entry unless that entry records the channel
        let ha = last_val(project(a, c), d);
        let hb = last_val(project(b, c), d);
        let v = ha.or_spec(hb);
        assert(snap[c] == (if v != d {
            Some(v)
        } else {
            None::<T>
        }));
        if snapshot_nonempty(snap) {
            assert(r == rest.push((k, snap)));
            assert(r.drop_last() =~= rest);
            assert(r.last() == (k, snap));
            if snap[c] is Some {
                assert(project(r, c) == project(rest, c).push((k, v)));
            } else {
                assert(project(r, c) == project(rest, c));
            }
        } else {
            assert(r == rest);
        }
        if k <= t {
            // every key of every operand lies at or before t, so all
            // held values are the final held values
            lemma_all_keys_le_floor(a, c, t, k);
            lemma_all_keys_le_floor(b, c, t, k);
            if v != d {
                assert(snapshot_nonempty(snap)) by {
                    assert(snap[c] is Some);
                }
                assert(floor_entry(project(r, c), t) == Some(v)) by {
                    assert(project(r, c).last() == (k, v));
                }
                assert(chan_floor_val(a, t, c, d) == ha);
                assert(chan_floor_val(b, t, c, d) == hb);
            } else {
                // both held values are the default, and since neither
                // operand stores defaults, neither channel was ever set
                assert(ha == d && hb == d);
                lemma_no_default_floor(a, c, t, d);
                lemma_no_default_floor(b, c, t, d);
                if snapshot_nonempty(snap) {
                    assert(project(r, c) == project(rest, c));
                }
                assert(chan_floor_val(r, t, c, d) == chan_floor_val(rest, t, c, d)) by {
                    assert(project(r, c) == project(rest, c));
                }
                assert(chan_floor_val(a1, t, c, d) == d) by {
                    lemma_no_default_floor(a1, c, t, d);
                    if last_val(project(a1, c), d) != d {
                        lemma_held_prefix(a, c, d);
                    }
                }
                assert(chan_floor_val(b1, t, c, d) == d) by {
                    lemma_no_default_floor(b1, c, t, d);
                    if last_val(project(b1, c), d) != d {
                        lemma_held_prefix(b, c, d);
                    }
                }
            }
        } else {
            // the new key lies beyond t: floors at t see only earlier
            // entries on every side
            if snapshot_nonempty(snap) && snap[c] is Some {
                assert(floor_entry(project(r, c), t) == floor_entry(project(rest, c), t)) by {
                    assert(project(r, c).drop_last() =~= project(rest, c));
                }
            } else {
                assert(project(r, c) == project(rest, c));
            }
            if !on_b && a.len() > 0 && a.last().1[c] is Some {
                assert(floor_entry(project(a, c), t) == floor_entry(project(a1, c), t)) by {
                    assert(project(a, c).drop_last() =~= project(a1, c));
                    assert(project(a, c).last().0 == a.last().0);
                }
            }
            if !on_a && b.len() > 0 && b.last().1[c] is Some {
                assert(floor_entry(project(b, c), t) == floor_entry(project(b1, c), t)) by {
                    assert(project(b, c).drop_last() =~= project(b1, c));
                    assert(project(b, c).last().0 == b.last().0);
                }
            }
        }
    }
}

/// With every key at or before `t`, each channel's floor at `t` is its
/// final held value.
proof fn lemma_all_keys_le_floor<T: ChannelValue>(
    s: Seq<(usize, Seq<Option<T>>)>,
    c: int,
    t: usize,
    bound: usize,
)
    requires
        keys_sorted(s),
        bound <= t,
        s.len() > 0 ==> s.last().0 <= bound,
    ensures
        chan_floor_val(s, t, c, T::default_spec()) == last_val(project(s, c), T::default_spec()),
    decreases s.len(),
{
    if s.len() > 0 {
        lemma_sorted_prefix(s);
        if s.last().1[c] is Some {
            assert(project(s, c).last() == (s.last().0, s.last().1[c]->0));
        } else {
            lemma_all_keys_le_floor::<T>(s.drop_last(), c, t, bound);
        }
    }
}

/// A store without explicit defaults whose channel holds the default
/// has never recorded that channel, so the floor is the default at
/// every time.
proof fn lemma_no_default_floor<T>(s: Seq<(usize, Seq<Option<T>>)>, c: int, t: usize, d: T)
    requires
        store_no_default_entries(s, d),
        last_val(project(s, c), d) == d,
        0 <= c,
        forall|i: int| 0 <= i < s.len() ==> c < (#[trigger] s[i].1).len(),
    ensures
        floor_val(project(s, c), t, d) == d,
    decreases s.len(),
{
    if s.len() > 0 {
        if s.last().1[c] is Some {
            assert(project(s, c).last() == (s.last().0, s.last().1[c]->0));
            assert(s.last().1[c] != Some(d));
            assert(false);
        } else {
            assert(project(s, c) == project(s.drop_last(), c));
            assert forall|i: int|
                0 <= i < s.drop_last().len() implies c < (#[trigger] s.drop_last()[i].1).len() by {
                assert(c < s[i].1.len());
            }
            assert forall|i: int, c2: int|
                0 <= i < s.drop_last().len() && 0 <= c2 < (#[trigger] s.drop_last()[i].1).len()
                implies (#[trigger] s.drop_last()[i].1[c2]) != Some(d) by {
                assert(s[i].1[c2] != Some(d));
            }
            lemma_no_default_floor::<T>(s.drop_last(), c, t, d);
        }
    }
}

/// Dropping later store entries cannot raise a channel from the default
/// to a value when the channel was never recorded: if the prefix holds
/// something, so does the whole store.
proof fn lemma_held_prefix<T>(s: Seq<(usize, Seq<Option<T>>)>, c: int, d: T)
    requires
        s.len() > 0,
        last_val(project(s, c), d) == d,
        last_val(project(s.drop_last(), c), d) != d,
    ensures
        s.last().1[c] is Some,
{
    if !(s.last().1[c] is Some) {
        assert(project(s, c) == project(s.drop_last(), c));
        assert(false);
    }
}


/// A per-channel timeline folded entry by entry into a base timeline.
pub open spec fn insert_fold<T>(base: Seq<(usize, T)>, q: Seq<(usize, T)>) -> Seq<(usize, T)>
    decreases q.len(),
{
    if q.len() == 0 {
        base
    } else {
        crate::sequence::spec_insert(insert_fold(base, q.drop_last()), q.last().0, q.last().1)
    }
}

/// Absorbing a timeline into channel `c` inserts its entries into that
/// channel's own timeline and leaves every other channel unchanged.
pub proof fn lemma_absorb_projections<T>(
    s: Seq<(usize, Seq<Option<T>>)>,
    c: int,
    q: Seq<(usize, T)>,
    width: nat,
)
    requires
        keys_sorted(s),
        0 <= c < width,
        forall|i: int| 0 <= i < s.len() ==> (#[trigger] s[i].1).len() == width,
    ensures
        project(spec_absorb(s, c, q, width), c) == insert_fold(project(s, c), q),
        forall|c2: int|
            0 <= c2 < width && c2 != c ==> #[trigger] project(spec_absorb(s, c, q, width), c2)
                == project(s, c2),
    decreases q.len(),
{
    if q.len() > 0 {
        lemma_absorb_projections(s, c, q.drop_last(), width);
        let mid = spec_absorb(s, c, q.drop_last(), width);
        lemma_absorb_store_wf(s, c, q.drop_last(), width);
        lemma_spec_set_project_same(mid, q.last().0, c, q.last().1, width);
        assert forall|c2: int|
            0 <= c2 < width && c2 != c implies #[trigger] project(
            spec_absorb(s, c, q, width),
            c2,
        ) == project(s, c2) by {
            lemma_spec_set_project_other(mid, q.last().0, c, q.last().1, width, c2);
        }
    }
}

/// Absorbing preserves sortedness and snapshot widths.
pub proof fn lemma_absorb_store_wf<T>(
    s: Seq<(usize, Seq<Option<T>>)>,
    c: int,
    q: Seq<(usize, T)>,
    width: nat,
)
    requires
        keys_sorted(s),
        0 <= c < width,
        forall|i: int| 0 <= i < s.len() ==> (#[trigger] s[i].1).len() == width,
    ensures
        keys_sorted(spec_absorb(s, c, q, width)),
        forall|i: int|
            0 <= i < spec_absorb(s, c, q, width).len() ==> (#[trigger] spec_absorb(
                s,
                c,
                q,
                width,
            )[i].1).len() == width,
    decreases q.len(),
{
    if q.len() > 0 {
        lemma_absorb_store_wf(s, c, q.drop_last(), width);
        crate::multisequenceview::lemma_spec_set_store_wf(
            spec_absorb(s, c, q.drop_last(), width),
            q.last().0,
            c,
            q.last().1,
            width,
        );
    }
}

/// Absorbing a sorted timeline into an empty channel and projecting it
/// back returns that timeline: absorbing is the inverse of projection.
pub proof fn lemma_absorb_project_inverse<T>(
    s: Seq<(usize, Seq<Option<T>>)>,
    c: int,
    q: Seq<(usize, T)>,
    width: nat,
)
    requires
        keys_sorted(s),
        keys_sorted(q),
        0 <= c < width,
        forall|i: int| 0 <= i < s.len() ==> (#[trigger] s[i].1).len() == width,
        project(s, c) == Seq::<(usize, T)>::empty(),
    ensures
        project(spec_absorb(s, c, q, width), c) == q,
{
    lemma_absorb_projections(s, c, q, width);
    lemma_insert_fold_of_sorted(Seq::<(usize, T)>::empty(), q);
}

/// Folding a sorted timeline into the empty timeline reproduces it.
proof fn lemma_insert_fold_of_sorted<T>(base: Seq<(usize, T)>, q: Seq<(usize, T)>)
    requires
        base.len() == 0,
        keys_sorted(q),
    ensures
        insert_fold(base, q) == q,
    decreases q.len(),
{
    if q.len() > 0 {
        crate::sequence::lemma_sorted_prefix(q);
        lemma_insert_fold_of_sorted(base, q.drop_last());
        let prev = insert_fold(base, q.drop_last());
        if prev.len() > 0 {
            assert(prev.last() == q[q.len() - 2]);
            assert(prev.last().0 < q.last().0);
        }
        assert(crate::sequence::spec_insert(prev, q.last().0, q.last().1) =~= q);
    }
}

} // verus!












