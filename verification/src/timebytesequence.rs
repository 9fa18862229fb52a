//! The byte-channel timeline family: single byte timelines, the
//! multi-channel byte store, a per-channel view of it, and the generic
//! single-value timeline.
//!
//! These are the concrete shapes the player pipeline works with: each
//! channel holds a `u8` of packed note bits (or, for the generic
//! timeline, any channel value such as a tempo), with zero-order-hold
//! floor queries, value-exact compaction, and the whole-timeline
//! boolean algebra.

use vstd::prelude::*;

verus! {

use crate::algebra::{combine_seq, complement_seq, no_default_entries, BitOp};
use crate::multisequence::{
    chan_floor_val,
    project,
    spec_absorb,
    spec_clear_channel,
    spec_complement_store,
    spec_set,
    spec_set_group,
    store_combine,
    store_wf,
    MultiSequence,
};
use crate::sequence::{
    floor_val,
    get_at,
    is_minimal,
    keys_sorted,
    lemma_get_at_after_insert,
    lemma_spec_insert_twice,
    opt_seq,
    spec_insert,
    spec_remove,
    Sequence,
};
use crate::value::ChannelValue;

/// A timeline of bytes: time keys mapped to `u8` values, floor queries
/// defaulting to zero.
pub struct TimeByteSequence {
    inner: Sequence<u8>,
}

impl View for TimeByteSequence {
    type V = Seq<(usize, u8)>;

    closed spec fn view(&self) -> Seq<(usize, u8)> {
        self.inner@
    }
}

impl TimeByteSequence {
    /// Create an empty timeline.
    pub fn new() -> (r: Self)
        ensures
            r@ =~= Seq::<(usize, u8)>::empty(),
            keys_sorted(r@),
    {
        TimeByteSequence { inner: Sequence::new() }
    }

    /// Insert or overwrite the value at exact time `time`.
    pub fn insert(&mut self, time: usize, value: u8)
        requires
            keys_sorted(old(self)@),
        ensures
            keys_sorted(final(self)@),
            final(self)@ == spec_insert(old(self)@, time, value),
    {
        self.inner.insert(time, value);
    }

    /// The value at exactly `time`, if any.
    pub fn get(&self, time: usize) -> (r: Option<u8>)
        requires
            keys_sorted(self@),
        ensures
            r == get_at(self@, time),
    {
        self.inner.get(time)
    }

    /// The held value at `time`: the entry at the greatest key at or
    /// before `time`, or zero.
    pub fn get_extrapolated(&self, time: usize) -> (r: u8)
        requires
            keys_sorted(self@),
        ensures
            r == floor_val(self@, time, 0u8),
    {
        self.inner.floor(time)
    }

    /// Remove the entry at exact time `time`, if present.
    pub fn remove(&mut self, time: usize)
        requires
            keys_sorted(old(self)@),
        ensures
            keys_sorted(final(self)@),
            final(self)@ == spec_remove(old(self)@, time),
    {
        self.inner.remove(time);
    }

    /// Borrow the value at exactly `time` mutably, if present.
    pub fn get_mut(&mut self, time: usize) -> (r: Option<&mut u8>)
        requires
            keys_sorted(old(self)@),
        ensures
            match r {
                Some(v) => {
                    &&& get_at(old(self)@, time) == Some(*v)
                    &&& keys_sorted(final(self)@)
                    &&& final(self)@ == spec_insert(old(self)@, time, *final(v))
                },
                None => {
                    &&& get_at(old(self)@, time) is None
                    &&& final(self)@ == old(self)@
                },
            },
    {
        self.inner.get_mut(time)
    }

    /// Borrow the value at `time` mutably, inserting `value` first when
    /// no entry exists there.
    pub fn get_value_or_insert_mut(&mut self, time: usize, value: u8) -> (r: &mut u8)
        requires
            keys_sorted(old(self)@),
        ensures
            *r == (match get_at(old(self)@, time) {
                Some(v) => v,
                None => value,
            }),
            keys_sorted(final(self)@),
            final(self)@ == spec_insert(old(self)@, time, *final(r)),
    {
        let ghost orig = self@;
        if self.inner.get(time).is_none() {
            self.inner.insert(time, value);
            proof {
                lemma_get_at_after_insert(orig, time, value);
            }
        }
        proof {
            assert(get_at(self@, time) is Some);
        }
        match self.inner.get_mut(time) {
            Some(v) => {
                proof {
                    if get_at(orig, time) is None {
                        lemma_spec_insert_twice(orig, time, value, *final(v));
                    }
                }
                v
            },
            None => vstd::pervasive::unreached(),
        }
    }

    /// Borrow the value at `time` mutably, inserting zero first when no
    /// entry exists there.
    pub fn get_value_or_default_mut(&mut self, time: usize) -> (r: &mut u8)
        requires
            keys_sorted(old(self)@),
        ensures
            *r == (match get_at(old(self)@, time) {
                Some(v) => v,
                None => 0u8,
            }),
            keys_sorted(final(self)@),
            final(self)@ == spec_insert(old(self)@, time, *final(r)),
    {
        self.get_value_or_insert_mut(time, 0)
    }

    /// The explicit entries, in ascending time order.
    pub fn iter(&self) -> (r: &Vec<(usize, u8)>)
        ensures
            r@ == self@,
    {
        self.inner.iter()
    }

    /// Compact the timeline: drop entries equal to the held value just
    /// before them; every floor query is preserved.
    pub fn optimize(&mut self)
        requires
            keys_sorted(old(self)@),
        ensures
            keys_sorted(final(self)@),
            final(self)@ == opt_seq(old(self)@, 0u8),
            is_minimal(final(self)@, 0u8),
            forall|t: usize| floor_val(final(self)@, t, 0u8) == floor_val(old(self)@, t, 0u8),
    {
        self.inner.optimize();
    }

    /// Combine two timelines pointwise under the given connective.
    pub fn combine(&self, other: &TimeByteSequence, op: BitOp) -> (r: TimeByteSequence)
        requires
            keys_sorted(self@),
            keys_sorted(other@),
        ensures
            keys_sorted(r@),
            r@ == combine_seq(self@, other@, op, 0u8),
            no_default_entries(r@, 0u8),
    {
        TimeByteSequence { inner: self.inner.combine(&other.inner, op) }
    }

    /// The bitwise complement at every explicit key.
    pub fn complement(&self) -> (r: TimeByteSequence)
        requires
            keys_sorted(self@),
        ensures
            keys_sorted(r@),
            r@ == complement_seq(self@),
    {
        TimeByteSequence { inner: self.inner.complement() }
    }

    /// Combine in place; entries whose combined value is zero are
    /// pruned, never left stale.
    pub fn combine_assign(&mut self, other: &TimeByteSequence, op: BitOp)
        requires
            keys_sorted(old(self)@),
            keys_sorted(other@),
        ensures
            keys_sorted(final(self)@),
            final(self)@ == combine_seq(old(self)@, other@, op, 0u8),
            no_default_entries(final(self)@, 0u8),
    {
        self.inner.combine_assign(&other.inner, op);
    }
}

/// A multi-channel timeline of bytes with a fixed channel width.
pub struct TimeByteMultiSequence {
    inner: MultiSequence<u8>,
}

impl View for TimeByteMultiSequence {
    type V = Seq<(usize, Seq<Option<u8>>)>;

    closed spec fn view(&self) -> Seq<(usize, Seq<Option<u8>>)> {
        self.inner@
    }
}

impl TimeByteMultiSequence {
    /// Internal snapshot invariants.
    pub closed spec fn inv(&self) -> bool {
        self.inner.inv()
    }

    /// The configured channel width.
    pub closed spec fn spec_width(&self) -> nat {
        self.inner.spec_width()
    }

    /// Create an empty store of `width` byte channels.
    pub fn new(width: usize) -> (r: Self)
        ensures
            r.inv(),
            r@ =~= Seq::<(usize, Seq<Option<u8>>)>::empty(),
            r.spec_width() == width,
            store_wf(r@, r.spec_width()),
    {
        TimeByteMultiSequence { inner: MultiSequence::new(width) }
    }

    /// The configured channel width.
    pub fn width(&self) -> (r: usize)
        ensures
            r == self.spec_width(),
    {
        self.inner.width()
    }

    /// Record `value` for channel `index` at `time`.
    pub fn set(&mut self, time: usize, index: usize, value: u8)
        requires
            old(self).inv(),
            store_wf(old(self)@, old(self).spec_width()),
            index < old(self).spec_width(),
        ensures
            final(self).inv(),
            final(self).spec_width() == old(self).spec_width(),
            store_wf(final(self)@, final(self).spec_width()),
            final(self)@ == spec_set(old(self)@, time, index as int, value, old(self).spec_width()),
    {
        self.inner.set(time, index, value);
    }

    /// Record several channels of one time key in a batch.
    pub fn set_many(&mut self, time: usize, values: &Vec<(usize, u8)>)
        requires
            old(self).inv(),
            store_wf(old(self)@, old(self).spec_width()),
            forall|i: int|
                0 <= i < values@.len() ==> (#[trigger] values@[i]).0 < old(self).spec_width(),
        ensures
            final(self).inv(),
            final(self).spec_width() == old(self).spec_width(),
            store_wf(final(self)@, final(self).spec_width()),
            final(self)@ == spec_set_group(old(self)@, time, values@, old(self).spec_width()),
    {
        self.inner.set_group(time, values);
    }

    /// The held value of channel `index` at `time`, or zero.
    pub fn get(&self, time: usize, index: usize) -> (r: u8)
        requires
            self.inv(),
            store_wf(self@, self.spec_width()),
            index < self.spec_width(),
        ensures
            r == chan_floor_val(self@, time, index as int, 0u8),
    {
        self.inner.floor(time, index)
    }

    /// One floor query per channel, as a vector.
    pub fn get_all(&self, time: usize) -> (r: Vec<u8>)
        requires
            self.inv(),
            store_wf(self@, self.spec_width()),
        ensures
            r@.len() == self.spec_width(),
            forall|c: int|
                0 <= c < r@.len() ==> #[trigger] r@[c] == chan_floor_val(self@, time, c, 0u8),
    {
        self.inner.floor_all(time)
    }

    /// Floor queries for a chosen set of channels.
    pub fn get_many(&self, time: usize, indices: &Vec<usize>) -> (r: Vec<u8>)
        requires
            self.inv(),
            store_wf(self@, self.spec_width()),
            forall|i: int|
                0 <= i < indices@.len() ==> #[trigger] indices@[i] < self.spec_width(),
        ensures
            r@.len() == indices@.len(),
            forall|i: int|
                0 <= i < r@.len() ==> #[trigger] r@[i] == chan_floor_val(
                    self@,
                    time,
                    indices@[i] as int,
                    0u8,
                ),
    {
        self.inner.floor_selected(time, indices)
    }

    /// The raw store entries, in ascending time order.
    pub fn iter(&self) -> (r: &Vec<(usize, crate::optionarray::OptionArray<u8>)>)
        requires
            self.inv(),
        ensures
            r@.len() == self@.len(),
            forall|i: int|
                0 <= i < r@.len() ==> (#[trigger] r@[i]).0 == self@[i].0 && r@[i].1@ == self@[i].1
                    && r@[i].1.wf(),
    {
        self.inner.iter()
    }

    /// A read-only view of one channel.
    pub fn sequence(&self, index: usize) -> (r: TimeByteSequenceView<'_>)
        requires
            index < self.spec_width(),
        ensures
            r.spec_parent() == *self,
            r.spec_index() == index,
    {
        TimeByteSequenceView { parent: self, index }
    }

    /// Extract channel `index` as a standalone byte timeline.
    pub fn to_sequence(&self, index: usize) -> (r: TimeByteSequence)
        requires
            self.inv(),
            store_wf(self@, self.spec_width()),
            index < self.spec_width(),
        ensures
            keys_sorted(r@),
            r@ == project(self@, index as int),
    {
        TimeByteSequence { inner: self.inner.get_sequence(index) }
    }

    /// Write every explicit entry of a byte timeline into channel
    /// `index`.
    pub fn insert_sequence(&mut self, index: usize, seq: &TimeByteSequence)
        requires
            old(self).inv(),
            store_wf(old(self)@, old(self).spec_width()),
            index < old(self).spec_width(),
        ensures
            final(self).inv(),
            final(self).spec_width() == old(self).spec_width(),
            store_wf(final(self)@, final(self).spec_width()),
            final(self)@ == spec_absorb(old(self)@, index as int, seq@, old(self).spec_width()),
    {
        self.inner.insert_sequence(index, &seq.inner);
    }

    /// Replace channel `index` wholesale with the given timeline.
    pub fn replace_sequence(&mut self, index: usize, seq: &TimeByteSequence)
        requires
            old(self).inv(),
            store_wf(old(self)@, old(self).spec_width()),
            index < old(self).spec_width(),
        ensures
            final(self).inv(),
            final(self).spec_width() == old(self).spec_width(),
            store_wf(final(self)@, final(self).spec_width()),
            final(self)@ == spec_absorb(
                spec_clear_channel(old(self)@, index as int),
                index as int,
                seq@,
                old(self).spec_width(),
            ),
    {
        self.inner.replace_sequence(index, &seq.inner);
    }

    /// Combine two stores of equal width pointwise under the given
    /// connective, against the held values of both sides.
    pub fn combine(&self, other: &TimeByteMultiSequence, op: BitOp) -> (r: TimeByteMultiSequence)
        requires
            self.inv(),
            other.inv(),
            store_wf(self@, self.spec_width()),
            store_wf(other@, other.spec_width()),
            self.spec_width() == other.spec_width(),
        ensures
            r.inv(),
            r.spec_width() == self.spec_width(),
            store_wf(r@, r.spec_width()),
            r@ == store_combine(self@, other@, op, self.spec_width()),
    {
        TimeByteMultiSequence { inner: self.inner.combine(&other.inner, op) }
    }

    /// Combine in place; channel entries whose combined value is zero
    /// are pruned, never left stale.
    pub fn combine_assign(&mut self, other: &TimeByteMultiSequence, op: BitOp)
        requires
            old(self).inv(),
            other.inv(),
            store_wf(old(self)@, old(self).spec_width()),
            store_wf(other@, other.spec_width()),
            old(self).spec_width() == other.spec_width(),
        ensures
            final(self).inv(),
            final(self).spec_width() == old(self).spec_width(),
            store_wf(final(self)@, final(self).spec_width()),
            final(self)@ == store_combine(old(self)@, other@, op, old(self).spec_width()),
    {
        self.inner.combine_assign(&other.inner, op);
    }

    /// The bitwise complement at every explicit key: each channel's
    /// held value complemented, zero results omitted, no new keys.
    pub fn complement(&self) -> (r: TimeByteMultiSequence)
        requires
            self.inv(),
            store_wf(self@, self.spec_width()),
        ensures
            r.inv(),
            r.spec_width() == self.spec_width(),
            store_wf(r@, r.spec_width()),
            r@ == spec_complement_store(self@, self.spec_width(), self@.len() as int),
    {
        TimeByteMultiSequence { inner: self.inner.complement() }
    }

    /// Compact the store in one pass: for every channel, drop explicit
    /// values equal to the currently held value, pruning keys whose
    /// snapshot becomes empty; every floor query is preserved.
    pub fn optimize(&mut self)
        requires
            old(self).inv(),
            store_wf(old(self)@, old(self).spec_width()),
        ensures
            final(self).inv(),
            final(self).spec_width() == old(self).spec_width(),
            store_wf(final(self)@, final(self).spec_width()),
            forall|c: int|
                0 <= c < final(self).spec_width() ==> #[trigger] project(final(self)@, c)
                    == opt_seq(project(old(self)@, c), 0u8),
            forall|c: int|
                0 <= c < final(self).spec_width() ==> is_minimal(
                    #[trigger] project(final(self)@, c),
                    0u8,
                ),
            forall|t: usize, c: int|
                0 <= c < final(self).spec_width() ==> #[trigger] chan_floor_val(
                    final(self)@,
                    t,
                    c,
                    0u8,
                ) == chan_floor_val(old(self)@, t, c, 0u8),
    {
        self.inner.optimize();
    }
}

/// A read-only view of one byte channel of a borrowed byte store.
pub struct TimeByteSequenceView<'a> {
    parent: &'a TimeByteMultiSequence,
    index: usize,
}

impl<'a> TimeByteSequenceView<'a> {
    /// The store this view reads.
    pub closed spec fn spec_parent(&self) -> TimeByteMultiSequence {
        *self.parent
    }

    /// The channel this view reads.
    pub closed spec fn spec_index(&self) -> usize {
        self.index
    }

    /// The held value of the viewed channel at `time`, or zero.
    pub fn get(&self, time: usize) -> (r: u8)
        requires
            self.spec_parent().inv(),
            store_wf(self.spec_parent()@, self.spec_parent().spec_width()),
            self.spec_index() < self.spec_parent().spec_width(),
        ensures
            r == chan_floor_val(self.spec_parent()@, time, self.spec_index() as int, 0u8),
    {
        self.parent.inner.floor(time, self.index)
    }

    /// The explicit `(time, value)` entries of the viewed channel, in
    /// ascending time order.
    pub fn iter(&self) -> (r: Vec<(usize, u8)>)
        requires
            self.spec_parent().inv(),
            store_wf(self.spec_parent()@, self.spec_parent().spec_width()),
            self.spec_index() < self.spec_parent().spec_width(),
        ensures
            r@ == project(self.spec_parent()@, self.spec_index() as int),
    {
        let seq = self.parent.inner.get_sequence(self.index);
        let entries = seq.iter();
        let n = entries.len();
        let mut out: Vec<(usize, u8)> = Vec::new();
        let mut k: usize = 0;
        while k < n
            invariant
                k <= n,
                n == entries@.len(),
                out@ =~= entries@.take(k as int),
            decreases n - k,
        {
            out.push(entries[k]);
            k = k + 1;
        }
        proof {
            assert(entries@.take(n as int) =~= entries@);
        }
        out
    }
}

/// A timeline of arbitrary channel values: time keys mapped to values,
/// floor queries defaulting to the type default.
pub struct TimeValueSequence<T> {
    inner: Sequence<T>,
}

impl<T> View for TimeValueSequence<T> {
    type V = Seq<(usize, T)>;

    closed spec fn view(&self) -> Seq<(usize, T)> {
        self.inner@
    }
}

impl<T> TimeValueSequence<T> {
    /// Create an empty timeline.
    pub fn new() -> (r: Self)
        ensures
            r@ =~= Seq::<(usize, T)>::empty(),
            keys_sorted(r@),
    {
        TimeValueSequence { inner: Sequence::new() }
    }

    /// Insert or overwrite the value at exact time `time`.
    pub fn insert(&mut self, time: usize, value: T)
        requires
            keys_sorted(old(self)@),
        ensures
            keys_sorted(final(self)@),
            final(self)@ == spec_insert(old(self)@, time, value),
    {
        self.inner.insert(time, value);
    }

    /// Remove the entry at exact time `time`, if present.
    pub fn remove(&mut self, time: usize)
        requires
            keys_sorted(old(self)@),
        ensures
            keys_sorted(final(self)@),
            final(self)@ == spec_remove(old(self)@, time),
    {
        self.inner.remove(time);
    }

    /// The explicit entries, in ascending time order.
    pub fn iter(&self) -> (r: &Vec<(usize, T)>)
        ensures
            r@ == self@,
    {
        self.inner.iter()
    }
}

impl<T: Copy> TimeValueSequence<T> {
    /// The value at exactly `time`, if any.
    pub fn get(&self, time: usize) -> (r: Option<T>)
        requires
            keys_sorted(self@),
        ensures
            r == get_at(self@, time),
    {
        self.inner.get(time)
    }
}

impl<T: Copy> TimeValueSequence<T> {
    /// Borrow the value at exactly `time` mutably, if present.
    pub fn get_mut(&mut self, time: usize) -> (r: Option<&mut T>)
        requires
            keys_sorted(old(self)@),
        ensures
            match r {
                Some(v) => {
                    &&& get_at(old(self)@, time) == Some(*v)
                    &&& keys_sorted(final(self)@)
                    &&& final(self)@ == spec_insert(old(self)@, time, *final(v))
                },
                None => {
                    &&& get_at(old(self)@, time) is None
                    &&& final(self)@ == old(self)@
                },
            },
    {
        self.inner.get_mut(time)
    }

    /// Borrow the value at `time` mutably, inserting `value` first when
    /// no entry exists there.
    pub fn get_value_or_insert_mut(&mut self, time: usize, value: T) -> (r: &mut T)
        requires
            keys_sorted(old(self)@),
        ensures
            *r == (match get_at(old(self)@, time) {
                Some(v) => v,
                None => value,
            }),
            keys_sorted(final(self)@),
            final(self)@ == spec_insert(old(self)@, time, *final(r)),
    {
        let ghost orig = self@;
        if self.inner.get(time).is_none() {
            self.inner.insert(time, value);
            proof {
                lemma_get_at_after_insert(orig, time, value);
            }
        }
        proof {
            assert(get_at(self@, time) is Some);
        }
        match self.inner.get_mut(time) {
            Some(v) => {
                proof {
                    if get_at(orig, time) is None {
                        lemma_spec_insert_twice(orig, time, value, *final(v));
                    }
                }
                v
            },
            None => vstd::pervasive::unreached(),
        }
    }
}

impl<T: ChannelValue> TimeValueSequence<T> {
    /// Borrow the value at `time` mutably, inserting the type default
    /// first when no entry exists there.
    pub fn get_value_or_default_mut(&mut self, time: usize) -> (r: &mut T)
        requires
            keys_sorted(old(self)@),
        ensures
            *r == (match get_at(old(self)@, time) {
                Some(v) => v,
                None => T::default_spec(),
            }),
            keys_sorted(final(self)@),
            final(self)@ == spec_insert(old(self)@, time, *final(r)),
    {
        self.get_value_or_insert_mut(time, T::default_value())
    }

    /// The held value at `time`, or the type default.
    pub fn get_extrapolated(&self, time: usize) -> (r: T)
        requires
            keys_sorted(self@),
        ensures
            r == floor_val(self@, time, T::default_spec()),
    {
        self.inner.floor(time)
    }

    /// Compact the timeline: drop entries equal to the held value just
    /// before them; every floor query is preserved.
    pub fn optimize(&mut self)
        requires
            keys_sorted(old(self)@),
        ensures
            keys_sorted(final(self)@),
            final(self)@ == opt_seq(old(self)@, T::default_spec()),
            is_minimal(final(self)@, T::default_spec()),
            forall|t: usize|
                floor_val(final(self)@, t, T::default_spec()) == floor_val(
                    old(self)@,
                    t,
                    T::default_spec(),
                ),
    {
        self.inner.optimize();
    }
}

} // verus!
