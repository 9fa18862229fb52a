//! A read-only view of one channel of a multi-channel store.
//!
//! The view borrows the store and remembers the channel index; it
//! answers floor queries and lists the channel's explicit entries, but
//! never writes — mutation happens only through the owning store.

use vstd::prelude::*;

verus! {

use crate::multisequence::{chan_floor_val, project, store_wf, MultiSequence};
use crate::sequence::{keys_sorted, Sequence};
use crate::value::ChannelValue;

/// A read-only projection of channel `index` of the borrowed store.
pub struct SequenceView<'a, T> {
    parent: &'a MultiSequence<T>,
    index: usize,
}

impl<'a, T> SequenceView<'a, T> {
    /// The store this view reads.
    pub closed spec fn spec_parent(&self) -> MultiSequence<T> {
        *self.parent
    }

    /// The channel this view reads.
    pub closed spec fn spec_index(&self) -> usize {
        self.index
    }
}

impl<'a, T: ChannelValue> SequenceView<'a, T> {
    /// The held value of the viewed channel at `time`.
    pub fn floor(&self, time: usize) -> (r: T)
        requires
            self.spec_parent().inv(),
            store_wf(self.spec_parent()@, self.spec_parent().spec_width()),
            self.spec_index() < self.spec_parent().spec_width(),
        ensures
            r == chan_floor_val(
                self.spec_parent()@,
                time,
                self.spec_index() as int,
                T::default_spec(),
            ),
    {
        self.parent.floor(time, self.index)
    }

    /// The explicit `(time, value)` entries of the viewed channel, in
    /// ascending time order.
    pub fn iter(&self) -> (r: Vec<(usize, T)>)
        requires
            self.spec_parent().inv(),
            store_wf(self.spec_parent()@, self.spec_parent().spec_width()),
            self.spec_index() < self.spec_parent().spec_width(),
        ensures
            r@ == project(self.spec_parent()@, self.spec_index() as int),
    {
        let seq = self.parent.get_sequence(self.index);
        let entries = seq.iter();
        let n = entries.len();
        let mut out: Vec<(usize, T)> = Vec::new();
        let mut k: usize = 0;
        while k < n
            invariant
                k <= n,
                n == entries@.len(),
                out@ =~= entries@.take(k as int),
            decreases n - k,
        {
            out.push(entries[k]);
            k = k + 1;
        }
        proof {
            assert(entries@.take(n as int) =~= entries@);
        }
        out
    }
}

impl<T> MultiSequence<T> {
    /// A read-only view of one channel.
    pub fn sequence(&self, index: usize) -> (r: SequenceView<'_, T>)
        requires
            index < self.spec_width(),
        ensures
            r.spec_parent() == *self,
            r.spec_index() == index,
    {
        SequenceView { parent: self, index }
    }
}

} // verus!
