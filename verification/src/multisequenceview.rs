//! Read-only reinterpreting projections over a multi-channel store.
//!
//! A typed-over-raw view reads a byte-granular store as wider values:
//! each value is assembled little-endian from consecutive byte channels,
//! and under floor semantics each byte is resolved by its own
//! independent floor query, so the bytes of one value may come from
//! different historical keys — that is the intended design, not an
//! atomicity guarantee.  A raw-over-typed view decomposes one typed
//! channel's value into its constituent bytes on read.  Views never
//! write; mutation happens only through the owning store.

use vstd::prelude::*;

verus! {

use crate::Error;
use crate::multisequence::{
    chan_at,
    chan_floor_val,
    spec_set,
    store_wf,
    lemma_spec_set_chan_at,
    lemma_spec_set_update,
    lemma_spec_set_split,
    MultiSequence,
};
use crate::sequence::keys_sorted;

/// The value whose little-endian bytes are `lo` and `hi`.
pub open spec fn word_of(lo: u8, hi: u8) -> u16 {
    (lo as u16 + 256 * (hi as u16)) as u16
}

/// Byte `off` (0 = low, 1 = high) of a 16-bit value.
pub open spec fn byte_of(v: u16, off: int) -> u8 {
    if off == 0 {
        (v % 256) as u8
    } else {
        (v / 256) as u8
    }
}

/// The typed exact-time read: all underlying bytes must be present in
/// the snapshot at exactly `t`.
pub open spec fn spec_get_typed(
    s: Seq<(usize, Seq<Option<u8>>)>,
    t: usize,
    idx: int,
    width: nat,
) -> Option<u16> {
    if 2 * idx + 2 > width {
        None
    } else {
        match (chan_at(s, t, 2 * idx), chan_at(s, t, 2 * idx + 1)) {
            (Some(lo), Some(hi)) => Some(word_of(lo, hi)),
            _ => None,
        }
    }
}

/// The typed floor read: each byte resolved by its own floor query.
pub open spec fn spec_floor_typed(s: Seq<(usize, Seq<Option<u8>>)>, t: usize, idx: int) -> u16 {
    word_of(chan_floor_val(s, t, 2 * idx, 0u8), chan_floor_val(s, t, 2 * idx + 1, 0u8))
}

/// A read-only reinterpreting projection of a store of `Src` values as
/// `Dst` values.
pub struct MultiSequenceView<'a, Src, Dst> {
    parent: &'a MultiSequence<Src>,
    _target: core::marker::PhantomData<Dst>,
}

impl<'a, Src, Dst> MultiSequenceView<'a, Src, Dst> {
    /// The underlying store.
    pub closed spec fn spec_parent(&self) -> MultiSequence<Src> {
        *self.parent
    }
}

impl<'a> MultiSequenceView<'a, u8, u16> {
    /// View a byte store as 16-bit values.  The byte width must divide
    /// evenly into values; this is checked at construction, not on each
    /// read.
    pub fn new_typed(parent: &'a MultiSequence<u8>) -> (r: Self)
        requires
            parent.inv(),
            store_wf(parent@, parent.spec_width()),
            parent.spec_width() % 2 == 0,
            parent.spec_width() > 0,
        ensures
            r.spec_parent() == *parent,
    {
        MultiSequenceView { parent, _target: core::marker::PhantomData }
    }

    /// Read the value at typed index `index` from the snapshot at
    /// exactly `time`; absent if the index is out of range, no snapshot
    /// exists at `time`, or any underlying byte is missing there.
    pub fn get_typed(&self, time: usize, index: usize) -> (r: Option<u16>)
        requires
            self.spec_parent().inv(),
            store_wf(self.spec_parent()@, self.spec_parent().spec_width()),
            self.spec_parent().spec_width() % 2 == 0,
        ensures
            r == spec_get_typed(
                self.spec_parent()@,
                time,
                index as int,
                self.spec_parent().spec_width(),
            ),
    {
        let width = self.parent.width();
        if width < 2 || index > (width - 2) / 2 {
            proof {
                assert(2 * (index as int) + 2 > width);
            }
            return None;
        }
        proof {
            assert(index as int <= (width - 2) / 2);
            assert(2 * (index as int) + 2 <= width);
        }
        let start = 2 * index;
        match self.parent.get(time) {
            Some(arr) => {
                let lo = arr.get(start);
                let hi = arr.get(start + 1);
                match (lo, hi) {
                    (Some(l), Some(h)) => Some((*l as u16) + 256 * (*h as u16)),
                    _ => None,
                }
            },
            None => None,
        }
    }

    /// Read the held value at typed index `index` at `time`, assembling
    /// each byte from its own floor query; out-of-range indices are an
    /// explicit error.
    pub fn floor_typed(&self, time: usize, index: usize) -> (r: Result<u16, Error>)
        requires
            self.spec_parent().inv(),
            store_wf(self.spec_parent()@, self.spec_parent().spec_width()),
            self.spec_parent().spec_width() % 2 == 0,
        ensures
            match r {
                Ok(v) => 2 * (index as int) + 2 <= self.spec_parent().spec_width() && v
                    == spec_floor_typed(self.spec_parent()@, time, index as int),
                Err(e) => {
                    &&& 2 * (index as int) + 2 > self.spec_parent().spec_width()
                    &&& e == (Error::OutOfRange {
                        index,
                        bound: (self.spec_parent().spec_width() / 2) as usize,
                    })
                },
            },
    {
        let width = self.parent.width();
        if width < 2 || index > (width - 2) / 2 {
            proof {
                assert(2 * (index as int) + 2 > width);
                assert((width as int) / 2 == ((width as int) - 2) / 2 + 1 || width == 0);
            }
            return Err(Error::OutOfRange { index, bound: width / 2 });
        }
        proof {
            assert(2 * (index as int) + 2 <= width);
        }
        let start = 2 * index;
        let lo = self.parent.floor(time, start);
        let hi = self.parent.floor(time, start + 1);
        Ok((lo as u16) + 256 * (hi as u16))
    }
}

impl<'a> MultiSequenceView<'a, u16, u8> {
    /// View a 16-bit store as raw bytes.
    pub fn new_raw(parent: &'a MultiSequence<u16>) -> (r: Self)
        requires
            parent.inv(),
            store_wf(parent@, parent.spec_width()),
        ensures
            r.spec_parent() == *parent,
    {
        MultiSequenceView { parent, _target: core::marker::PhantomData }
    }

    /// Read one byte of the snapshot at exactly `time`; absent if the
    /// flat index is out of range or the owning typed channel records
    /// nothing there.
    pub fn get_raw(&self, time: usize, flat_index: usize) -> (r: Option<u8>)
        requires
            self.spec_parent().inv(),
            store_wf(self.spec_parent()@, self.spec_parent().spec_width()),
        ensures
            match r {
                Some(b) => (flat_index / 2) < self.spec_parent().spec_width() && (chan_at(
                    self.spec_parent()@,
                    time,
                    flat_index as int / 2,
                ) matches Some(v) && b == byte_of(v, flat_index as int % 2)),
                None => (flat_index / 2) >= self.spec_parent().spec_width() || chan_at(
                    self.spec_parent()@,
                    time,
                    flat_index as int / 2,
                ) is None,
            },
    {
        let elem = flat_index / 2;
        let off = flat_index % 2;
        if elem >= self.parent.width() {
            return None;
        }
        match self.parent.get(time) {
            Some(arr) => {
                match arr.get(elem) {
                    Some(v) => {
                        if off == 0 {
                            Some((*v % 256) as u8)
                        } else {
                            Some((*v / 256) as u8)
                        }
                    },
                    None => None,
                }
            },
            None => None,
        }
    }

    /// Read one byte of the held typed value at `time`: the owning
    /// channel is resolved by a floor query and the byte extracted from
    /// it; out-of-range indices are an explicit error.
    pub fn floor_raw(&self, time: usize, flat_index: usize) -> (r: Result<u8, Error>)
        requires
            self.spec_parent().inv(),
            store_wf(self.spec_parent()@, self.spec_parent().spec_width()),
        ensures
            match r {
                Ok(b) => (flat_index / 2) < self.spec_parent().spec_width() && b == byte_of(
                    chan_floor_val(self.spec_parent()@, time, flat_index as int / 2, 0u16),
                    flat_index as int % 2,
                ),
                Err(e) => {
                    &&& (flat_index / 2) >= self.spec_parent().spec_width()
                    &&& e == (Error::OutOfRange {
                        index: flat_index,
                        bound: (2 * self.spec_parent().spec_width()) as usize,
                    })
                },
            },
    {
        let elem = flat_index / 2;
        let off = flat_index % 2;
        let width = self.parent.width();
        if elem >= width {
            proof {
                assert(width <= usize::MAX / 2);
            }
            return Err(Error::OutOfRange { index: flat_index, bound: 2 * width });
        }
        let v = self.parent.floor(time, elem);
        if off == 0 {
            Ok((v % 256) as u8)
        } else {
            Ok((v / 256) as u8)
        }
    }
}

/// Reinterpret round-trip: writing a typed value byte by byte through
/// the raw byte channels at one time key and reading it back through
/// the typed view at that time returns the original value.
pub proof fn lemma_reinterpret_round_trip(
    s: Seq<(usize, Seq<Option<u8>>)>,
    width: nat,
    t: usize,
    idx: int,
    v: u16,
)
    requires
        store_wf(s, width),
        0 <= idx,
        2 * idx + 2 <= width,
    ensures
        ({
            let s1 = spec_set(s, t, 2 * idx, byte_of(v, 0), width);
            let s2 = spec_set(s1, t, 2 * idx + 1, byte_of(v, 1), width);
            spec_get_typed(s2, t, idx, width) == Some(v)
        }),
{
    let lo = byte_of(v, 0);
    let hi = byte_of(v, 1);
    let s1 = spec_set(s, t, 2 * idx, lo, width);
    let s2 = spec_set(s1, t, 2 * idx + 1, hi, width);
    lemma_spec_set_chan_at(s, t, 2 * idx, lo, width);
    lemma_spec_set_store_wf(s, t, 2 * idx, lo, width);
    lemma_spec_set_chan_at(s1, t, 2 * idx + 1, hi, width);
    assert(chan_at(s2, t, 2 * idx) == Some(lo));
    assert(chan_at(s2, t, 2 * idx + 1) == Some(hi));
    assert(word_of(lo, hi) == v) by {
        assert(v % 256 + 256 * (v / 256) == v) by (nonlinear_arith);
    }
}

/// `spec_set` preserves sortedness and snapshot widths.
pub proof fn lemma_spec_set_store_wf<T>(
    s: Seq<(usize, Seq<Option<T>>)>,
    time: usize,
    c: int,
    value: T,
    width: nat,
)
    requires
        keys_sorted(s),
        0 <= c < width,
        forall|i: int| 0 <= i < s.len() ==> (#[trigger] s[i].1).len() == width,
    ensures
        keys_sorted(spec_set(s, time, c, value, width)),
        forall|i: int|
            0 <= i < spec_set(s, time, c, value, width).len() ==> (#[trigger] spec_set(
                s,
                time,
                c,
                value,
                width,
            )[i].1).len() == width,
    decreases s.len(),
{
    let r = spec_set(s, time, c, value, width);
    if s.len() == 0 {
    } else if s.last().0 < time {
        assert forall|i: int, j: int|
            0 <= i < j < r.len() implies (#[trigger] r[i]).0 < (#[trigger] r[j]).0 by {
            if j < r.len() - 1 {
                assert(s[i].0 < s[j].0);
            } else {
                if i < s.len() - 1 {
                    assert(s[i].0 < s[s.len() - 1].0);
                }
            }
        }
    } else if s.last().0 == time {
        crate::sequence::lemma_sorted_prefix(s);
        assert forall|i: int, j: int|
            0 <= i < j < r.len() implies (#[trigger] r[i]).0 < (#[trigger] r[j]).0 by {
            assert(s[i].0 < s[j].0);
        }
    } else {
        crate::sequence::lemma_sorted_prefix(s);
        lemma_spec_set_store_wf(s.drop_last(), time, c, value, width);
        let r0 = spec_set(s.drop_last(), time, c, value, width);
        lemma_spec_set_keys(s.drop_last(), time, c, value, width);
        assert forall|i: int, j: int|
            0 <= i < j < r.len() implies (#[trigger] r[i]).0 < (#[trigger] r[j]).0 by {
            if j == r.len() - 1 {
                assert(r0[i] == r[i]);
                assert(r0[i].0 == time || crate::sequence::key_in(s.drop_last(), r0[i].0));
                if r0[i].0 != time {
                    let w = choose|w: int|
                        0 <= w < s.drop_last().len() && #[trigger] s.drop_last()[w].0 == r0[i].0;
                    assert(s[w].0 < s.last().0);
                }
            } else {
                assert(r0[i] == r[i] && r0[j] == r[j]);
            }
        }
    }
}

/// Every key of a `spec_set` result is the written key or an old key.
proof fn lemma_spec_set_keys<T>(s: Seq<(usize, Seq<Option<T>>)>, time: usize, c: int, value: T, width: nat)
    ensures
        forall|i: int|
            0 <= i < spec_set(s, time, c, value, width).len() ==> (#[trigger] spec_set(
                s,
                time,
                c,
                value,
                width,
            )[i]).0 == time || crate::sequence::key_in(s, spec_set(s, time, c, value, width)[i].0),
    decreases s.len(),
{
    let r = spec_set(s, time, c, value, width);
    if s.len() == 0 {
    } else if s.last().0 < time {
        assert forall|i: int|
            0 <= i < r.len() implies (#[trigger] r[i]).0 == time || crate::sequence::key_in(
            s,
            r[i].0,
        ) by {
            if i < s.len() {
                assert(s[i].0 == r[i].0);
            }
        }
    } else if s.last().0 == time {
        assert forall|i: int|
            0 <= i < r.len() implies (#[trigger] r[i]).0 == time || crate::sequence::key_in(
            s,
            r[i].0,
        ) by {
            if i < s.len() - 1 {
                assert(s[i].0 == r[i].0);
            }
        }
    } else {
        lemma_spec_set_keys(s.drop_last(), time, c, value, width);
        let r0 = spec_set(s.drop_last(), time, c, value, width);
        assert forall|i: int|
            0 <= i < r.len() implies (#[trigger] r[i]).0 == time || crate::sequence::key_in(
            s,
            r[i].0,
        ) by {
            if i < r0.len() {
                assert(r0[i] == r[i]);
                assert(r0[i].0 == time || crate::sequence::key_in(s.drop_last(), r0[i].0));
                if r0[i].0 != time {
                    let w = choose|w: int|
                        0 <= w < s.drop_last().len() && #[trigger] s.drop_last()[w].0 == r0[i].0;
                    assert(s[w].0 == r[i].0);
                }
            } else {
                assert(s[s.len() - 1].0 == r[i].0);
            }
        }
    }
}

} // verus!
