//! Per-channel bit assignment: folding a sorted note-event stream into
//! packed per-channel change histories.
//!
//! Each used key (of the 128 possible) gets a dense index; consecutive
//! groups of `notes_per_value` dense indices share one channel, one bit
//! per key.  A saturating counter per key tracks how many times the key
//! is currently held on; a channel's packed value has bit `b` set
//! exactly when the counter of dense index `channel * notes_per_value +
//! b` is positive.  After each group of simultaneous events the packed
//! value of every channel is sampled, and a channel records the sample
//! exactly when it differs from the previously recorded value (starting
//! from zero), which is the same compaction the timeline store uses.

use vstd::prelude::*;

verus! {

use crate::sequence::{opt_seq, last_val};

/// Event times never decrease.
pub open spec fn events_sorted(events: Seq<(u32, u8, bool)>) -> bool {
    forall|i: int, j: int|
        0 <= i < j < events.len() ==> (#[trigger] events[i]).0 <= (#[trigger] events[j]).0
}

/// Some event carries key `key`.
pub open spec fn key_used(events: Seq<(u32, u8, bool)>, key: int) -> bool {
    exists|i: int| 0 <= i < events.len() && (#[trigger] events[i]).1 == key
}

/// How many used keys lie strictly below `k`.
pub open spec fn used_below(events: Seq<(u32, u8, bool)>, k: int) -> nat
    decreases
            (if k > 0 {
                k
            } else {
                0
            }),
{
    if k <= 0 {
        0
    } else {
        used_below(events, k - 1) + if key_used(events, k - 1) {
            1nat
        } else {
            0nat
        }
    }
}

/// The number of used keys.
pub open spec fn used_count(events: Seq<(u32, u8, bool)>) -> nat {
    used_below(events, 128)
}

/// The number of channels that `notes_per_value` bits per channel need.
pub open spec fn channel_count(used: nat, npv: nat) -> nat
    recommends
        npv >= 1,
{
    if used == 0 {
        1
    } else {
        (used - 1) as nat / npv + 1
    }
}

/// One saturating counter step: up on a note-on, down on a note-off.
pub open spec fn bump(counters: Seq<u8>, idx: int, on: bool) -> Seq<u8>
    recommends
        0 <= idx < counters.len(),
{
    counters.update(
        idx,
        if on {
            if counters[idx] == 255 {
                255u8
            } else {
                (counters[idx] + 1) as u8
            }
        } else {
            if counters[idx] == 0 {
                0u8
            } else {
                (counters[idx] - 1) as u8
            }
        },
    )
}

/// The counters after the first `k` events.
pub open spec fn counters_after(events: Seq<(u32, u8, bool)>, k: int) -> Seq<u8>
    decreases
            (if k > 0 {
                k
            } else {
                0
            }),
{
    if k <= 0 {
        Seq::new(used_count(events), |i: int| 0u8)
    } else {
        bump(
            counters_after(events, k - 1),
            used_below(events, events[k - 1].1 as int) as int,
            events[k - 1].2,
        )
    }
}

/// The low `b` bits of channel `c`'s packed value.
pub open spec fn data_bits(counters: Seq<u8>, used: int, c: int, npv: int, b: int) -> u32
    decreases
            (if b > 0 {
                b
            } else {
                0
            }),
{
    if b <= 0 {
        0u32
    } else {
        let rest = data_bits(counters, used, c, npv, b - 1);
        if c * npv + (b - 1) < used && counters[c * npv + (b - 1)] >= 1 {
            rest | (1u32 << ((b - 1) as u32))
        } else {
            rest
        }
    }
}

/// Channel `c`'s packed value after the first `k` events.
pub open spec fn chan_data(events: Seq<(u32, u8, bool)>, k: int, c: int, npv: int) -> u32 {
    data_bits(counters_after(events, k), used_count(events) as int, c, npv, npv)
}

/// Whether event `i` is the last of its group of simultaneous events.
pub open spec fn group_end(events: Seq<(u32, u8, bool)>, i: int) -> bool
    recommends
        0 <= i < events.len(),
{
    i == events.len() - 1 || events[i].0 != events[i + 1].0
}

/// The dense series of channel `c`: one `(time, packed value)` sample
/// per distinct event time among the first `k` events.
pub open spec fn series(events: Seq<(u32, u8, bool)>, k: int, c: int, npv: int) -> Seq<(u32, u32)>
    decreases
            (if k > 0 {
                k
            } else {
                0
            }),
{
    if k <= 0 {
        Seq::empty()
    } else {
        let rest = series(events, k - 1, c, npv);
        if group_end(events, k - 1) {
            rest.push((events[k - 1].0, chan_data(events, k, c, npv)))
        } else {
            rest
        }
    }
}

/// `used_below` grows by at most one per key and reaches every used key.
pub proof fn lemma_used_below_mono(events: Seq<(u32, u8, bool)>, a: int, b: int)
    requires
        a <= b,
    ensures
        used_below(events, a) <= used_below(events, b),
    decreases b - a,
{
    if a < b {
        lemma_used_below_mono(events, a, b - 1);
    }
}

/// At most one used key per key value.
pub proof fn lemma_used_below_le(events: Seq<(u32, u8, bool)>, k: int)
    requires
        k >= 0,
    ensures
        used_below(events, k) <= k,
    decreases k,
{
    if k > 0 {
        lemma_used_below_le(events, k - 1);
    }
}

/// A used key's dense index lies below the used count.
pub proof fn lemma_used_index_bound(events: Seq<(u32, u8, bool)>, key: int)
    requires
        key_used(events, key),
        0 <= key < 128,
    ensures
        used_below(events, key) < used_count(events),
{
    assert(used_below(events, key + 1) == used_below(events, key) + 1);
    lemma_used_below_mono(events, key + 1, 128);
}

/// The keys of a channel's dense series strictly increase.
pub proof fn lemma_series_sorted(events: Seq<(u32, u8, bool)>, k: int, c: int, npv: int)
    requires
        events_sorted(events),
        0 <= k <= events.len(),
    ensures
        forall|i: int, j: int|
            0 <= i < j < series(events, k, c, npv).len() ==> (#[trigger] series(
                events,
                k,
                c,
                npv,
            )[i]).0 < (#[trigger] series(events, k, c, npv)[j]).0,
        forall|i: int|
            0 <= i < series(events, k, c, npv).len() ==> exists|e: int|
                0 <= e < k && (#[trigger] series(events, k, c, npv)[i]).0 == events[e].0,
        series(events, k, c, npv).len() > 0 && k < events.len() ==> series(
            events,
            k,
            c,
            npv,
        ).last().0 != events[k].0,
    decreases
            (if k > 0 {
                k
            } else {
                0
            }),
{
    if k > 0 {
        lemma_series_sorted(events, k - 1, c, npv);
        let r0 = series(events, k - 1, c, npv);
        let r = series(events, k, c, npv);
        if group_end(events, k - 1) {
            assert forall|i: int, j: int|
                0 <= i < j < r.len() implies (#[trigger] r[i]).0 < (#[trigger] r[j]).0 by {
                if j == r.len() - 1 {
                    assert(r0[i] == r[i]);
                    let e = choose|e: int| 0 <= e < k - 1 && (#[trigger] r0[i]).0 == events[e].0;
                    assert(events[e].0 <= events[k - 1].0);
                    assert(r0[i].0 != events[k - 1].0);
                } else {
                    assert(r0[i] == r[i] && r0[j] == r[j]);
                }
            }
            assert forall|i: int| 0 <= i < r.len() implies exists|e: int|
                0 <= e < k && (#[trigger] r[i]).0 == events[e].0 by {
                if i < r0.len() {
                    let e = choose|e: int| 0 <= e < k - 1 && (#[trigger] r0[i]).0 == events[e].0;
                    assert(0 <= e < k && r[i].0 == events[e].0);
                } else {
                    assert(r[i].0 == events[k - 1].0);
                }
            }
            if k < events.len() {
                assert(events[k - 1].0 != events[k].0);
            }
        } else {
            assert(r == r0);
            if r.len() > 0 && k < events.len() {
                assert(events[k - 1].0 == events[k].0);
                let e = choose|e: int|
                    0 <= e < k - 1 && (#[trigger] r0[r0.len() - 1]).0 == events[e].0;
                assert(events[e].0 <= events[k - 1].0);
                assert(r0.last().0 != events[k - 1].0);
            }
            assert forall|i: int| 0 <= i < r.len() implies exists|e: int|
                0 <= e < k && (#[trigger] r[i]).0 == events[e].0 by {
                let e = choose|e: int| 0 <= e < k - 1 && (#[trigger] r0[i]).0 == events[e].0;
                assert(0 <= e < k && r[i].0 == events[e].0);
            }
        }
    }
}

/// Compaction of a strictly sorted `(u32, u32)` series stays strictly
/// sorted.
pub proof fn lemma_opt_series_sorted(s: Seq<(u32, u32)>, d: u32)
    requires
        forall|i: int, j: int| 0 <= i < j < s.len() ==> (#[trigger] s[i]).0 < (#[trigger] s[j]).0,
    ensures
        forall|i: int, j: int|
            0 <= i < j < opt_seq(s, d).len() ==> (#[trigger] opt_seq(s, d)[i]).0 < (
            #[trigger] opt_seq(s, d)[j]).0,
        forall|i: int|
            0 <= i < opt_seq(s, d).len() ==> exists|e: int|
                0 <= e < s.len() && (#[trigger] opt_seq(s, d)[i]).0 == s[e].0,
    decreases s.len(),
{
    if s.len() > 0 {
        assert forall|i: int, j: int|
            0 <= i < j < s.drop_last().len() implies (#[trigger] s.drop_last()[i]).0 < (
        #[trigger] s.drop_last()[j]).0 by {
            assert(s[i].0 < s[j].0);
        }
        lemma_opt_series_sorted(s.drop_last(), d);
        let r0 = opt_seq(s.drop_last(), d);
        let r = opt_seq(s, d);
        if s.last().1 != last_val(s.drop_last(), d) {
            assert forall|i: int, j: int|
                0 <= i < j < r.len() implies (#[trigger] r[i]).0 < (#[trigger] r[j]).0 by {
                if j == r.len() - 1 {
                    assert(r0[i] == r[i]);
                    let e = choose|e: int|
                        0 <= e < s.drop_last().len() && (#[trigger] r0[i]).0
                            == s.drop_last()[e].0;
                    assert(s[e].0 < s.last().0);
                } else {
                    assert(r0[i] == r[i] && r0[j] == r[j]);
                }
            }
            assert forall|i: int| 0 <= i < r.len() implies exists|e: int|
                0 <= e < s.len() && (#[trigger] r[i]).0 == s[e].0 by {
                if i < r0.len() {
                    let e = choose|e: int|
                        0 <= e < s.drop_last().len() && (#[trigger] r0[i]).0
                            == s.drop_last()[e].0;
                    assert(0 <= e < s.len() && r[i].0 == s[e].0);
                } else {
                    assert(r[i].0 == s[s.len() - 1].0);
                }
            }
        } else {
            assert forall|i: int| 0 <= i < r.len() implies exists|e: int|
                0 <= e < s.len() && (#[trigger] r[i]).0 == s[e].0 by {
                let e = choose|e: int|
                    0 <= e < s.drop_last().len() && (#[trigger] r0[i]).0 == s.drop_last()[e].0;
                assert(0 <= e < s.len() && r[i].0 == s[e].0);
            }
        }
    }
}

/// Borrow one channel's change list mutably.
fn changes_mut(v: &mut Vec<Vec<(u32, u32)>>, i: usize) -> (r: &mut Vec<(u32, u32)>)
    requires
        i < old(v)@.len(),
    ensures
        *r == old(v)@[i as int],
        final(v)@ == old(v)@.update(i as int, *final(r)),
{
    &mut v[i]
}

/// Fold a sorted note-event stream into packed per-channel change
/// histories and the dense-index-to-key table: channel `c`'s history is
/// the compaction (against a zero baseline) of its dense
/// per-distinct-time sample series, and entry `j` of the key table is
/// the `j`-th used key in ascending order.
pub fn pack_note_events(events: &Vec<(u32, u8, bool)>, notes_per_value: usize) -> (r: (
    Vec<Vec<(u32, u32)>>,
    Vec<u8>,
))
    requires
        1 <= notes_per_value <= 32,
        events_sorted(events@),
        forall|i: int| 0 <= i < events@.len() ==> (#[trigger] events@[i]).1 < 128,
    ensures
        r.0@.len() == channel_count(used_count(events@), notes_per_value as nat),
        forall|c: int|
            0 <= c < r.0@.len() ==> (#[trigger] r.0@[c])@ == opt_seq(
                series(events@, events@.len() as int, c, notes_per_value as int),
                0u32,
            ),
        r.1@.len() == used_count(events@),
        forall|j: int|
            0 <= j < r.1@.len() ==> key_used(events@, (#[trigger] r.1@[j]) as int) && used_below(
                events@,
                r.1@[j] as int,
            ) == j && r.1@[j] < 128,
{
    let ghost ev = events@;
    let npv = notes_per_value;
    let n = events.len();

    let mut used_flags: Vec<bool> = Vec::new();
    let mut kk: usize = 0;
    while kk < 128
        invariant
            kk <= 128,
            used_flags@.len() == kk,
            forall|k: int| 0 <= k < kk ==> !(#[trigger] used_flags@[k]),
        decreases 128 - kk,
    {
        used_flags.push(false);
        kk = kk + 1;
    }
    let mut i0: usize = 0;
    while i0 < n
        invariant
            i0 <= n,
            n == ev.len(),
            ev == events@,
            forall|q: int| 0 <= q < ev.len() ==> (#[trigger] ev[q]).1 < 128,
            used_flags@.len() == 128,
            forall|k: int| 0 <= k < 128 ==> #[trigger] used_flags@[k] == key_used(
                ev.take(i0 as int),
                k,
            ),
        decreases n - i0,
    {
        let key = events[i0].1;
        used_flags.set(key as usize, true);
        proof {
            assert forall|k: int|
                0 <= k < 128 implies #[trigger] used_flags@[k] == key_used(
                ev.take(i0 + 1),
                k,
            ) by {
                if k == key as int {
                    assert((ev.take(i0 + 1)[i0 as int]).1 == k);
                } else {
                    if key_used(ev.take(i0 + 1), k) {
                        let w = choose|w: int|
                            0 <= w < ev.take(i0 + 1).len() && (#[trigger] ev.take(
                                i0 + 1,
                            )[w]).1 == k;
                        assert(ev.take(i0 + 1)[w] == ev[w]);
                        assert(w != i0 as int);
                        assert((ev.take(i0 as int)[w]).1 == k);
                    }
                    if key_used(ev.take(i0 as int), k) {
                        let w = choose|w: int|
                            0 <= w < ev.take(i0 as int).len() && (#[trigger] ev.take(
                                i0 as int,
                            )[w]).1 == k;
                        assert(ev.take(i0 as int)[w] == ev[w]);
                        assert((ev.take(i0 + 1)[w]).1 == k);
                    }
                }
            }
        }
        i0 = i0 + 1;
    }
    proof {
        assert(ev.take(n as int) =~= ev);
    }

    let mut mapping: Vec<usize> = Vec::new();
    let mut kk2: usize = 0;
    while kk2 < 128
        invariant
            kk2 <= 128,
            mapping@.len() == kk2,
        decreases 128 - kk2,
    {
        mapping.push(0);
        kk2 = kk2 + 1;
    }
    let mut index_to_key: Vec<u8> = Vec::new();
    let mut idx: usize = 0;
    let mut key: usize = 0;
    while key < 128
        invariant
            key <= 128,
            ev == events@,
            used_flags@.len() == 128,
            mapping@.len() == 128,
            forall|k: int| 0 <= k < 128 ==> #[trigger] used_flags@[k] == key_used(ev, k),
            idx == used_below(ev, key as int),
            idx <= key,
            index_to_key@.len() == idx,
            forall|k: int|
                0 <= k < key && key_used(ev, k) ==> #[trigger] mapping@[k] == used_below(ev, k),
            forall|j: int|
                0 <= j < idx ==> key_used(ev, (#[trigger] index_to_key@[j]) as int) && used_below(
                    ev,
                    index_to_key@[j] as int,
                ) == j && index_to_key@[j] < 128,
        decreases 128 - key,
    {
        if used_flags[key] {
            mapping.set(key, idx);
            index_to_key.push(key as u8);
            idx = idx + 1;
        }
        key = key + 1;
    }
    proof {
        assert(idx == used_count(ev));
        lemma_used_below_le(ev, 128);
    }

    let mut counters: Vec<u8> = Vec::new();
    let mut kk3: usize = 0;
    while kk3 < idx
        invariant
            kk3 <= idx,
            counters@.len() == kk3,
            forall|k: int| 0 <= k < kk3 ==> (#[trigger] counters@[k]) == 0u8,
        decreases idx - kk3,
    {
        counters.push(0u8);
        kk3 = kk3 + 1;
    }
    proof {
        assert(counters@ =~= counters_after(ev, 0));
    }

    let channels: usize = if idx == 0 {
        1
    } else {
        (idx - 1) / npv + 1
    };
    proof {
        assert(channels == channel_count(used_count(ev), npv as nat));
    }
    let mut changes: Vec<Vec<(u32, u32)>> = Vec::new();
    let mut last_data: Vec<u32> = Vec::new();
    let mut kk4: usize = 0;
    while kk4 < channels
        invariant
            kk4 <= channels,
            changes@.len() == kk4,
            last_data@.len() == kk4,
            forall|c: int| 0 <= c < kk4 ==> (#[trigger] changes@[c])@ =~= Seq::<(u32, u32)>::empty(),
            forall|c: int| 0 <= c < kk4 ==> (#[trigger] last_data@[c]) == 0u32,
        decreases channels - kk4,
    {
        changes.push(Vec::new());
        last_data.push(0u32);
        kk4 = kk4 + 1;
    }

    let mut i: usize = 0;
    proof {
        assert forall|c: int| 0 <= c < channels implies (#[trigger] changes@[c])@ == opt_seq(
            series(ev, 0, c, npv as int),
            0u32,
        ) by {
            assert(series(ev, 0, c, npv as int) =~= Seq::<(u32, u32)>::empty());
        }
    }
    while i < n
        invariant
            i <= n,
            n == ev.len(),
            ev == events@,
            1 <= npv <= 32,
            events_sorted(ev),
            forall|q: int| 0 <= q < ev.len() ==> (#[trigger] ev[q]).1 < 128,
            idx <= 128,
            used_flags@.len() == 128,
            mapping@.len() == 128,
            forall|k: int|
                0 <= k < 128 && key_used(ev, k) ==> #[trigger] mapping@[k] == used_below(ev, k),
            idx == used_count(ev),
            channels == channel_count(used_count(ev), npv as nat),
            counters@.len() == idx,
            counters@ == counters_after(ev, i as int),
            changes@.len() == channels,
            last_data@.len() == channels,
            forall|c: int|
                0 <= c < channels ==> (#[trigger] changes@[c])@ == opt_seq(
                    series(ev, i as int, c, npv as int),
                    0u32,
                ),
            forall|c: int|
                0 <= c < channels ==> (#[trigger] last_data@[c]) == last_val(
                    series(ev, i as int, c, npv as int),
                    0u32,
                ),
        decreases n - i,
    {
        let (t, ekey, on) = events[i];
        proof {
            assert(key_used(ev, ekey as int));
            lemma_used_index_bound(ev, ekey as int);
        }
        let m = mapping[ekey as usize];
        let cur = counters[m];
        let newval: u8 = if on {
            if cur == 255 {
                255
            } else {
                cur + 1
            }
        } else {
            if cur == 0 {
                0
            } else {
                cur - 1
            }
        };
        counters.set(m, newval);
        proof {
            assert(counters@ =~= bump(counters_after(ev, i as int), m as int, on));
            assert(counters@ == counters_after(ev, i + 1));
        }
        let is_end = i + 1 == n || events[i + 1].0 != t;
        proof {
            assert(is_end == group_end(ev, i as int));
        }
        if is_end {
            let mut c: usize = 0;
            while c < channels
                invariant
                    c <= channels,
                    n == ev.len(),
                    ev == events@,
                    i < n,
                    1 <= npv <= 32,
                    group_end(ev, i as int),
                    events_sorted(ev),
                    idx <= 128,
                    idx == used_count(ev),
                    channels == channel_count(used_count(ev), npv as nat),
                    counters@.len() == idx,
                    counters@ == counters_after(ev, i + 1),
                    changes@.len() == channels,
                    last_data@.len() == channels,
                    ev[i as int] == (t, ekey, on),
                    forall|c2: int|
                        0 <= c2 < c ==> (#[trigger] changes@[c2])@ == opt_seq(
                            series(ev, i + 1, c2, npv as int),
                            0u32,
                        ),
                    forall|c2: int|
                        0 <= c2 < c ==> (#[trigger] last_data@[c2]) == last_val(
                            series(ev, i + 1, c2, npv as int),
                            0u32,
                        ),
                    forall|c2: int|
                        c <= c2 < channels ==> (#[trigger] changes@[c2])@ == opt_seq(
                            series(ev, i as int, c2, npv as int),
                            0u32,
                        ),
                    forall|c2: int|
                        c <= c2 < channels ==> (#[trigger] last_data@[c2]) == last_val(
                            series(ev, i as int, c2, npv as int),
                            0u32,
                        ),
                decreases channels - c,
            {
                proof {
                    lemma_channel_bit_bound(idx as int, c as int, npv as int);
                }
                let mut data: u32 = 0;
                let mut b: usize = 0;
                while b < npv
                    invariant
                        b <= npv,
                        1 <= npv <= 32,
                        c < channels,
                        idx == used_count(ev),
                        channels == channel_count(used_count(ev), npv as nat),
                        counters@.len() == idx,
                        counters@ == counters_after(ev, i + 1),
                        c * npv + npv <= 4096,
                        data == data_bits(
                            counters_after(ev, i + 1),
                            used_count(ev) as int,
                            c as int,
                            npv as int,
                            b as int,
                        ),
                    decreases npv - b,
                {
                    let index = c * npv + b;
                    if index < idx {
                        if counters[index] >= 1 {
                            data = data | (1u32 << (b as u32));
                        }
                    }
                    b = b + 1;
                }
                let prev = last_data[c];
                let ghost sc = series(ev, i as int, c as int, npv as int);
                let ghost sc1 = series(ev, i + 1, c as int, npv as int);
                proof {
                    assert(sc1 == sc.push((t, chan_data(ev, i + 1, c as int, npv as int))));
                    assert(sc1.drop_last() =~= sc);
                    assert(data == chan_data(ev, i + 1, c as int, npv as int));
                    assert(prev == last_val(sc, 0u32));
                }
                if data != prev {
                    let ch = changes_mut(&mut changes, c);
                    ch.push((t, data));
                    last_data.set(c, data);
                    proof {
                        assert(changes@[c as int]@ == opt_seq(sc, 0u32).push((t, data)));
                        assert(opt_seq(sc1, 0u32) == opt_seq(sc, 0u32).push((t, data)));
                    }
                } else {
                    proof {
                        assert(opt_seq(sc1, 0u32) == opt_seq(sc, 0u32));
                    }
                }
                c = c + 1;
            }
        } else {
            proof {
                assert forall|c2: int|
                    0 <= c2 < channels implies series(ev, i + 1, c2, npv as int) == series(
                    ev,
                    i as int,
                    c2,
                    npv as int,
                ) by {}
            }
        }
        i = i + 1;
    }
    (changes, index_to_key)
}

/// The dense index of any bit of any channel stays small.
proof fn lemma_channel_bit_bound(used: int, c: int, npv: int)
    requires
        0 <= used <= 128,
        1 <= npv <= 32,
        0 <= c < channel_count(used as nat, npv as nat),
    ensures
        c * npv + npv <= 4096,
{
    assert(c <= 127);
    assert(c * npv <= 127 * 32) by (nonlinear_arith)
        requires
            0 <= c <= 127 && 1 <= npv <= 32,
    ;
}


/// Whether a raw event survives the pitch filter.
pub open spec fn keep_event(e: (u32, u8, u8, bool), min_pitch: u8, max_pitch: u8) -> bool {
    min_pitch <= e.1 && e.1 <= max_pitch && e.1 < 128
}

/// The filtered note events: pitch-bounded keys only, each reduced to
/// `(time, key, on)` where a note counts as on exactly when it is a
/// note-on strictly louder than the velocity threshold.
pub open spec fn filter_spec(
    events: Seq<(u32, u8, u8, bool)>,
    min_pitch: u8,
    max_pitch: u8,
    min_velocity: u8,
) -> Seq<(u32, u8, bool)>
    decreases events.len(),
{
    if events.len() == 0 {
        Seq::empty()
    } else {
        let rest = filter_spec(events.drop_last(), min_pitch, max_pitch, min_velocity);
        let e = events.last();
        if keep_event(e, min_pitch, max_pitch) {
            rest.push((e.0, e.1, e.3 && e.2 > min_velocity))
        } else {
            rest
        }
    }
}

/// Filter raw `(time, key, velocity, note_on)` events down to the
/// configured pitch range and on/off states.
pub fn filter_note_events(
    events: &Vec<(u32, u8, u8, bool)>,
    min_pitch: u8,
    max_pitch: u8,
    min_velocity: u8,
) -> (r: Vec<(u32, u8, bool)>)
    ensures
        r@ == filter_spec(events@, min_pitch, max_pitch, min_velocity),
        forall|i: int|
            0 <= i < r@.len() ==> min_pitch <= (#[trigger] r@[i]).1 <= max_pitch && r@[i].1 < 128,
{
    let n = events.len();
    let mut out: Vec<(u32, u8, bool)> = Vec::new();
    let mut k: usize = 0;
    while k < n
        invariant
            k <= n,
            n == events@.len(),
            out@ == filter_spec(events@.take(k as int), min_pitch, max_pitch, min_velocity),
            forall|i: int|
                0 <= i < out@.len() ==> min_pitch <= (#[trigger] out@[i]).1 <= max_pitch
                    && out@[i].1 < 128,
        decreases n - k,
    {
        let (t, key, vel, on) = events[k];
        proof {
            assert(events@.take(k + 1).drop_last() =~= events@.take(k as int));
            assert(events@.take(k + 1).last() == events@[k as int]);
        }
        if min_pitch <= key && key <= max_pitch && key < 128 {
            out.push((t, key, on && vel > min_velocity));
        }
        k = k + 1;
    }
    proof {
        assert(events@.take(n as int) =~= events@);
    }
    out
}

/// A filtered event placed into its sorted position from the end.
pub open spec fn insert_sorted(s: Seq<(u32, u8, bool)>, e: (u32, u8, bool)) -> Seq<
    (u32, u8, bool),
>
    decreases s.len(),
{
    if s.len() == 0 {
        seq![e]
    } else if s.last().0 <= e.0 {
        s.push(e)
    } else {
        insert_sorted(s.drop_last(), e).push(s.last())
    }
}

/// The events in ascending time order, built by repeated sorted
/// insertion.
pub open spec fn sort_spec(s: Seq<(u32, u8, bool)>) -> Seq<(u32, u8, bool)>
    decreases s.len(),
{
    if s.len() == 0 {
        s
    } else {
        insert_sorted(sort_spec(s.drop_last()), s.last())
    }
}

/// Positional reading of `insert_sorted` at the partition point.
proof fn lemma_insert_sorted_split(s: Seq<(u32, u8, bool)>, e: (u32, u8, bool), p: int)
    requires
        0 <= p <= s.len(),
        forall|i: int| 0 <= i < p ==> (#[trigger] s[i]).0 <= e.0,
        forall|i: int| p <= i < s.len() ==> (#[trigger] s[i]).0 > e.0,
    ensures
        insert_sorted(s, e) =~= s.subrange(0, p) + seq![e] + s.subrange(p, s.len() as int),
    decreases s.len(),
{
    if s.len() == 0 {
    } else if s.last().0 <= e.0 {
        assert(p == s.len());
        assert(s.subrange(0, p) =~= s);
    } else {
        assert(p < s.len());
        lemma_insert_sorted_split(s.drop_last(), e, p);
        assert(s.drop_last().subrange(0, p) =~= s.subrange(0, p));
        assert(s.drop_last().subrange(p, s.len() - 1).push(s.last()) =~= s.subrange(
            p,
            s.len() as int,
        ));
    }
}

/// Every element of a sorted insertion is the new element or an old one.
pub proof fn lemma_insert_sorted_membership(s: Seq<(u32, u8, bool)>, e: (u32, u8, bool))
    ensures
        forall|i: int|
            0 <= i < insert_sorted(s, e).len() ==> #[trigger] insert_sorted(s, e)[i] == e
                || s.contains(insert_sorted(s, e)[i]),
        insert_sorted(s, e).len() == s.len() + 1,
    decreases s.len(),
{
    let r = insert_sorted(s, e);
    if s.len() == 0 {
    } else if s.last().0 <= e.0 {
        assert forall|i: int|
            0 <= i < r.len() implies #[trigger] r[i] == e || s.contains(r[i]) by {
            if i < s.len() {
                assert(s[i] == r[i]);
            }
        }
    } else {
        lemma_insert_sorted_membership(s.drop_last(), e);
        let r0 = insert_sorted(s.drop_last(), e);
        assert forall|i: int|
            0 <= i < r.len() implies #[trigger] r[i] == e || s.contains(r[i]) by {
            if i < r0.len() {
                assert(r0[i] == r[i]);
                if r0[i] != e {
                    assert(s.drop_last().contains(r0[i]));
                    let w = choose|w: int|
                        0 <= w < s.drop_last().len() && s.drop_last()[w] == r0[i];
                    assert(s[w] == r[i]);
                }
            } else {
                assert(r[i] == s[s.len() - 1]);
            }
        }
    }
}

/// Every element of the sorted sequence is an element of the input.
pub proof fn lemma_sort_spec_membership(s: Seq<(u32, u8, bool)>)
    ensures
        forall|i: int|
            0 <= i < sort_spec(s).len() ==> s.contains(#[trigger] sort_spec(s)[i]),
        sort_spec(s).len() == s.len(),
    decreases s.len(),
{
    if s.len() > 0 {
        lemma_sort_spec_membership(s.drop_last());
        lemma_insert_sorted_membership(sort_spec(s.drop_last()), s.last());
        let r0 = sort_spec(s.drop_last());
        let r = sort_spec(s);
        assert forall|i: int| 0 <= i < r.len() implies s.contains(#[trigger] r[i]) by {
            assert(r[i] == s.last() || r0.contains(r[i]));
            if r[i] != s.last() {
                let w = choose|w: int| 0 <= w < r0.len() && r0[w] == r[i];
                assert(s.drop_last().contains(r0[w]));
                let w2 = choose|w2: int|
                    0 <= w2 < s.drop_last().len() && s.drop_last()[w2] == r0[w];
                assert(s[w2] == r[i]);
            } else {
                assert(s[s.len() - 1] == r[i]);
            }
        }
    }
}

/// Sort filtered events into ascending time order (the event stream may
/// interleave several tracks, so arbitrary input order is tolerated).
pub fn sort_events(events: &Vec<(u32, u8, bool)>) -> (r: Vec<(u32, u8, bool)>)
    ensures
        r@ == sort_spec(events@),
        events_sorted(r@),
        r@.len() == events@.len(),
        forall|i: int| 0 <= i < r@.len() ==> events@.contains(#[trigger] r@[i]),
{
    let n = events.len();
    let mut out: Vec<(u32, u8, bool)> = Vec::new();
    let mut k: usize = 0;
    while k < n
        invariant
            k <= n,
            n == events@.len(),
            out@ == sort_spec(events@.take(k as int)),
            out@.len() == k,
            events_sorted(out@),
        decreases n - k,
    {
        let e = events[k];
        let mut lo: usize = 0;
        let mut hi: usize = out.len();
        while lo < hi
            invariant
                lo <= hi <= out@.len(),
                events_sorted(out@),
                forall|i: int| 0 <= i < lo ==> (#[trigger] out@[i]).0 <= e.0,
                forall|i: int| hi <= i < out@.len() ==> (#[trigger] out@[i]).0 > e.0,
            decreases hi - lo,
        {
            let mid: usize = lo + (hi - lo) / 2;
            if out[mid].0 <= e.0 {
                proof {
                    assert forall|i: int| 0 <= i < mid + 1 implies (#[trigger] out@[i]).0
                        <= e.0 by {
                        if i < mid {
                            assert(out@[i].0 <= out@[mid as int].0);
                        }
                    }
                }
                lo = mid + 1;
            } else {
                proof {
                    assert forall|i: int| mid <= i < out@.len() implies (#[trigger] out@[i]).0
                        > e.0 by {
                        if i > mid {
                            assert(out@[mid as int].0 <= out@[i].0);
                        }
                    }
                }
                hi = mid;
            }
        }
        let ghost pre = out@;
        out.insert(lo, e);
        proof {
            assert(events@.take(k + 1).drop_last() =~= events@.take(k as int));
            assert(events@.take(k + 1).last() == events@[k as int]);
            lemma_insert_sorted_split(pre, e, lo as int);
            assert(out@ =~= insert_sorted(pre, e));
            assert forall|i: int, j: int|
                0 <= i < j < out@.len() implies (#[trigger] out@[i]).0 <= (
            #[trigger] out@[j]).0 by {
                if j < lo {
                    assert(pre[i].0 <= pre[j].0);
                } else if j == lo {
                    assert(pre[i].0 <= e.0);
                } else {
                    if i < lo {
                        assert(pre[i].0 <= e.0);
                        assert(pre[j - 1].0 > e.0);
                    } else if i == lo {
                        assert(pre[j - 1].0 > e.0);
                    } else {
                        assert(pre[i - 1].0 <= pre[j - 1].0);
                    }
                }
            }
        }
        k = k + 1;
    }
    proof {
        assert(events@.take(n as int) =~= events@);
        lemma_sort_spec_membership(events@);
    }
    out
}

} // verus!

