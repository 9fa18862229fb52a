//! The step-function encoder: compiles one channel's ordered
//! `(time, state)` change history into a bounded list of closed-form
//! step expressions.
//!
//! Each emitted function is a group of terms `delta * (step(t1,x) +
//! step(t2,x) + ...)` — one bucket per distinct delta — plus a closing
//! corrective term that cancels the carried state at the chunk boundary,
//! so every function is independently correct (self-resetting).  The
//! sum of bucket sizes of a function never exceeds the configured cap,
//! and evaluating the sum of all emitted functions reproduces the input
//! state at every sampled time.

use vstd::prelude::*;

verus! {

/// One encoded chunk: term buckets, and the closing corrective term that
/// zeroes the accumulated state from `close_time` on.
pub struct EncodedFunction {
    /// One bucket per distinct delta: the delta and the ascending times
    /// at which it occurred.
    pub terms: Vec<(i64, Vec<u32>)>,
    /// The boundary from which this function contributes nothing.
    pub close_time: u64,
    /// The state accumulated by the buckets, cancelled at the boundary.
    pub carried: i64,
}

/// The buckets of a function, read at the spec level.
pub open spec fn bucket_view(terms: Seq<(i64, Vec<u32>)>) -> Seq<(i64, Seq<u32>)> {
    terms.map_values(|p: (i64, Vec<u32>)| (p.0, p.1@))
}

/// How many of the times lie at or before `x`.
pub open spec fn count_le(times: Seq<u32>, x: int) -> nat
    decreases times.len(),
{
    if times.len() == 0 {
        0
    } else {
        count_le(times.drop_last(), x) + if times.last() <= x {
            1nat
        } else {
            0nat
        }
    }
}

/// The total number of term occurrences (the sum of bucket sizes).
pub open spec fn term_count(ts: Seq<(i64, Seq<u32>)>) -> nat
    decreases ts.len(),
{
    if ts.len() == 0 {
        0
    } else {
        term_count(ts.drop_last()) + ts.last().1.len()
    }
}

/// The state all buckets sum to once every step is active.
pub open spec fn terms_sum(ts: Seq<(i64, Seq<u32>)>) -> int
    decreases ts.len(),
{
    if ts.len() == 0 {
        0
    } else {
        terms_sum(ts.drop_last()) + ts.last().0 * ts.last().1.len()
    }
}

/// The bucket contribution at evaluation point `x`: each step at time
/// `t` adds its delta from `t` on.
pub open spec fn terms_eval(ts: Seq<(i64, Seq<u32>)>, x: int) -> int
    decreases ts.len(),
{
    if ts.len() == 0 {
        0
    } else {
        terms_eval(ts.drop_last(), x) + ts.last().0 * count_le(ts.last().1, x)
    }
}

/// A well-formed chunk: the closing term cancels exactly what the
/// buckets accumulate, every step lies before the boundary, and no
/// bucket has a zero delta or is empty.
pub open spec fn func_wf(f: EncodedFunction) -> bool {
    &&& terms_sum(bucket_view(f.terms@)) == f.carried as int
    &&& 0 <= f.carried <= u32::MAX
    &&& forall|k: int, j: int|
        0 <= k < f.terms@.len() && 0 <= j < f.terms@[k].1@.len() ==> (
        #[trigger] f.terms@[k].1@[j]) < f.close_time
    &&& forall|k: int| 0 <= k < f.terms@.len() ==> (#[trigger] f.terms@[k]).0 != 0
    &&& forall|k: int|
        0 <= k < f.terms@.len() ==> -(u32::MAX as int) <= (#[trigger] f.terms@[k]).0
            <= u32::MAX as int
    &&& forall|k: int| 0 <= k < f.terms@.len() ==> (#[trigger] f.terms@[k]).1@.len() > 0
}

/// The value one encoded function contributes at `x`.
pub open spec fn func_eval(f: EncodedFunction, x: int) -> int {
    terms_eval(bucket_view(f.terms@), x) - if x >= f.close_time {
        f.carried as int
    } else {
        0
    }
}

/// The value of the whole emitted list at `x`, read as a piecewise
/// accumulator.
pub open spec fn funcs_eval(fs: Seq<EncodedFunction>, x: int) -> int
    decreases fs.len(),
{
    if fs.len() == 0 {
        0
    } else {
        funcs_eval(fs.drop_last(), x) + func_eval(fs.last(), x)
    }
}

/// When every time in a bucket list lies at or before `x`, the
/// evaluation equals the full accumulated sum.
pub proof fn lemma_terms_eval_all_le(ts: Seq<(i64, Seq<u32>)>, x: int)
    requires
        forall|k: int, j: int|
            0 <= k < ts.len() && 0 <= j < ts[k].1.len() ==> (#[trigger] ts[k].1[j]) <= x,
    ensures
        terms_eval(ts, x) == terms_sum(ts),
    decreases ts.len(),
{
    if ts.len() > 0 {
        assert forall|k: int, j: int|
            0 <= k < ts.drop_last().len() && 0 <= j < ts.drop_last()[k].1.len() implies (
        #[trigger] ts.drop_last()[k].1[j]) <= x by {
            assert(ts[k].1[j] <= x);
        }
        lemma_terms_eval_all_le(ts.drop_last(), x);
        lemma_count_le_all(ts.last().1, x);
    }
}

/// Counting times at or before `x` counts everything when all times lie
/// at or before `x`.
pub proof fn lemma_count_le_all(times: Seq<u32>, x: int)
    requires
        forall|j: int| 0 <= j < times.len() ==> (#[trigger] times[j]) <= x,
    ensures
        count_le(times, x) == times.len(),
    decreases times.len(),
{
    if times.len() > 0 {
        lemma_count_le_all(times.drop_last(), x);
    }
}

/// A well-formed chunk contributes nothing at or beyond its boundary:
/// the closing corrective term makes each emitted function
/// self-resetting.
pub proof fn lemma_func_resets(f: EncodedFunction, x: int)
    requires
        func_wf(f),
        x >= f.close_time,
    ensures
        func_eval(f, x) == 0,
{
    let ts = bucket_view(f.terms@);
    assert forall|k: int, j: int|
        0 <= k < ts.len() && 0 <= j < ts[k].1.len() implies (#[trigger] ts[k].1[j]) <= x by {
        assert(f.terms@[k].1@[j] < f.close_time);
    }
    lemma_terms_eval_all_le(ts, x);
}

/// Appending time `t` to bucket `idx` raises the evaluation at every
/// point from `t` on by that bucket's delta, and the totals accordingly.
proof fn lemma_bucket_append(ts: Seq<(i64, Seq<u32>)>, idx: int, t: u32, x: int)
    requires
        0 <= idx < ts.len(),
    ensures
        terms_eval(ts.update(idx, (ts[idx].0, ts[idx].1.push(t))), x) == terms_eval(ts, x) + (
        if t <= x {
            ts[idx].0
        } else {
            0
        }),
        terms_sum(ts.update(idx, (ts[idx].0, ts[idx].1.push(t)))) == terms_sum(ts) + ts[idx].0,
        term_count(ts.update(idx, (ts[idx].0, ts[idx].1.push(t)))) == term_count(ts) + 1,
    decreases ts.len(),
{
    let r = ts.update(idx, (ts[idx].0, ts[idx].1.push(t)));
    if idx == ts.len() - 1 {
        assert(r.drop_last() =~= ts.drop_last());
        assert(r.last() == (ts[idx].0, ts[idx].1.push(t)));
        assert(ts[idx].1.push(t).drop_last() =~= ts[idx].1);
        assert(ts[idx].1.push(t).last() == t);
        let a = ts[idx].0 as int;
        let cl = count_le(ts[idx].1, x) as int;
        let ln = ts[idx].1.len() as int;
        assert(a * (cl + 1) == a * cl + a) by (nonlinear_arith);
        assert(a * (ln + 1) == a * ln + a) by (nonlinear_arith);
        assert(count_le(ts[idx].1.push(t), x) == cl + if t <= x { 1int } else { 0int });
    } else {
        lemma_bucket_append(ts.drop_last(), idx, t, x);
        assert(r.drop_last() =~= ts.drop_last().update(idx, (ts[idx].0, ts[idx].1.push(t))));
        assert(r.last() == ts.last());
    }
}

/// Appending a fresh one-time bucket raises the evaluation at every
/// point from `t` on by its delta.
proof fn lemma_bucket_new(ts: Seq<(i64, Seq<u32>)>, delta: i64, times: Seq<u32>, t: u32, x: int)
    requires
        times.len() == 1,
        times[0] == t,
    ensures
        terms_eval(ts.push((delta, times)), x) == terms_eval(ts, x) + (if t <= x {
            delta as int
        } else {
            0
        }),
        terms_sum(ts.push((delta, times))) == terms_sum(ts) + delta,
        term_count(ts.push((delta, times))) == term_count(ts) + 1,
{
    let r = ts.push((delta, times));
    assert(r.drop_last() =~= ts);
    assert(times.drop_last() =~= Seq::<u32>::empty());
    assert(times.last() == t);
    assert(count_le(times.drop_last(), x) == 0);
    assert(count_le(times, x) == if t <= x { 1nat } else { 0nat });
    let a = delta as int;
    assert(a * 1 == a) by (nonlinear_arith);
    assert(a * 0 == 0) by (nonlinear_arith);
}

/// Borrow one bucket mutably.
fn bucket_mut(terms: &mut Vec<(i64, Vec<u32>)>, i: usize) -> (r: &mut (i64, Vec<u32>))
    requires
        i < old(terms)@.len(),
    ensures
        *r == old(terms)@[i as int],
        final(terms)@ == old(terms)@.update(i as int, *final(r)),
{
    &mut terms[i]
}

/// The encoder's chunking state after the first `k` samples: chunks
/// already closed, the term count of the open chunk, and the state the
/// open chunk carries.
pub open spec fn enc_state(samples: Seq<(u32, u32)>, max: int, k: int) -> (nat, nat, int)
    decreases
            (if k > 0 {
                k
            } else {
                0
            }),
{
    if k <= 0 {
        (0nat, 0nat, 0int)
    } else {
        let prev = enc_state(samples, max, k - 1);
        let st = samples[k - 1].1 as int;
        if st - prev.2 != 0 && prev.1 >= max {
            if st != 0 {
                ((prev.0 + 1) as nat, 1nat, st)
            } else {
                ((prev.0 + 1) as nat, 0nat, st)
            }
        } else {
            if st - prev.2 != 0 {
                (prev.0, (prev.1 + 1) as nat, st)
            } else {
                (prev.0, prev.1, st)
            }
        }
    }
}

/// How many functions the encoder emits for the given samples and cap:
/// the closed chunks, plus one for an open chunk with terms left.
pub open spec fn chunk_count(samples: Seq<(u32, u32)>, max: int) -> nat {
    let fin = enc_state(samples, max, samples.len() as int);
    (fin.0 + if fin.1 > 0 {
        1nat
    } else {
        0nat
    }) as nat
}

/// The step-function encoder configuration.
pub struct StepFunctionEncoder {
    /// The cap on the sum of bucket sizes of one emitted function.
    pub max_terms_per_function: usize,
}

impl StepFunctionEncoder {
    /// Create an encoder with the given per-function term cap.
    pub fn new(max_terms_per_function: usize) -> (r: Self)
        requires
            max_terms_per_function >= 1,
        ensures
            r.max_terms_per_function == max_terms_per_function,
    {
        StepFunctionEncoder { max_terms_per_function }
    }

    /// Encode one channel's ordered change history.  Every emitted
    /// function keeps its term count within the cap and is well formed
    /// (self-resetting), and the sum of all emitted functions evaluates
    /// to the sampled state at every sampled time; an empty input
    /// produces no functions.
    pub fn encode(&self, samples: &Vec<(u32, u32)>) -> (r: Vec<EncodedFunction>)
        requires
            self.max_terms_per_function >= 1,
            forall|i: int, j: int|
                0 <= i < j < samples@.len() ==> (#[trigger] samples@[i]).0 < (
                #[trigger] samples@[j]).0,
        ensures
            forall|k: int|
                0 <= k < r@.len() ==> term_count(bucket_view((#[trigger] r@[k]).terms@))
                    <= self.max_terms_per_function,
            forall|k: int| 0 <= k < r@.len() ==> func_wf(#[trigger] r@[k]),
            forall|i: int|
                0 <= i < samples@.len() ==> funcs_eval(r@, (#[trigger] samples@[i]).0 as int)
                    == samples@[i].1 as int,
            r@.len() <= samples@.len(),
            r@.len() == chunk_count(samples@, self.max_terms_per_function as int),
            forall|k: int, x: int|
                0 <= k < r@.len() && x >= r@[k].close_time ==> #[trigger] func_eval(r@[k], x)
                    == 0,
            samples@.len() == 0 ==> r@.len() == 0,
    {
        let max = self.max_terms_per_function;
        let n = samples.len();
        let mut funcs: Vec<EncodedFunction> = Vec::new();
        let mut terms: Vec<(i64, Vec<u32>)> = Vec::new();
        let mut count: usize = 0;
        let mut last_state: i64 = 0;
        let mut i: usize = 0;
        let ghost mut emitted: int = 0;
        while i < n
            invariant
                i <= n,
                funcs@.len() <= emitted,
                emitted + count <= i,
                funcs@.len() == enc_state(samples@, max as int, i as int).0,
                count == enc_state(samples@, max as int, i as int).1,
                last_state as int == enc_state(samples@, max as int, i as int).2,
                n == samples@.len(),
                max == self.max_terms_per_function,
                max >= 1,
                forall|a: int, b: int|
                    0 <= a < b < samples@.len() ==> (#[trigger] samples@[a]).0 < (
                    #[trigger] samples@[b]).0,
                count == term_count(bucket_view(terms@)),
                count <= max,
                terms_sum(bucket_view(terms@)) == last_state as int,
                0 <= last_state <= u32::MAX,
                i > 0 ==> last_state == samples@[i - 1].1 as int,
                i == 0 ==> last_state == 0 && terms@.len() == 0 && funcs@.len() == 0,
                forall|k: int, j: int|
                    0 <= k < terms@.len() && 0 <= j < (#[trigger] terms@[k]).1@.len() ==> i > 0
                        && (#[trigger] terms@[k].1@[j]) <= samples@[i - 1].0,
                forall|k: int| 0 <= k < terms@.len() ==> (#[trigger] terms@[k]).0 != 0,
                forall|k: int|
                    0 <= k < terms@.len() ==> -(u32::MAX as int) <= (#[trigger] terms@[k]).0
                        <= u32::MAX as int,
                forall|k: int| 0 <= k < terms@.len() ==> (#[trigger] terms@[k]).1@.len() > 0,
                forall|k: int|
                    0 <= k < funcs@.len() ==> term_count(
                        bucket_view((#[trigger] funcs@[k]).terms@),
                    ) <= max,
                forall|k: int| 0 <= k < funcs@.len() ==> func_wf(#[trigger] funcs@[k]),
                forall|k: int|
                    0 <= k < funcs@.len() ==> i > 0 && (#[trigger] funcs@[k]).close_time
                        <= samples@[i - 1].0,
                forall|j: int|
                    0 <= j < i ==> funcs_eval(funcs@, (#[trigger] samples@[j]).0 as int)
                        + terms_eval(bucket_view(terms@), samples@[j].0 as int) == samples@[j].1,
            decreases n - i,
        {
            let (t, state) = samples[i];
            let ghost pre_funcs = funcs@;
            let ghost pre_terms = bucket_view(terms@);
            let mut delta: i64 = state as i64 - last_state;
            if delta != 0 && count >= max {
                let f = EncodedFunction { terms, close_time: t as u64, carried: last_state };
                funcs.push(f);
                proof {
                    emitted = emitted + count;
                }
                terms = Vec::new();
                count = 0;
                last_state = 0;
                delta = state as i64;
                proof {
                    assert(funcs@ == pre_funcs.push(f));
                    assert(funcs@.drop_last() =~= pre_funcs);
                    assert(bucket_view(terms@) =~= Seq::<(i64, Seq<u32>)>::empty());
                    assert(func_wf(f));
                    assert forall|j: int|
                        0 <= j < i implies funcs_eval(funcs@, (#[trigger] samples@[j]).0 as int)
                        + terms_eval(bucket_view(terms@), samples@[j].0 as int)
                        == samples@[j].1 by {
                        let x = samples@[j].0 as int;
                        assert(samples@[j].0 < samples@[i as int].0);
                        assert(func_eval(f, x) == terms_eval(pre_terms, x));
                    }
                }
            }
            let ghost funcs_mid = funcs@;
            let ghost terms_mid = bucket_view(terms@);
            let ghost last_mid = last_state as int;
            proof {
                assert forall|k: int|
                    0 <= k < funcs@.len() implies func_eval(#[trigger] funcs@[k], t as int)
                    == 0 by {
                    lemma_func_resets(funcs@[k], t as int);
                }
                lemma_funcs_eval_all_reset(funcs@, t as int);
                assert forall|k: int, j: int|
                    0 <= k < terms_mid.len() && 0 <= j < terms_mid[k].1.len() implies (
                #[trigger] terms_mid[k].1[j]) <= t as int by {
                    assert(terms@[k].1@[j] <= t);
                }
                lemma_terms_eval_all_le(terms_mid, t as int);
                assert(delta as int == state as int - last_mid);
            }
            if delta != 0 {
                let mut idx: usize = 0;
                let tn = terms.len();
                let mut found = false;
                while idx < tn && !found
                    invariant
                        idx <= tn,
                        tn == terms@.len(),
                        found ==> idx < tn && terms@[idx as int].0 == delta,
                        !found ==> forall|k: int| 0 <= k < idx ==> (#[trigger] terms@[k]).0
                            != delta,
                    decreases tn - idx + (if found {
                        0int
                    } else {
                        1int
                    }),
                {
                    if terms[idx].0 == delta {
                        found = true;
                    } else {
                        idx = idx + 1;
                    }
                }
                if found {
                    let b = bucket_mut(&mut terms, idx);
                    b.1.push(t);
                    proof {
                        assert(bucket_view(terms@) =~= terms_mid.update(
                            idx as int,
                            (terms_mid[idx as int].0, terms_mid[idx as int].1.push(t)),
                        ));
                        lemma_bucket_append_all(terms_mid, idx as int, t);
                        assert(terms_mid[idx as int].0 == delta);
                    }
                } else {
                    let mut times: Vec<u32> = Vec::new();
                    times.push(t);
                    terms.push((delta, times));
                    proof {
                        assert(bucket_view(terms@) =~= terms_mid.push((delta, times@)));
                        lemma_bucket_new_all(terms_mid, delta, times@, t);
                    }
                }
                count = count + 1;
            }
            last_state = state as i64;
            proof {
                let after = bucket_view(terms@);
                assert forall|x: int|
                    #[trigger] terms_eval(after, x) == terms_eval(terms_mid, x) + (if delta != 0
                        && t <= x {
                        delta as int
                    } else {
                        0
                    }) by {
                    if delta != 0 {
                        assert(terms_eval(after, x) == terms_eval(terms_mid, x) + (if t <= x {
                            delta as int
                        } else {
                            0
                        }));
                    }
                }
                assert(terms_eval(after, t as int) == last_mid + (if delta != 0 {
                    delta as int
                } else {
                    0
                }));
                assert(terms_eval(after, t as int) == state as int);
                assert(terms_sum(after) == last_mid + (if delta != 0 {
                    delta as int
                } else {
                    0
                }));
                assert forall|j: int|
                    0 <= j < i + 1 implies funcs_eval(funcs@, (#[trigger] samples@[j]).0 as int)
                    + terms_eval(bucket_view(terms@), samples@[j].0 as int) == samples@[j].1 by {
                    let x = samples@[j].0 as int;
                    if j < i {
                        assert(samples@[j].0 < samples@[i as int].0);
                        assert(terms_eval(after, x) == terms_eval(terms_mid, x));
                        assert(funcs_eval(funcs_mid, x) + terms_eval(terms_mid, x)
                            == samples@[j].1);
                    } else {
                        assert(funcs_eval(funcs@, t as int) == 0);
                    }
                }
            }
            proof {
                let cur = enc_state(samples@, max as int, i + 1);
                assert(samples@[i as int] == (t, state));
                assert(funcs@.len() == cur.0 && count == cur.1 && last_state as int == cur.2);
            }
            i = i + 1;
        }
        if count > 0 {
            proof {
                assert(n > 0);
                assert(funcs@.len() + 1 <= emitted + count <= n);
            }
            let boundary: u64 = samples[n - 1].0 as u64 + 1;
            let f = EncodedFunction { terms, close_time: boundary, carried: last_state };
            let ghost pre_funcs = funcs@;
            let ghost pre_terms = bucket_view(f.terms@);
            funcs.push(f);
            proof {
                assert(funcs@.drop_last() =~= pre_funcs);
                assert(func_wf(f));
                assert forall|j: int|
                    0 <= j < n implies funcs_eval(funcs@, (#[trigger] samples@[j]).0 as int)
                    == samples@[j].1 by {
                    let x = samples@[j].0 as int;
                    assert(samples@[j].0 <= samples@[n - 1].0);
                    assert(func_eval(f, x) == terms_eval(pre_terms, x));
                }
            }
        }
        proof {
            assert forall|k: int, x: int|
                0 <= k < funcs@.len() && x >= funcs@[k].close_time implies #[trigger] func_eval(
                funcs@[k],
                x,
            ) == 0 by {
                lemma_func_resets(funcs@[k], x);
            }
        }
        funcs
    }
}

/// A list of self-resetting functions whose boundaries all lie at or
/// before `x` evaluates to zero at `x`.
proof fn lemma_funcs_eval_all_reset(fs: Seq<EncodedFunction>, x: int)
    requires
        forall|k: int| 0 <= k < fs.len() ==> func_eval(#[trigger] fs[k], x) == 0,
    ensures
        funcs_eval(fs, x) == 0,
    decreases fs.len(),
{
    if fs.len() > 0 {
        assert forall|k: int|
            0 <= k < fs.drop_last().len() implies func_eval(#[trigger] fs.drop_last()[k], x)
            == 0 by {
            assert(fs[k] == fs.drop_last()[k]);
        }
        lemma_funcs_eval_all_reset(fs.drop_last(), x);
    }
}

/// `lemma_bucket_append` at every evaluation point.
proof fn lemma_bucket_append_all(ts: Seq<(i64, Seq<u32>)>, idx: int, t: u32)
    requires
        0 <= idx < ts.len(),
    ensures
        forall|x: int|
            terms_eval(ts.update(idx, (ts[idx].0, ts[idx].1.push(t))), x) == #[trigger] terms_eval(
                ts,
                x,
            ) + (if t <= x {
                ts[idx].0
            } else {
                0
            }),
        terms_sum(ts.update(idx, (ts[idx].0, ts[idx].1.push(t)))) == terms_sum(ts) + ts[idx].0,
        term_count(ts.update(idx, (ts[idx].0, ts[idx].1.push(t)))) == term_count(ts) + 1,
{
    assert forall|x: int|
        terms_eval(ts.update(idx, (ts[idx].0, ts[idx].1.push(t))), x) == #[trigger] terms_eval(
            ts,
            x,
        ) + (if t <= x {
            ts[idx].0
        } else {
            0
        }) by {
        lemma_bucket_append(ts, idx, t, x);
    }
    lemma_bucket_append(ts, idx, t, 0);
}

/// `lemma_bucket_new` at every evaluation point.
proof fn lemma_bucket_new_all(ts: Seq<(i64, Seq<u32>)>, delta: i64, times: Seq<u32>, t: u32)
    requires
        times.len() == 1,
        times[0] == t,
    ensures
        forall|x: int|
            terms_eval(ts.push((delta, times)), x) == #[trigger] terms_eval(ts, x) + (if t <= x {
                delta as int
            } else {
                0
            }),
        terms_sum(ts.push((delta, times))) == terms_sum(ts) + delta,
        term_count(ts.push((delta, times))) == term_count(ts) + 1,
{
    assert forall|x: int|
        terms_eval(ts.push((delta, times)), x) == #[trigger] terms_eval(ts, x) + (if t <= x {
            delta as int
        } else {
            0
        }) by {
        lemma_bucket_new(ts, delta, times, t, x);
    }
    lemma_bucket_new(ts, delta, times, t, 0);
}


/// Encode one channel's ordered change history and render each chunk as
/// an expression string.  The result is the rendering of an encoding
/// whose functions are all well formed, keep their term count within the
/// cap, and together evaluate back to the sampled state at every sampled
/// time.
pub fn data_to_functions(data_changes: &Vec<(u32, u32)>, max_events_per_func: usize) -> (r: Vec<
    String,
>)
    requires
        max_events_per_func >= 1,
        forall|i: int, j: int|
            0 <= i < j < data_changes@.len() ==> (#[trigger] data_changes@[i]).0 < (
            #[trigger] data_changes@[j]).0,
    ensures
        exists|fs: Seq<EncodedFunction>|
            {
                &&& #[trigger] fs.len() == r@.len()
                &&& forall|k: int|
                    0 <= k < fs.len() ==> term_count(bucket_view((#[trigger] fs[k]).terms@))
                        <= max_events_per_func
                &&& forall|k: int| 0 <= k < fs.len() ==> func_wf(#[trigger] fs[k])
                &&& forall|i: int|
                    0 <= i < data_changes@.len() ==> funcs_eval(
                        fs,
                        (#[trigger] data_changes@[i]).0 as int,
                    ) == data_changes@[i].1 as int
                &&& forall|k: int|
                    0 <= k < fs.len() ==> (#[trigger] r@[k])@ == crate::render::func_str(fs[k])
            },
        r@.len() <= data_changes@.len(),
        r@.len() == chunk_count(data_changes@, max_events_per_func as int),
        data_changes@.len() == 0 ==> r@.len() == 0,
{
    let encoder = StepFunctionEncoder::new(max_events_per_func);
    let funcs = encoder.encode(data_changes);
    let n = funcs.len();
    let mut out: Vec<String> = Vec::new();
    let mut k: usize = 0;
    while k < n
        invariant
            k <= n,
            n == funcs@.len(),
            out@.len() == k,
            forall|j: int| 0 <= j < funcs@.len() ==> func_wf(#[trigger] funcs@[j]),
            forall|j: int|
                0 <= j < k ==> (#[trigger] out@[j])@ == crate::render::func_str(funcs@[j]),
        decreases n - k,
    {
        let rendered = crate::render::render_function(&funcs[k]);
        out.push(rendered);
        k = k + 1;
    }
    proof {
        let fs = funcs@;
        assert(fs.len() == out@.len());
    }
    out
}

} // verus!

