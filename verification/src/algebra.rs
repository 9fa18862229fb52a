//! Whole-timeline boolean algebra over per-channel timelines.
//!
//! Two timelines of the same value type are combined pointwise under
//! zero-order-hold semantics: for every time key present in either
//! operand, the held values of both sides are combined bitwise, and an
//! entry is written only when the result differs from the type default,
//! keeping the result minimal.  Complement works on the explicit keys of
//! its operand alone and synthesizes no new keys.  The in-place
//! variants produce exactly the same timeline as the pure ones and so
//! also prune stale entries.

use vstd::prelude::*;

verus! {

use crate::sequence::{floor_entry, floor_val, keys_sorted, lemma_sorted_prefix, Sequence};
use crate::value::BitwiseValue;

/// The pointwise connective to combine two timelines with.
#[derive(Clone, Copy, Debug, PartialEq, Eq, Structural)]
pub enum BitOp {
    /// Bitwise conjunction.
    And,
    /// Bitwise disjunction.
    Or,
    /// Bitwise exclusive disjunction.
    Xor,
}

/// Apply the connective to two held values.
pub open spec fn apply_op<T: BitwiseValue>(op: BitOp, x: T, y: T) -> T {
    match op {
        BitOp::And => x.and_spec(y),
        BitOp::Or => x.or_spec(y),
        BitOp::Xor => x.xor_spec(y),
    }
}

/// The combined timeline: one candidate entry per key of either
/// operand, valued at the connective of the held values of both sides
/// there, written only when it differs from the default `d`.
pub open spec fn combine_seq<T: BitwiseValue>(
    a: Seq<(usize, T)>,
    b: Seq<(usize, T)>,
    op: BitOp,
    d: T,
) -> Seq<(usize, T)>
    decreases a.len() + b.len(),
{
    if a.len() == 0 && b.len() == 0 {
        Seq::empty()
    } else if b.len() == 0 || (a.len() > 0 && a.last().0 > b.last().0) {
        let k = a.last().0;
        let v = apply_op(op, a.last().1, floor_val(b, k, d));
        let rest = combine_seq(a.drop_last(), b, op, d);
        if v == d {
            rest
        } else {
            rest.push((k, v))
        }
    } else if a.len() == 0 || b.last().0 > a.last().0 {
        let k = b.last().0;
        let v = apply_op(op, floor_val(a, k, d), b.last().1);
        let rest = combine_seq(a, b.drop_last(), op, d);
        if v == d {
            rest
        } else {
            rest.push((k, v))
        }
    } else {
        let k = a.last().0;
        let v = apply_op(op, a.last().1, b.last().1);
        let rest = combine_seq(a.drop_last(), b.drop_last(), op, d);
        if v == d {
            rest
        } else {
            rest.push((k, v))
        }
    }
}

/// The complement timeline: every explicit entry complemented in place;
/// no key is synthesized or dropped.
pub open spec fn complement_seq<T: BitwiseValue>(s: Seq<(usize, T)>) -> Seq<(usize, T)> {
    s.map_values(|p: (usize, T)| (p.0, p.1.not_spec()))
}

/// No explicit entry carries the default value.
pub open spec fn no_default_entries<T>(s: Seq<(usize, T)>, d: T) -> bool {
    forall|i: int| 0 <= i < s.len() ==> (#[trigger] s[i]).1 != d
}

impl<T: BitwiseValue> Sequence<T> {
    /// Combine two timelines pointwise under the given connective.
    pub fn combine(&self, other: &Sequence<T>, op: BitOp) -> (r: Sequence<T>)
        requires
            keys_sorted(self@),
            keys_sorted(other@),
        ensures
            keys_sorted(r@),
            r@ == combine_seq(self@, other@, op, T::default_spec()),
            no_default_entries(r@, T::default_spec()),
    {
        let ghost d = T::default_spec();
        let a = self.iter();
        let b = other.iter();
        let na = a.len();
        let nb = b.len();
        let mut out: Sequence<T> = Sequence::new();
        let mut last_a: T = T::default_value();
        let mut last_b: T = T::default_value();
        let mut i: usize = 0;
        let mut j: usize = 0;
        proof {
            assert(self@.take(0) =~= Seq::<(usize, T)>::empty());
            assert(other@.take(0) =~= Seq::<(usize, T)>::empty());
        }
        while i < na || j < nb
            invariant
                i <= na,
                j <= nb,
                na == self@.len(),
                nb == other@.len(),
                a@ == self@,
                b@ == other@,
                keys_sorted(self@),
                keys_sorted(other@),
                keys_sorted(out@),
                d == T::default_spec(),
                last_a == crate::sequence::last_val(self@.take(i as int), d),
                last_b == crate::sequence::last_val(other@.take(j as int), d),
                out@ == combine_seq(self@.take(i as int), other@.take(j as int), op, d),
                no_default_entries(out@, d),
                i < na && j > 0 ==> other@[j - 1].0 < self@[i as int].0,
                j < nb && i > 0 ==> self@[i - 1].0 < other@[j as int].0,
                out@.len() > 0 && i < na ==> out@.last().0 < self@[i as int].0,
                out@.len() > 0 && j < nb ==> out@.last().0 < other@[j as int].0,
            decreases (na - i) + (nb - j),
        {
            let take_a = j >= nb || (i < na && a[i].0 < b[j].0);
            let take_both = i < na && j < nb && a[i].0 == b[j].0;
            let ghost pa = self@.take(i as int);
            let ghost pb = other@.take(j as int);
            if take_both {
                let (k, va) = a[i];
                let vb = b[j].1;
                let v = match op {
                    BitOp::And => va.and_value(vb),
                    BitOp::Or => va.or_value(vb),
                    BitOp::Xor => va.xor_value(vb),
                };
                proof {
                    assert(self@.take(i + 1).drop_last() =~= pa);
                    assert(self@.take(i + 1).last() == self@[i as int]);
                    assert(other@.take(j + 1).drop_last() =~= pb);
                    assert(other@.take(j + 1).last() == other@[j as int]);
                }
                if !v.eq_value(T::default_value()) {
                    out.push_back(k, v);
                }
                proof {
                    let a1 = self@.take(i + 1);
                    let b1 = other@.take(j + 1);
                    assert(a1.last().0 == b1.last().0);
                    assert(a1.last().1 == va && b1.last().1 == vb && a1.last().0 == k);
                    assert(v == apply_op(op, va, vb));
                    assert(combine_seq(a1, b1, op, d) == (if apply_op(op, a1.last().1, b1.last().1)
                        == d {
                        combine_seq(pa, pb, op, d)
                    } else {
                        combine_seq(pa, pb, op, d).push((k, apply_op(op, a1.last().1, b1.last().1)))
                    }));
                    assert(out@ == combine_seq(a1, b1, op, d));
                }
                last_a = va;
                last_b = vb;
                i = i + 1;
                j = j + 1;
            } else if take_a {
                let (k, va) = a[i];
                proof {
                    assert(self@.take(i + 1).drop_last() =~= pa);
                    assert(self@.take(i + 1).last() == self@[i as int]);
                    if pb.len() > 0 {
                        assert(pb.last().0 == other@[j - 1].0);
                        assert(pb.last().0 <= k);
                    }
                    assert(floor_val(pb, k, d) == last_b);
                }
                let v = match op {
                    BitOp::And => va.and_value(last_b),
                    BitOp::Or => va.or_value(last_b),
                    BitOp::Xor => va.xor_value(last_b),
                };
                if !v.eq_value(T::default_value()) {
                    out.push_back(k, v);
                }
                proof {
                    let a1 = self@.take(i + 1);
                    assert(pb.len() == 0 || a1.last().0 > pb.last().0);
                    assert(a1.last().1 == va && a1.last().0 == k);
                    assert(v == apply_op(op, va, last_b));
                    assert(combine_seq(a1, pb, op, d) == (if apply_op(
                        op,
                        a1.last().1,
                        floor_val(pb, k, d),
                    ) == d {
                        combine_seq(pa, pb, op, d)
                    } else {
                        combine_seq(pa, pb, op, d).push(
                            (k, apply_op(op, a1.last().1, floor_val(pb, k, d))),
                        )
                    }));
                    assert(out@ == combine_seq(a1, pb, op, d));
                }
                last_a = va;
                i = i + 1;
            } else {
                let (k, vb) = b[j];
                proof {
                    assert(other@.take(j + 1).drop_last() =~= pb);
                    assert(other@.take(j + 1).last() == other@[j as int]);
                    if pa.len() > 0 {
                        assert(pa.last().0 == self@[i - 1].0);
                        assert(pa.last().0 <= k);
                    }
                    assert(floor_val(pa, k, d) == last_a);
                }
                let v = match op {
                    BitOp::And => last_a.and_value(vb),
                    BitOp::Or => last_a.or_value(vb),
                    BitOp::Xor => last_a.xor_value(vb),
                };
                if !v.eq_value(T::default_value()) {
                    out.push_back(k, v);
                }
                proof {
                    let b1 = other@.take(j + 1);
                    assert(pa.len() == 0 || b1.last().0 > pa.last().0);
                    assert(b1.last().1 == vb && b1.last().0 == k);
                    assert(v == apply_op(op, last_a, vb));
                    assert(b1.len() == 0 || (pa.len() > 0 && pa.last().0 > b1.last().0) == false);
                    assert(combine_seq(pa, b1, op, d) == (if apply_op(
                        op,
                        floor_val(pa, k, d),
                        b1.last().1,
                    ) == d {
                        combine_seq(pa, pb, op, d)
                    } else {
                        combine_seq(pa, pb, op, d).push(
                            (k, apply_op(op, floor_val(pa, k, d), b1.last().1)),
                        )
                    }));
                    assert(out@ == combine_seq(pa, b1, op, d));
                }
                last_b = vb;
                j = j + 1;
            }
        }
        proof {
            assert(self@.take(na as int) =~= self@);
            assert(other@.take(nb as int) =~= other@);
        }
        out
    }

    /// The bitwise complement of this timeline at its explicit keys.
    pub fn complement(&self) -> (r: Sequence<T>)
        requires
            keys_sorted(self@),
        ensures
            keys_sorted(r@),
            r@ == complement_seq(self@),
    {
        let entries = self.iter();
        let n = entries.len();
        let mut out: Sequence<T> = Sequence::new();
        let mut k: usize = 0;
        while k < n
            invariant
                k <= n,
                n == self@.len(),
                entries@ == self@,
                keys_sorted(self@),
                keys_sorted(out@),
                out@ =~= complement_seq(self@.take(k as int)),
                out@.len() == k,
            decreases n - k,
        {
            let (t, v) = entries[k];
            proof {
                if k > 0 {
                    assert(out@.last().0 == self@[k - 1].0);
                    assert(self@[k - 1].0 < self@[k as int].0);
                }
            }
            out.push_back(t, v.not_value());
            proof {
                assert(out@ =~= complement_seq(self@.take(k + 1)));
            }
            k = k + 1;
        }
        proof {
            assert(self@.take(n as int) =~= self@);
        }
        out
    }

    /// Combine in place: the same result as `combine`, so entries whose
    /// combined value equals the default are pruned rather than left
    /// stale.
    pub fn combine_assign(&mut self, other: &Sequence<T>, op: BitOp)
        requires
            keys_sorted(old(self)@),
            keys_sorted(other@),
        ensures
            keys_sorted(final(self)@),
            final(self)@ == combine_seq(old(self)@, other@, op, T::default_spec()),
            no_default_entries(final(self)@, T::default_spec()),
    {
        let r = self.combine(other, op);
        *self = r;
    }
}

/// Combining with the empty timeline under OR returns the left operand
/// exactly, provided it holds no explicit default entries.  (A timeline
/// with an explicit default entry loses that entry to the omission
/// rule, which is why the law excludes such inputs.)
pub proof fn lemma_or_empty_identity<T: BitwiseValue>(a: Seq<(usize, T)>)
    requires
        keys_sorted(a),
        no_default_entries(a, T::default_spec()),
    ensures
        combine_seq(a, Seq::<(usize, T)>::empty(), BitOp::Or, T::default_spec()) == a,
    decreases a.len(),
{
    let d = T::default_spec();
    T::lemma_default_laws();
    if a.len() > 0 {
        crate::sequence::lemma_sorted_prefix(a);
        assert forall|i: int|
            0 <= i < a.drop_last().len() implies (#[trigger] a.drop_last()[i]).1 != d by {
            assert(a[i].1 != d);
        }
        lemma_or_empty_identity::<T>(a.drop_last());
        assert(floor_val(Seq::<(usize, T)>::empty(), a.last().0, d) == d);
        assert(a.last().1.or_spec(d) == a.last().1);
        assert(combine_seq(a, Seq::<(usize, T)>::empty(), BitOp::Or, d) =~= a);
    }
}

/// Conjoining a timeline with itself returns it exactly, provided it
/// holds no explicit default entries.
pub proof fn lemma_and_self_identity<T: BitwiseValue>(a: Seq<(usize, T)>)
    requires
        keys_sorted(a),
        no_default_entries(a, T::default_spec()),
    ensures
        combine_seq(a, a, BitOp::And, T::default_spec()) == a,
    decreases a.len(),
{
    let d = T::default_spec();
    T::lemma_default_laws();
    if a.len() > 0 {
        crate::sequence::lemma_sorted_prefix(a);
        assert forall|i: int|
            0 <= i < a.drop_last().len() implies (#[trigger] a.drop_last()[i]).1 != d by {
            assert(a[i].1 != d);
        }
        lemma_and_self_identity::<T>(a.drop_last());
        assert(a.last().1.and_spec(a.last().1) == a.last().1);
        assert(combine_seq(a, a, BitOp::And, d) =~= a);
    }
}

/// The exclusive disjunction of a timeline with itself has no entries
/// at all: every candidate value equals the default and is omitted.
pub proof fn lemma_xor_self_empty<T: BitwiseValue>(a: Seq<(usize, T)>)
    ensures
        combine_seq(a, a, BitOp::Xor, T::default_spec()) == Seq::<(usize, T)>::empty(),
    decreases a.len(),
{
    let d = T::default_spec();
    T::lemma_default_laws();
    if a.len() > 0 {
        lemma_xor_self_empty::<T>(a.drop_last());
        assert(a.last().1.xor_spec(a.last().1) == d);
    }
}


/// Zero-order-hold correctness of disjunction: at every time, the held
/// value of the combined timeline is the disjunction of the held values
/// of the operands.  (The operands must hold no explicit default
/// entries; with such an entry the omission rule could drop a
/// transition back to the default.)
pub proof fn lemma_or_floor_semantics<T: BitwiseValue>(
    a: Seq<(usize, T)>,
    b: Seq<(usize, T)>,
    t: usize,
)
    requires
        keys_sorted(a),
        keys_sorted(b),
        no_default_entries(a, T::default_spec()),
        no_default_entries(b, T::default_spec()),
    ensures
        floor_val(combine_seq(a, b, BitOp::Or, T::default_spec()), t, T::default_spec())
            == floor_val(a, t, T::default_spec()).or_spec(floor_val(b, t, T::default_spec())),
    decreases a.len() + b.len(),
{
    let d = T::default_spec();
    T::lemma_default_laws();
    let r = combine_seq(a, b, BitOp::Or, d);
    if a.len() == 0 && b.len() == 0 {
    } else if b.len() == 0 || (a.len() > 0 && a.last().0 > b.last().0) {
        let k = a.last().0;
        let va = a.last().1;
        let vb = floor_val(b, k, d);
        let v = va.or_spec(vb);
        assert(va != d);
        assert(v != d);
        assert(r == combine_seq(a.drop_last(), b, BitOp::Or, d).push((k, v)));
        lemma_sorted_prefix(a);
        assert forall|i: int|
            0 <= i < a.drop_last().len() implies (#[trigger] a.drop_last()[i]).1 != d by {
            assert(a[i].1 != d);
        }
        lemma_or_floor_semantics::<T>(a.drop_last(), b, t);
        if k <= t {
            assert(floor_val(r, t, d) == v);
            assert(floor_val(a, t, d) == va);
            if b.len() > 0 {
                assert(b.last().0 < k);
                assert(floor_entry(b, t) == Some(b.last().1));
                assert(floor_entry(b, k) == Some(b.last().1));
            }
            assert(floor_val(b, t, d) == vb);
        } else {
            assert(r.drop_last() =~= combine_seq(a.drop_last(), b, BitOp::Or, d));
            assert(floor_val(r, t, d) == floor_val(
                combine_seq(a.drop_last(), b, BitOp::Or, d),
                t,
                d,
            ));
            assert(floor_val(a, t, d) == floor_val(a.drop_last(), t, d));
        }
    } else if a.len() == 0 || b.last().0 > a.last().0 {
        let k = b.last().0;
        let va = floor_val(a, k, d);
        let vb = b.last().1;
        let v = va.or_spec(vb);
        assert(vb != d);
        assert(v != d) by {
            if v == d {
                assert(va == d && vb == d);
            }
        }
        assert(r == combine_seq(a, b.drop_last(), BitOp::Or, d).push((k, v)));
        lemma_sorted_prefix(b);
        assert forall|i: int|
            0 <= i < b.drop_last().len() implies (#[trigger] b.drop_last()[i]).1 != d by {
            assert(b[i].1 != d);
        }
        lemma_or_floor_semantics::<T>(a, b.drop_last(), t);
        if k <= t {
            assert(floor_val(r, t, d) == v);
            assert(floor_val(b, t, d) == vb);
            if a.len() > 0 {
                assert(a.last().0 < k);
                assert(floor_entry(a, t) == Some(a.last().1));
                assert(floor_entry(a, k) == Some(a.last().1));
            }
            assert(floor_val(a, t, d) == va);
        } else {
            assert(r.drop_last() =~= combine_seq(a, b.drop_last(), BitOp::Or, d));
            assert(floor_val(b, t, d) == floor_val(b.drop_last(), t, d));
        }
    } else {
        let k = a.last().0;
        let va = a.last().1;
        let vb = b.last().1;
        let v = va.or_spec(vb);
        assert(va != d);
        assert(v != d);
        assert(r == combine_seq(a.drop_last(), b.drop_last(), BitOp::Or, d).push((k, v)));
        lemma_sorted_prefix(a);
        lemma_sorted_prefix(b);
        assert forall|i: int|
            0 <= i < a.drop_last().len() implies (#[trigger] a.drop_last()[i]).1 != d by {
            assert(a[i].1 != d);
        }
        assert forall|i: int|
            0 <= i < b.drop_last().len() implies (#[trigger] b.drop_last()[i]).1 != d by {
            assert(b[i].1 != d);
        }
        lemma_or_floor_semantics::<T>(a.drop_last(), b.drop_last(), t);
        if k <= t {
            assert(floor_val(r, t, d) == v);
            assert(floor_val(a, t, d) == va);
            assert(floor_val(b, t, d) == vb);
        } else {
            assert(r.drop_last() =~= combine_seq(a.drop_last(), b.drop_last(), BitOp::Or, d));
            assert(floor_val(a, t, d) == floor_val(a.drop_last(), t, d));
            assert(floor_val(b, t, d) == floor_val(b.drop_last(), t, d));
        }
    }
}

} // verus!

