//! Rendering numbers and encoded step functions as expression strings.
//!
//! The expression grammar is the flat arithmetic language the emission
//! interface carries: `step(t,x)` terms, `+`, `-`, `*`, parentheses and
//! decimal literals.  Every renderer is verified against a character
//! sequence specification, so the emitted strings are pinned down
//! exactly.

use vstd::prelude::*;

verus! {

use crate::encoder::EncodedFunction;

/// The decimal digit character for `d`.
pub open spec fn digit_char(d: nat) -> char
    recommends
        d < 10,
{
    if d == 0 {
        '0'
    } else if d == 1 {
        '1'
    } else if d == 2 {
        '2'
    } else if d == 3 {
        '3'
    } else if d == 4 {
        '4'
    } else if d == 5 {
        '5'
    } else if d == 6 {
        '6'
    } else if d == 7 {
        '7'
    } else if d == 8 {
        '8'
    } else {
        '9'
    }
}

/// The decimal rendering of a natural number, most significant digit
/// first.
pub open spec fn dec_str(n: nat) -> Seq<char>
    decreases n,
{
    if n < 10 {
        seq![digit_char(n)]
    } else {
        dec_str(n / 10).push(digit_char(n % 10))
    }
}

/// The decimal rendering of an integer, with a leading minus sign when
/// negative.
pub open spec fn int_str(n: int) -> Seq<char> {
    if n < 0 {
        seq!['-'] + dec_str((-n) as nat)
    } else {
        dec_str(n as nat)
    }
}

/// One decimal digit as a string slice.
fn digit_str(d: u64) -> (r: &'static str)
    requires
        d < 10,
    ensures
        r@ == seq![digit_char(d as nat)],
{
    let r = if d == 0 {
        "0"
    } else if d == 1 {
        "1"
    } else if d == 2 {
        "2"
    } else if d == 3 {
        "3"
    } else if d == 4 {
        "4"
    } else if d == 5 {
        "5"
    } else if d == 6 {
        "6"
    } else if d == 7 {
        "7"
    } else if d == 8 {
        "8"
    } else {
        "9"
    };
    proof {
        reveal_strlit("0");
        reveal_strlit("1");
        reveal_strlit("2");
        reveal_strlit("3");
        reveal_strlit("4");
        reveal_strlit("5");
        reveal_strlit("6");
        reveal_strlit("7");
        reveal_strlit("8");
        reveal_strlit("9");
        assert(r@ =~= seq![digit_char(d as nat)]);
    }
    r
}

/// Render a natural number in decimal.
pub fn render_u64(n: u64) -> (r: String)
    ensures
        r@ == dec_str(n as nat),
    decreases n,
{
    if n < 10 {
        digit_str(n).to_owned()
    } else {
        let mut r = render_u64(n / 10);
        r.append(digit_str(n % 10));
        proof {
            assert(r@ =~= dec_str(n as nat));
        }
        r
    }
}

/// Render a signed number in decimal.
pub fn render_i64(n: i64) -> (r: String)
    requires
        n != i64::MIN,
    ensures
        r@ == int_str(n as int),
{
    if n < 0 {
        let mut r = String::from_str("-");
        let m: i64 = -n;
        let digits = render_u64(m as u64);
        r.append(digits.as_str());
        proof {
            reveal_strlit("-");
            assert(r@ =~= int_str(n as int));
        }
        r
    } else {
        render_u64(n as u64)
    }
}

/// The `step(t,x)` term for time `t`.
pub open spec fn step_str(t: nat) -> Seq<char> {
    "step("@ + dec_str(t) + ",x)"@
}

/// The step terms of one bucket, joined by `+`.
pub open spec fn times_str(times: Seq<u32>) -> Seq<char>
    decreases times.len(),
{
    if times.len() == 0 {
        Seq::empty()
    } else if times.len() == 1 {
        step_str(times[0] as nat)
    } else {
        times_str(times.drop_last()) + "+"@ + step_str(times.last() as nat)
    }
}

/// One bucket: the delta times its parenthesized step sum.
pub open spec fn bucket_str(delta: int, times: Seq<u32>) -> Seq<char> {
    int_str(delta) + "*("@ + times_str(times) + ")"@
}

/// All buckets of a function, joined by `+`.
pub open spec fn terms_str(ts: Seq<(i64, Seq<u32>)>) -> Seq<char>
    decreases ts.len(),
{
    if ts.len() == 0 {
        Seq::empty()
    } else if ts.len() == 1 {
        bucket_str(ts[0].0 as int, ts[0].1)
    } else {
        terms_str(ts.drop_last()) + "+"@ + bucket_str(ts.last().0 as int, ts.last().1)
    }
}

/// A whole encoded function: its buckets followed by the closing
/// corrective term that cancels the carried state at the boundary.
pub open spec fn func_str(f: EncodedFunction) -> Seq<char> {
    terms_str(crate::encoder::bucket_view(f.terms@)) + "-"@ + dec_str(f.carried as nat) + "*step("@
        + dec_str(f.close_time as nat) + ",x)"@
}

/// Render one `step(t,x)` term.
fn render_step(t: u64) -> (r: String)
    ensures
        r@ == step_str(t as nat),
{
    let mut r = String::from_str("step(");
    let digits = render_u64(t);
    r.append(digits.as_str());
    r.append(",x)");
    proof {
        reveal_strlit("step(");
        reveal_strlit(",x)");
        assert(r@ =~= step_str(t as nat));
    }
    r
}

/// Render the parenthesized step sum of one bucket's times.
fn render_times(times: &Vec<u32>) -> (r: String)
    ensures
        r@ == times_str(times@),
{
    let n = times.len();
    let mut r = String::new();
    let mut k: usize = 0;
    while k < n
        invariant
            k <= n,
            n == times@.len(),
            r@ == times_str(times@.take(k as int)),
        decreases n - k,
    {
        if k > 0 {
            r.append("+");
        }
        let st = render_step(times[k] as u64);
        r.append(st.as_str());
        proof {
            reveal_strlit("+");
            assert(times@.take(k + 1).drop_last() =~= times@.take(k as int));
            assert(times@.take(k + 1).last() == times@[k as int]);
            if k == 0 {
                assert(times@.take(1).len() == 1);
                assert(times@.take(1)[0] == times@[0]);
                assert(r@ =~= times_str(times@.take(1)));
            } else {
                assert(r@ =~= times_str(times@.take(k + 1)));
            }
        }
        k = k + 1;
    }
    proof {
        assert(times@.take(n as int) =~= times@);
    }
    r
}

/// Render one encoded function in the expression grammar.
pub fn render_function(f: &EncodedFunction) -> (r: String)
    requires
        crate::encoder::func_wf(*f),
    ensures
        r@ == func_str(*f),
{
    let ghost ts = crate::encoder::bucket_view(f.terms@);
    let n = f.terms.len();
    let mut r = String::new();
    let mut k: usize = 0;
    while k < n
        invariant
            k <= n,
            n == f.terms@.len(),
            crate::encoder::func_wf(*f),
            ts == crate::encoder::bucket_view(f.terms@),
            r@ == terms_str(ts.take(k as int)),
        decreases n - k,
    {
        if k > 0 {
            r.append("+");
        }
        let delta = f.terms[k].0;
        proof {
            assert(ts[k as int] == (f.terms@[k as int].0, f.terms@[k as int].1@));
            assert(-(u32::MAX as int) <= (f.terms@[k as int]).0 <= u32::MAX as int);
        }
        let db = render_i64(delta);
        r.append(db.as_str());
        r.append("*(");
        let tstr = render_times(&f.terms[k].1);
        r.append(tstr.as_str());
        r.append(")");
        proof {
            reveal_strlit("+");
            reveal_strlit("*(");
            reveal_strlit(")");
            assert(ts.take(k + 1).drop_last() =~= ts.take(k as int));
            assert(ts.take(k + 1).last() == ts[k as int]);
            if k == 0 {
                assert(ts.take(1).len() == 1);
                assert(ts.take(1)[0] == ts[0]);
                assert(r@ =~= terms_str(ts.take(1)));
            } else {
                assert(r@ =~= terms_str(ts.take(k + 1)));
            }
        }
        k = k + 1;
    }
    proof {
        assert(ts.take(n as int) =~= ts);
    }
    r.append("-");
    let carried = render_u64(f.carried as u64);
    r.append(carried.as_str());
    r.append("*step(");
    let close = render_u64(f.close_time);
    r.append(close.as_str());
    r.append(",x)");
    proof {
        reveal_strlit("-");
        reveal_strlit("*step(");
        reveal_strlit(",x)");
        assert(r@ =~= func_str(*f));
    }
    r
}

} // verus!
