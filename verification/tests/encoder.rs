//! Tests for the step-function encoder, the renderers, and the
//! whole-timeline algebra.

use midi2swstruct::algebra::BitOp;
use midi2swstruct::encoder::{data_to_functions, StepFunctionEncoder};
use midi2swstruct::render::{render_function, render_i64, render_u64};
use midi2swstruct::timebytesequence::TimeByteSequence;

#[test]
fn render_decimal_numbers() {
    assert_eq!(render_u64(0), "0");
    assert_eq!(render_u64(7), "7");
    assert_eq!(render_u64(12345), "12345");
    assert_eq!(render_u64(4294967296), "4294967296");
    assert_eq!(render_i64(-42), "-42");
    assert_eq!(render_i64(0), "0");
    assert_eq!(render_i64(1000000), "1000000");
}

#[test]
fn scenario_encoder_splits_with_closing_terms() {
    // Cap of two terms per function over three unit steps: the encoder
    // must split into at least two functions, each with a closing
    // corrective term.
    let funcs = data_to_functions(&vec![(0, 1), (1, 2), (2, 3)], 2);
    assert_eq!(funcs.len(), 2);
    assert_eq!(funcs[0], "1*(step(0,x)+step(1,x))-2*step(2,x)");
    assert_eq!(funcs[1], "3*(step(2,x))-3*step(3,x)");
}

#[test]
fn encoder_empty_input_emits_nothing() {
    let funcs = data_to_functions(&vec![], 8);
    assert_eq!(funcs.len(), 0);
}

#[test]
fn encoder_single_sample() {
    let funcs = data_to_functions(&vec![(5, 7)], 10);
    assert_eq!(funcs, vec!["7*(step(5,x))-7*step(6,x)".to_string()]);
}

#[test]
fn encoder_groups_repeated_deltas_and_negatives() {
    // Deltas 5 and -3 each get their own bucket, in first-occurrence
    // order; the closing term cancels the final state of 2.
    let funcs = data_to_functions(&vec![(0, 5), (3, 2)], 10);
    assert_eq!(funcs, vec!["5*(step(0,x))+-3*(step(3,x))-2*step(4,x)".to_string()]);
}

#[test]
fn encoder_zero_delta_adds_no_term() {
    // The middle sample repeats the held state, so only two step terms
    // appear even though three samples come in.
    let funcs = data_to_functions(&vec![(0, 4), (2, 4), (7, 0)], 10);
    assert_eq!(funcs, vec!["4*(step(0,x))+-4*(step(7,x))-0*step(8,x)".to_string()]);
}

#[test]
fn encoder_term_bound_respected() {
    // With a cap of one, every nonzero delta opens and closes its own
    // function.
    let enc = StepFunctionEncoder::new(1);
    let funcs = enc.encode(&vec![(0, 1), (1, 2), (2, 3)]);
    assert_eq!(funcs.len(), 3);
    for f in &funcs {
        let count: usize = f.terms.iter().map(|b| b.1.len()).sum();
        assert!(count <= 1);
    }
    assert_eq!(render_function(&funcs[0]), "1*(step(0,x))-1*step(1,x)");
    assert_eq!(render_function(&funcs[1]), "2*(step(1,x))-2*step(2,x)");
    assert_eq!(render_function(&funcs[2]), "3*(step(2,x))-3*step(3,x)");
}

#[test]
fn encoder_functions_are_self_resetting() {
    // Evaluating the emitted functions as a piecewise accumulator
    // reproduces the sampled states exactly.
    let samples = vec![(0u32, 1u32), (4, 5), (9, 2), (11, 2), (30, 0), (31, 9)];
    let enc = StepFunctionEncoder::new(2);
    let funcs = enc.encode(&samples);
    let eval = |x: i64| -> i64 {
        let mut total = 0i64;
        for f in &funcs {
            let mut v = 0i64;
            for (delta, times) in &f.terms {
                let active = times.iter().filter(|t| (**t as i64) <= x).count() as i64;
                v += delta * active;
            }
            if x >= f.close_time as i64 {
                v -= f.carried;
            }
            total += v;
        }
        total
    };
    for (t, s) in &samples {
        assert_eq!(eval(*t as i64), *s as i64);
    }
    // Beyond every boundary the whole accumulator has reset to zero.
    assert_eq!(eval(1000), 0);
}

#[test]
fn algebra_or_with_empty_is_identity() {
    let mut a = TimeByteSequence::new();
    a.insert(0, 1);
    a.insert(5, 3);
    let empty = TimeByteSequence::new();
    let r = a.combine(&empty, BitOp::Or);
    assert_eq!(r.iter().as_slice(), a.iter().as_slice());
}

#[test]
fn algebra_and_with_self_is_identity() {
    let mut a = TimeByteSequence::new();
    a.insert(2, 6);
    a.insert(9, 1);
    let r = a.combine(&a, BitOp::And);
    assert_eq!(r.iter().as_slice(), a.iter().as_slice());
}

#[test]
fn algebra_xor_with_self_is_empty() {
    let mut a = TimeByteSequence::new();
    a.insert(2, 6);
    a.insert(9, 1);
    let r = a.combine(&a, BitOp::Xor);
    assert_eq!(r.iter().len(), 0);
}

#[test]
fn algebra_combines_held_values_at_union_keys() {
    let mut a = TimeByteSequence::new();
    a.insert(0, 1);
    a.insert(5, 3);
    let mut b = TimeByteSequence::new();
    b.insert(2, 2);
    let r = a.combine(&b, BitOp::Or);
    assert_eq!(r.iter().as_slice(), &[(0, 1), (2, 3), (5, 3)]);
    let r2 = a.combine(&b, BitOp::And);
    // held pairs: (1,0) at 0, (1,2) at 2, (3,2) at 5; zero results are
    // omitted.
    assert_eq!(r2.iter().as_slice(), &[(5, 2)]);
}

#[test]
fn algebra_assign_prunes_zero_results() {
    let mut a = TimeByteSequence::new();
    a.insert(0, 1);
    let mut b = TimeByteSequence::new();
    b.insert(0, 1);
    a.combine_assign(&b, BitOp::Xor);
    assert_eq!(a.iter().len(), 0);
}

#[test]
fn algebra_complement_keeps_keys() {
    let mut a = TimeByteSequence::new();
    a.insert(1, 0b0000_0101);
    a.insert(8, 0);
    let r = a.complement();
    assert_eq!(r.iter().as_slice(), &[(1, 0b1111_1010), (8, 255)]);
}
