//! Tests for the slot array, the per-channel timelines, the
//! multi-channel store, and compaction.

use midi2swstruct::algebra::BitOp;
use midi2swstruct::multisequence::MultiSequence;
use midi2swstruct::optionarray::{flag_bytes, OptionArray};
use midi2swstruct::sequence::Sequence;
use midi2swstruct::timebytesequence::{
    TimeByteMultiSequence, TimeByteSequence, TimeValueSequence,
};

#[test]
fn flag_bytes_rounds_up() {
    assert_eq!(flag_bytes(0), 0);
    assert_eq!(flag_bytes(1), 1);
    assert_eq!(flag_bytes(8), 1);
    assert_eq!(flag_bytes(9), 2);
    assert_eq!(flag_bytes(16), 2);
    assert_eq!(flag_bytes(17), 3);
}

#[test]
fn option_array_basics() {
    let mut a: OptionArray<u8> = OptionArray::new(10);
    assert_eq!(a.capacity(), 10);
    assert_eq!(a.len(), 0);
    assert!(!a.is_present(3));
    a.set(3, 7);
    assert!(a.is_present(3));
    assert_eq!(a.get(3), Some(&7));
    assert_eq!(a.len(), 1);
    a.insert(9, 1);
    assert_eq!(a.len(), 2);
    assert_eq!(a.remove(3), Some(7));
    assert_eq!(a.remove(3), None);
    assert_eq!(a.len(), 1);
    assert_eq!(a.iter(), vec![1]);
    let all = a.iter_all();
    assert_eq!(all.len(), 10);
    assert_eq!(all[9], Some(1));
    assert_eq!(all[0], None);
    a.fill(5);
    assert_eq!(a.len(), 10);
    a.clear();
    assert_eq!(a.len(), 0);
}

#[test]
fn option_array_get_or_insert() {
    let mut a: OptionArray<u16> = OptionArray::new(4);
    {
        let v = a.get_or_insert(2, 40);
        assert_eq!(*v, 40);
        *v = 41;
    }
    assert_eq!(a.get(2), Some(&41));
    {
        let v = a.get_or_insert(2, 99);
        assert_eq!(*v, 41);
    }
}

#[test]
fn sequence_insert_get_floor() {
    let mut s: Sequence<u8> = Sequence::new();
    s.insert(10, 3);
    s.insert(0, 1);
    s.insert(5, 2);
    assert_eq!(s.len(), 3);
    assert_eq!(s.get(5), Some(2));
    assert_eq!(s.get(6), None);
    assert_eq!(s.floor(0), 1);
    assert_eq!(s.floor(4), 1);
    assert_eq!(s.floor(5), 2);
    assert_eq!(s.floor(100), 3);
    s.insert(5, 9);
    assert_eq!(s.get(5), Some(9));
    assert_eq!(s.len(), 3);
    s.remove(5);
    assert_eq!(s.get(5), None);
    assert_eq!(s.floor(7), 1);
    assert_eq!(s.iter().as_slice(), &[(0, 1), (10, 3)]);
}

#[test]
fn sequence_floor_before_first_key_is_default() {
    let mut s: Sequence<u8> = Sequence::new();
    assert_eq!(s.floor(0), 0);
    s.insert(5, 7);
    assert_eq!(s.floor(4), 0);
    assert_eq!(s.floor(5), 7);
}

#[test]
fn sequence_optimize_minimal_and_floor_preserving() {
    let mut s: Sequence<u8> = Sequence::new();
    s.insert(0, 1);
    s.insert(5, 1);
    s.insert(10, 0);
    s.insert(12, 0);
    s.insert(20, 4);
    let before: Vec<u8> = (0..25).map(|t| s.floor(t)).collect();
    s.optimize();
    assert_eq!(s.iter().as_slice(), &[(0, 1), (10, 0), (20, 4)]);
    let after: Vec<u8> = (0..25).map(|t| s.floor(t)).collect();
    assert_eq!(before, after);
}

#[test]
fn scenario_store_compaction() {
    // Eight channels; inserting 1 at t=0 and t=5 and 0 at t=10 on channel
    // 3 must lose the redundant middle entry to compaction while every
    // floor query is unchanged.
    let mut m = TimeByteMultiSequence::new(8);
    m.set(0, 3, 1);
    m.set(5, 3, 1);
    m.set(10, 3, 0);
    assert_eq!(m.get(7, 3), 1);
    assert_eq!(m.get(12, 3), 0);
    m.optimize();
    let times: Vec<usize> = m.iter().iter().map(|e| e.0).collect();
    assert_eq!(times, vec![0, 10]);
    assert_eq!(m.get(0, 3), 1);
    assert_eq!(m.get(7, 3), 1);
    assert_eq!(m.get(10, 3), 0);
    assert_eq!(m.get(12, 3), 0);
    // Before any key, the held value of an untouched channel is zero.
    assert_eq!(m.get(1000, 0), 0);
}

#[test]
fn multisequence_set_group_and_floor_all() {
    let mut m: MultiSequence<u8> = MultiSequence::new(4);
    m.set_group(3, &vec![(0, 10), (2, 20)]);
    m.set_group(8, &vec![(2, 30)]);
    assert_eq!(m.floor_all(5), vec![10, 0, 20, 0]);
    assert_eq!(m.floor_all(9), vec![10, 0, 30, 0]);
    assert_eq!(m.floor_selected(9, &vec![2, 0]), vec![30, 10]);
    assert_eq!(m.len(), 2);
}

#[test]
fn multisequence_insert_whole_snapshot() {
    let mut m: MultiSequence<u8> = MultiSequence::new(3);
    m.insert(4, &vec![1, 2, 3]);
    assert_eq!(m.floor_all(4), vec![1, 2, 3]);
    m.insert(4, &vec![7, 8, 9]);
    assert_eq!(m.floor_all(10), vec![7, 8, 9]);
    assert_eq!(m.len(), 1);
}

#[test]
fn project_and_absorb_are_inverse_on_explicit_entries() {
    let mut m = TimeByteMultiSequence::new(4);
    m.set(0, 1, 5);
    m.set(9, 1, 6);
    m.set(9, 2, 7);
    let seq = m.to_sequence(1);
    assert_eq!(seq.iter().as_slice(), &[(0, 5), (9, 6)]);
    let mut m2 = TimeByteMultiSequence::new(4);
    m2.insert_sequence(1, &seq);
    let seq2 = m2.to_sequence(1);
    assert_eq!(seq2.iter().as_slice(), &[(0, 5), (9, 6)]);
}

#[test]
fn replace_sequence_overwrites_a_channel() {
    let mut m = TimeByteMultiSequence::new(2);
    m.set(0, 0, 1);
    m.set(5, 0, 2);
    m.set(5, 1, 9);
    let mut fresh = TimeByteSequence::new();
    fresh.insert(3, 8);
    m.replace_sequence(0, &fresh);
    assert_eq!(m.to_sequence(0).iter().as_slice(), &[(3, 8)]);
    assert_eq!(m.to_sequence(1).iter().as_slice(), &[(5, 9)]);
}

#[test]
fn sequence_view_reads_channel() {
    let mut m = TimeByteMultiSequence::new(4);
    m.set(2, 0, 11);
    m.set(6, 0, 12);
    let v = m.sequence(0);
    assert_eq!(v.get(4), 11);
    assert_eq!(v.get(6), 12);
    assert_eq!(v.iter(), vec![(2, 11), (6, 12)]);
}

#[test]
fn time_byte_sequence_basics() {
    let mut s = TimeByteSequence::new();
    s.insert(4, 9);
    s.insert(1, 3);
    assert_eq!(s.get(4), Some(9));
    assert_eq!(s.get(2), None);
    assert_eq!(s.get_extrapolated(3), 3);
    assert_eq!(s.get_extrapolated(0), 0);
    s.remove(4);
    assert_eq!(s.get_extrapolated(10), 3);
}

#[test]
fn time_value_sequence_with_wider_values() {
    let mut s: TimeValueSequence<u32> = TimeValueSequence::new();
    s.insert(0, 500000);
    s.insert(10, 500000);
    s.insert(20, 250000);
    assert_eq!(s.get(10), Some(500000));
    assert_eq!(s.get_extrapolated(15), 500000);
    assert_eq!(s.get_extrapolated(25), 250000);
    s.optimize();
    assert_eq!(s.iter().as_slice(), &[(0, 500000), (20, 250000)]);
    s.remove(0);
    assert_eq!(s.get_extrapolated(5), 0);
}

#[test]
fn sequence_get_mut_edits_in_place() {
    let mut s: Sequence<u8> = Sequence::new();
    s.insert(3, 10);
    match s.get_mut(3) {
        Some(v) => *v = 20,
        None => panic!("entry must be present"),
    }
    assert_eq!(s.get(3), Some(20));
    assert!(s.get_mut(4).is_none());
}

#[test]
fn byte_sequence_or_insert_mut() {
    let mut s = TimeByteSequence::new();
    {
        let v = s.get_value_or_default_mut(7);
        assert_eq!(*v, 0);
        *v |= 0b101;
    }
    assert_eq!(s.get(7), Some(0b101));
    {
        let v = s.get_value_or_insert_mut(7, 99);
        assert_eq!(*v, 0b101);
    }
    {
        let v = s.get_value_or_insert_mut(9, 42);
        assert_eq!(*v, 42);
    }
    assert_eq!(s.get(9), Some(42));
}

#[test]
fn time_value_sequence_or_insert_mut() {
    let mut s: TimeValueSequence<u32> = TimeValueSequence::new();
    {
        let v = s.get_value_or_insert_mut(2, 7);
        *v += 1;
    }
    assert_eq!(s.get(2), Some(8));
    {
        let v = s.get_value_or_default_mut(5);
        assert_eq!(*v, 0);
    }
    assert_eq!(s.get(5), Some(0));
    assert!(s.get_mut(6).is_none());
}

#[test]
fn multi_store_complement_uses_held_values() {
    let mut m = TimeByteMultiSequence::new(2);
    m.set(0, 0, 0b0000_1111);
    m.set(4, 1, 0xFF);
    let r = m.complement();
    // At t=0 channel 0 holds 0x0F and channel 1 holds 0: both complements
    // are nonzero.  At t=4 channel 0 still holds 0x0F (complement kept),
    // channel 1 holds 0xFF whose complement is zero and is omitted.
    assert_eq!(r.get(0, 0), 0b1111_0000);
    assert_eq!(r.get(0, 1), 0xFF);
    assert_eq!(r.get(4, 0), 0b1111_0000);
    let times: Vec<usize> = r.iter().iter().map(|e| e.0).collect();
    assert_eq!(times, vec![0, 4]);
}

#[test]
fn multi_store_combine_or_merges_held_values() {
    let mut a = TimeByteMultiSequence::new(2);
    a.set(0, 0, 1);
    a.set(6, 1, 8);
    let mut b = TimeByteMultiSequence::new(2);
    b.set(3, 0, 2);
    let r = a.combine(&b, BitOp::Or);
    assert_eq!(r.get(0, 0), 1);
    assert_eq!(r.get(3, 0), 3);
    assert_eq!(r.get(6, 0), 3);
    assert_eq!(r.get(6, 1), 8);
    let times: Vec<usize> = r.iter().iter().map(|e| e.0).collect();
    assert_eq!(times, vec![0, 3, 6]);
}

#[test]
fn multi_store_combine_assign_prunes_zero_results() {
    let mut a = TimeByteMultiSequence::new(1);
    a.set(0, 0, 5);
    let mut b = TimeByteMultiSequence::new(1);
    b.set(0, 0, 5);
    a.combine_assign(&b, BitOp::Xor);
    assert_eq!(a.iter().len(), 0);
}

#[test]
fn change_maps_held_values_into_a_snapshot() {
    let mut m: MultiSequence<u8> = MultiSequence::new(2);
    m.set(0, 0, 3);
    m.change(5, |held: Vec<u8>| held.iter().map(|v| v + 1).collect());
    // At t=5 the held values were [3, 0]; the snapshot becomes [4, 1].
    assert_eq!(m.floor_all(5), vec![4, 1]);
    assert_eq!(m.floor_all(4), vec![3, 0]);
}
