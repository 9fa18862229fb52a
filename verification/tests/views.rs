//! Tests for the reinterpreting views over the multi-channel store.

use midi2swstruct::multisequence::MultiSequence;
use midi2swstruct::multisequenceview::MultiSequenceView;
use midi2swstruct::Error;

#[test]
fn multisequenceview_test0() {
    let multisequence = MultiSequence::<u8>::new(16);
    let typed_view = MultiSequenceView::new_typed(&multisequence);

    let _ = typed_view.floor_typed(127, 8);

    _ = typed_view;
}

#[test]
fn typed_view_rejects_out_of_range_indices() {
    let m = MultiSequence::<u8>::new(16);
    let v = MultiSequenceView::new_typed(&m);
    assert_eq!(v.get_typed(0, 8), None);
    match v.floor_typed(0, 8) {
        Err(Error::OutOfRange { index, bound }) => {
            assert_eq!(index, 8);
            assert_eq!(bound, 8);
        }
        _ => panic!("index beyond the typed width must be an explicit error"),
    }
}

#[test]
fn reinterpret_round_trip() {
    // Writing a 16-bit value through its two byte channels at one time
    // key and reading it back through the typed view returns it.
    let mut m = MultiSequence::<u8>::new(4);
    let value: u16 = 0x1234;
    m.set(7, 2, (value % 256) as u8);
    m.set(7, 3, (value / 256) as u8);
    let v = MultiSequenceView::new_typed(&m);
    assert_eq!(v.get_typed(7, 1), Some(0x1234));
    // A point query needs every byte in the same snapshot.
    assert_eq!(v.get_typed(8, 1), None);
}

#[test]
fn typed_floor_assembles_bytes_from_independent_keys() {
    // The two bytes of one typed value may come from different
    // historical keys: each byte is resolved by its own floor query.
    let mut m = MultiSequence::<u8>::new(2);
    m.set(0, 0, 0x34);
    m.set(5, 1, 0x12);
    let v = MultiSequenceView::new_typed(&m);
    assert_eq!(v.floor_typed(0, 0), Ok(0x0034));
    assert_eq!(v.floor_typed(6, 0), Ok(0x1234));
    assert_eq!(v.get_typed(5, 0), None);
}

#[test]
fn raw_view_decomposes_typed_values() {
    let mut m = MultiSequence::<u16>::new(2);
    m.set(3, 1, 0xBEEF);
    let v = MultiSequenceView::new_raw(&m);
    assert_eq!(v.get_raw(3, 2), Some(0xEF));
    assert_eq!(v.get_raw(3, 3), Some(0xBE));
    assert_eq!(v.get_raw(3, 0), None);
    assert_eq!(v.get_raw(3, 9), None);
    assert_eq!(v.floor_raw(10, 2), Ok(0xEF));
    assert_eq!(v.floor_raw(10, 3), Ok(0xBE));
    assert_eq!(v.floor_raw(2, 2), Ok(0));
    match v.floor_raw(0, 4) {
        Err(Error::OutOfRange { index, bound }) => {
            assert_eq!(index, 4);
            assert_eq!(bound, 4);
        }
        _ => panic!("flat index beyond the byte width must be an explicit error"),
    }
}

#[test]
fn store_conversion_round_trip() {
    // Spreading a typed store over byte channels and reassembling it
    // returns the original values and keys.
    let mut m = MultiSequence::<u16>::new(2);
    m.set(1, 0, 0x1234);
    m.set(5, 1, 0x00FF);
    let raw = m.to_raw();
    assert_eq!(raw.width(), 4);
    assert_eq!(raw.floor_all(1), vec![0x34, 0x12, 0, 0]);
    assert_eq!(raw.floor_all(5), vec![0x34, 0x12, 0xFF, 0]);
    let back = MultiSequence::<u8>::from_raw(&raw);
    assert_eq!(back.width(), 2);
    assert_eq!(back.floor_all(1), vec![0x1234, 0]);
    assert_eq!(back.floor_all(5), vec![0x1234, 0x00FF]);
    assert_eq!(back.len(), 2);
}

#[test]
fn from_raw_needs_both_bytes() {
    // A key where only one byte of a value is present yields no typed
    // value; a key with no complete value at all is pruned.
    let mut raw = MultiSequence::<u8>::new(2);
    raw.set(3, 0, 0x10);
    let typed = MultiSequence::<u8>::from_raw(&raw);
    assert_eq!(typed.len(), 0);
    raw.set(3, 1, 0x20);
    let typed2 = MultiSequence::<u8>::from_raw(&raw);
    assert_eq!(typed2.len(), 1);
    assert_eq!(typed2.floor_all(3), vec![0x2010]);
}
