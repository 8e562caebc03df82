use cindex::strokes::{RawStrokes, Stroke};

static MU: [u8; 2] = [0x12, 0x34];
static DING: [u8; 1] = [0x12];
static ODD: [u8; 2] = [0x41, 0x40];
static BAD: [u8; 2] = [0x10, 0x12];

#[test]
fn strokes_of_a_character() {
    let mu = RawStrokes::from_strokes(&MU).unwrap();
    assert_eq!(mu.len(), 4);
    assert_eq!(mu.get(0), Some(Stroke::S1));
    assert_eq!(mu.get(3), Some(Stroke::S4));
    assert_eq!(mu.get(4), None);
    let mut iter = mu.strokes();
    assert_eq!(iter.next(), Some(Stroke::S1));
    assert_eq!(iter.next_back(), Some(Stroke::S4));
    assert_eq!(iter.next_back(), Some(Stroke::S3));
    assert_eq!(iter.len(), 1);
    assert_eq!(iter.next(), Some(Stroke::S2));
    assert_eq!(iter.next(), None);
    assert_eq!(iter.next_back(), None);
}

#[test]
fn stroke_data_with_padding() {
    let odd = RawStrokes::from_strokes(&ODD).unwrap();
    assert_eq!(odd.len(), 3);
    assert_eq!(odd.get(2), Some(Stroke::S4));
    assert!(RawStrokes::from_strokes(&DING).is_some());
    assert!(RawStrokes::from_strokes(&BAD).is_none());
    assert!(RawStrokes::from_strokes(&[]).unwrap().is_empty());
}

#[test]
fn strokes_compared_with_digits() {
    let mu = RawStrokes::from_strokes(&MU).unwrap();
    assert_eq!(mu.compare_digits("1234"), 0);
    assert_eq!(mu.compare_digits("124"), -1);
    assert_eq!(mu.compare_digits("1224"), 1);
    assert_eq!(mu.compare_digits("12"), 1);
    assert_eq!(mu.compare_digits("12345"), -1);
    assert_eq!(mu.compare_digits("12a"), -2);
    assert_eq!(mu.compare_digits("6"), -2);
}

#[test]
fn collected_strokes_follow_get() {
    static LONG: [u8; 4] = [0x41, 0x43, 0x45, 0x25];
    let r = RawStrokes::from_strokes(&LONG).unwrap();
    let front = r.strokes().to_vec();
    let by_index: Vec<Stroke> = (0..r.len()).map(|i| r.get(i).unwrap()).collect();
    assert_eq!(front, by_index);
    assert_eq!(front.len(), r.strokes().len());
    let mut back = r.strokes().to_vec_rev();
    back.reverse();
    assert_eq!(back, by_index);
    let mut it = r.strokes();
    it.next();
    it.next_back();
    assert_eq!(it.to_vec(), by_index[1..7].to_vec());
}
