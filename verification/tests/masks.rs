use oh_hi::board::Cell;
use oh_hi::solver::masks::{bits_iter, BitsRepr};

#[test]
fn bits_come_lowest_first() {
    let mut iter = bits_iter(0b101);
    assert_eq!(iter.next(), Some(true));
    assert_eq!(iter.next(), Some(false));
    assert_eq!(iter.next(), Some(true));
    for _ in 3..32 {
        assert_eq!(iter.next(), Some(false));
    }
    assert_eq!(iter.next(), None);
    assert_eq!(iter.next(), None);
}

#[test]
fn bits_of_zero_are_all_clear() {
    let mut iter = bits_iter(0);
    let mut seen = 0;
    while let Some(bit) = iter.next() {
        assert!(!bit);
        seen += 1;
    }
    assert_eq!(seen, 32);
}

#[test]
fn highest_bit_comes_last() {
    let mut iter = bits_iter(0x8000_0001);
    assert_eq!(iter.next(), Some(true));
    for _ in 1..31 {
        assert_eq!(iter.next(), Some(false));
    }
    assert_eq!(iter.next(), Some(true));
    assert_eq!(iter.next(), None);
}

#[test]
fn all_bits_set() {
    let mut iter = bits_iter(u32::MAX);
    for _ in 0..32 {
        assert_eq!(iter.next(), Some(true));
    }
    assert_eq!(iter.next(), None);
}

#[test]
fn default_masks_are_clear() {
    let bits = BitsRepr::default();
    assert_eq!(bits.reds, 0);
    assert_eq!(bits.blues, 0);
}

#[test]
fn marking_sets_the_colour_and_clears_the_other() {
    let bits = BitsRepr::default().marked(3, Cell::Red);
    assert_eq!(bits, BitsRepr { reds: 0b1000, blues: 0 });
    let bits = bits.marked(0, Cell::Blue);
    assert_eq!(bits, BitsRepr { reds: 0b1000, blues: 0b0001 });
    let bits = bits.marked(3, Cell::Blue);
    assert_eq!(bits, BitsRepr { reds: 0, blues: 0b1001 });
    let bits = bits.marked(0, Cell::Empty);
    assert_eq!(bits, BitsRepr { reds: 0, blues: 0b1000 });
    let bits = bits.marked(31, Cell::Red);
    assert_eq!(bits, BitsRepr { reds: 0x8000_0000, blues: 0b1000 });
}
