use sudoku::number::Number;
use sudoku::possible_nums::{PossibleNums, PossibleNumsIterator};

#[test]
fn remove() {
    let mut possible_nums = PossibleNums::all();

    possible_nums.remove(Number::One);
    assert_eq!(possible_nums.bits, 0b111111110);

    possible_nums.remove(Number::Nine);
    assert_eq!(possible_nums.bits, 0b011111110);
}

#[test]
fn single() {
    let possible_nums = PossibleNums { bits: 0b000000010 };
    assert_eq!(possible_nums.single(), Some(Number::Two));

    let possible_nums = PossibleNums { bits: 0b000000000 };
    assert_eq!(possible_nums.single(), None);

    let possible_nums = PossibleNums { bits: 0b001000010 };
    assert_eq!(possible_nums.single(), None);
}

#[test]
fn iterator() {
    let mut iter = PossibleNumsIterator { bits: 0b100111111, index: 0 };

    assert_eq!(iter.next(), Some(Number::One));
    assert_eq!(iter.next(), Some(Number::Two));
    assert_eq!(iter.next(), Some(Number::Three));
    assert_eq!(iter.next(), Some(Number::Four));
    assert_eq!(iter.next(), Some(Number::Five));
    assert_eq!(iter.next(), Some(Number::Six));
    assert_eq!(iter.next(), Some(Number::Nine));
    assert_eq!(iter.next(), None);
}

#[test]
fn into_iter() {
    let possible_nums = PossibleNums { bits: 0b100000010 };

    let mut iter = possible_nums.into_iter();

    assert_eq!(iter.next(), Some(Number::Two));
    assert_eq!(iter.next(), Some(Number::Nine));
    assert_eq!(iter.next(), None);
}

#[test]
fn iter() {
    let possible_nums = PossibleNums { bits: 0b100000010 };

    let mut iter = possible_nums.iter();

    assert_eq!(iter.next(), Some(Number::Two));
    assert_eq!(iter.next(), Some(Number::Nine));
    assert_eq!(iter.next(), None);
    assert_eq!(possible_nums.bits, 0b100000010)
}
