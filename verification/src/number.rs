use vstd::prelude::*;

verus! {

/// A Sudoku digit: one of the values 1 through 9.
#[derive(Clone, Copy, Debug, PartialEq, Eq, Hash, Structural)]
pub enum Number {
    One,
    Two,
    Three,
    Four,
    Five,
    Six,
    Seven,
    Eight,
    Nine,
}

impl Number {
    /// The digit as a mathematical integer in 1..=9.
    pub open spec fn as_int(self) -> int {
        match self {
            Number::One => 1,
            Number::Two => 2,
            Number::Three => 3,
            Number::Four => 4,
            Number::Five => 5,
            Number::Six => 6,
            Number::Seven => 7,
            Number::Eight => 8,
            Number::Nine => 9,
        }
    }

    /// The decimal character for the digit.
    pub open spec fn as_char(self) -> char {
        match self {
            Number::One => '1',
            Number::Two => '2',
            Number::Three => '3',
            Number::Four => '4',
            Number::Five => '5',
            Number::Six => '6',
            Number::Seven => '7',
            Number::Eight => '8',
            Number::Nine => '9',
        }
    }

    /// The digit denoted by a character, if any.
    pub open spec fn spec_from_char(c: char) -> Option<Number> {
        if c == '1' {
            Some(Number::One)
        } else if c == '2' {
            Some(Number::Two)
        } else if c == '3' {
            Some(Number::Three)
        } else if c == '4' {
            Some(Number::Four)
        } else if c == '5' {
            Some(Number::Five)
        } else if c == '6' {
            Some(Number::Six)
        } else if c == '7' {
            Some(Number::Seven)
        } else if c == '8' {
            Some(Number::Eight)
        } else if c == '9' {
            Some(Number::Nine)
        } else {
            None
        }
    }

    pub fn to_u8(&self) -> (r: u8)
        ensures
            r == self.as_int(),
            1 <= r <= 9,
    {
        match self {
            Number::One => 1,
            Number::Two => 2,
            Number::Three => 3,
            Number::Four => 4,
            Number::Five => 5,
            Number::Six => 6,
            Number::Seven => 7,
            Number::Eight => 8,
            Number::Nine => 9,
        }
    }

    pub fn from_u8(value: u8) -> (r: Option<Number>)
        ensures
            1 <= value <= 9 ==> (r matches Some(n) && n.as_int() == value),
            !(1 <= value <= 9) ==> r is None,
    {
        match value {
            1 => Some(Number::One),
            2 => Some(Number::Two),
            3 => Some(Number::Three),
            4 => Some(Number::Four),
            5 => Some(Number::Five),
            6 => Some(Number::Six),
            7 => Some(Number::Seven),
            8 => Some(Number::Eight),
            9 => Some(Number::Nine),
            _ => None,
        }
    }

    /// The value clamped to 1..=9, as a digit.
    pub fn from_u8_normalize(value: u8) -> (r: Number)
        ensures
            r.as_int() == if value < 1 { 1int } else if value > 9 { 9int } else { value as int },
    {
        match Self::from_u8(normalize(value)) {
            Some(num) => num,
            None => unreached(),
        }
    }

    pub fn from_char(c: char) -> (r: Option<Number>)
        ensures
            r == Number::spec_from_char(c),
    {
        match c {
            '1' => Some(Number::One),
            '2' => Some(Number::Two),
            '3' => Some(Number::Three),
            '4' => Some(Number::Four),
            '5' => Some(Number::Five),
            '6' => Some(Number::Six),
            '7' => Some(Number::Seven),
            '8' => Some(Number::Eight),
            '9' => Some(Number::Nine),
            _ => None,
        }
    }

    pub fn to_char(self: &Self) -> (r: char)
        ensures
            r == self.as_char(),
    {
        match self {
            Number::One => '1',
            Number::Two => '2',
            Number::Three => '3',
            Number::Four => '4',
            Number::Five => '5',
            Number::Six => '6',
            Number::Seven => '7',
            Number::Eight => '8',
            Number::Nine => '9',
        }
    }
}

fn normalize(value: u8) -> (r: u8)
    ensures
        r == if value < 1 { 1u8 } else if value > 9 { 9u8 } else { value },
{
    if value < 1 {
        1
    } else if value > 9 {
        9
    } else {
        value
    }
}

} // verus!
