use vstd::prelude::*;

verus! {

/// The four suits. A suit has no effect on play.
#[derive(Clone, Copy, Debug, PartialEq, Eq, Structural)]
pub enum Suit {
    Club,
    Diamond,
    Heart,
    Spade,
}

/// The thirteen faces of a suit, in rising order.
#[derive(Clone, Copy, Debug, PartialEq, Eq, Structural)]
pub enum Face {
    Ace,
    Two,
    Three,
    Four,
    Five,
    Six,
    Seven,
    Eight,
    Nine,
    Ten,
    Jack,
    Queen,
    King,
}

/// One playing card.
#[derive(Clone, Copy, Debug, PartialEq, Eq, Structural)]
pub struct Card {
    pub suit: Suit,
    pub face: Face,
}

/// The suit at position `i` of the four, counted from zero.
pub open spec fn suit_at(i: int) -> Suit {
    if i == 0 {
        Suit::Club
    } else if i == 1 {
        Suit::Diamond
    } else if i == 2 {
        Suit::Heart
    } else {
        Suit::Spade
    }
}

/// The face at position `i` of the thirteen, counted from zero.
pub open spec fn face_at(i: int) -> Face {
    if i == 0 {
        Face::Ace
    } else if i == 1 {
        Face::Two
    } else if i == 2 {
        Face::Three
    } else if i == 3 {
        Face::Four
    } else if i == 4 {
        Face::Five
    } else if i == 5 {
        Face::Six
    } else if i == 6 {
        Face::Seven
    } else if i == 7 {
        Face::Eight
    } else if i == 8 {
        Face::Nine
    } else if i == 9 {
        Face::Ten
    } else if i == 10 {
        Face::Jack
    } else if i == 11 {
        Face::Queen
    } else {
        Face::King
    }
}

impl Suit {
    /// The position of the suit among the four, counted from zero.
    pub open spec fn index(self) -> int {
        match self {
            Suit::Club => 0,
            Suit::Diamond => 1,
            Suit::Heart => 2,
            Suit::Spade => 3,
        }
    }

    /// The suit at position `i`; positions past the third give spades.
    pub fn from_index(i: u8) -> (s: Suit)
        ensures
            s == suit_at(i as int),
    {
        if i == 0 {
            Suit::Club
        } else if i == 1 {
            Suit::Diamond
        } else if i == 2 {
            Suit::Heart
        } else {
            Suit::Spade
        }
    }
}

impl Face {
    /// The position of the face among the thirteen, counted from zero.
    pub open spec fn index(self) -> int {
        match self {
            Face::Ace => 0,
            Face::Two => 1,
            Face::Three => 2,
            Face::Four => 3,
            Face::Five => 4,
            Face::Six => 5,
            Face::Seven => 6,
            Face::Eight => 7,
            Face::Nine => 8,
            Face::Ten => 9,
            Face::Jack => 10,
            Face::Queen => 11,
            Face::King => 12,
        }
    }

    /// The points a face counts for, with the ace at its high value of 11.
    pub open spec fn points(self) -> int {
        match self {
            Face::Ace => 11,
            Face::Two => 2,
            Face::Three => 3,
            Face::Four => 4,
            Face::Five => 5,
            Face::Six => 6,
            Face::Seven => 7,
            Face::Eight => 8,
            Face::Nine => 9,
            Face::Ten | Face::Jack | Face::Queen | Face::King => 10,
        }
    }

    /// The points a face counts for, with the ace at its low value of 1.
    pub open spec fn low_points(self) -> int {
        if self == Face::Ace {
            1
        } else {
            self.points()
        }
    }

    /// The face at position `i`; positions past the twelfth give the king.
    pub fn from_index(i: u8) -> (f: Face)
        ensures
            f == face_at(i as int),
    {
        if i == 0 {
            Face::Ace
        } else if i == 1 {
            Face::Two
        } else if i == 2 {
            Face::Three
        } else if i == 3 {
            Face::Four
        } else if i == 4 {
            Face::Five
        } else if i == 5 {
            Face::Six
        } else if i == 6 {
            Face::Seven
        } else if i == 7 {
            Face::Eight
        } else if i == 8 {
            Face::Nine
        } else if i == 9 {
            Face::Ten
        } else if i == 10 {
            Face::Jack
        } else if i == 11 {
            Face::Queen
        } else {
            Face::King
        }
    }

    /// The blackjack point value of the face: 11 for an ace, the number for
    /// two to nine, 10 for ten and the court cards.
    pub fn value(self) -> (v: u8)
        ensures
            v as int == self.points(),
    {
        match self {
            Face::Ace => 11,
            Face::Two => 2,
            Face::Three => 3,
            Face::Four => 4,
            Face::Five => 5,
            Face::Six => 6,
            Face::Seven => 7,
            Face::Eight => 8,
            Face::Nine => 9,
            Face::Ten | Face::Jack | Face::Queen | Face::King => 10,
        }
    }

    /// Whether the face is an ace.
    pub fn is_ace(self) -> (b: bool)
        ensures
            b == (self == Face::Ace),
    {
        match self {
            Face::Ace => true,
            _ => false,
        }
    }
}

} // verus!
