use crate::cards::card::{Card, Face};
use crate::cards::hand::{hand_value, hard_total, is_pair, is_soft, lemma_total_bounds, Hand};
use vstd::prelude::*;

verus! {

/// What a player may do with a hand.
#[derive(Clone, Copy, Debug, PartialEq, Eq, Structural)]
pub enum Action {
    Hit,
    Stand,
    Double,
    Split,
}

/// The same choices under their older name.
pub type PlayerAction = Action;

/// An action is legal on a hand when it doubles only two cards and splits
/// only a pair.
pub open spec fn is_legal(action: Action, hand: Seq<Card>) -> bool {
    &&& action == Action::Double ==> hand.len() == 2
    &&& action == Action::Split ==> is_pair(hand)
}

/// Decides what to do with a hand against the dealer's shown card.
pub trait ActionStrategy {
    /// The decision as a function of the hand and the shown card, for a
    /// strategy that makes it known; `None` for one that does not.
    open spec fn decision(&self, hand: Seq<Card>, dealer_card: Card) -> Option<Action> {
        None
    }

    /// Asked only for a hand that is still in play: at least two cards,
    /// worth less than 21. A strategy that makes its decision known answers
    /// by it. Nothing else is taken for granted of the answer: the table
    /// checks it before it plays it.
    fn action(&self, hand: &Hand, dealer_card: &Card) -> (action: Action)
        requires
            hand@.len() >= 2,
            hand_value(hand@) < 21,
        ensures
            self.decision(hand@, *dealer_card) is Some ==> self.decision(hand@, *dealer_card)
                == Some(action),
    ;
}

/// The total below which the simple strategy hits.
pub const SIMPLE_CUTOFF: u8 = 15;

/// The simple strategy's decision: split any pair, double a first total of
/// 11, else hit below the cutoff and stand from it on.
pub open spec fn simple_action(hand: Seq<Card>) -> Action {
    if is_pair(hand) {
        Action::Split
    } else if hand.len() == 2 && hand_value(hand) == 11 {
        Action::Double
    } else if hand_value(hand) < 15 {
        Action::Hit
    } else {
        Action::Stand
    }
}

/// A baseline strategy that looks at its own hand only.
#[derive(Clone, Copy, Debug)]
pub struct SimpleActionStrategy;

impl ActionStrategy for SimpleActionStrategy {
    open spec fn decision(&self, hand: Seq<Card>, dealer_card: Card) -> Option<Action> {
        Some(simple_action(hand))
    }

    fn action(&self, hand: &Hand, dealer_card: &Card) -> (action: Action)
        ensures
            action == simple_action(hand@),
    {
        proof {
            lemma_total_bounds(hand@);
        }
        if hand.len() == 2 {
            if hand.is_pair() {
                return Action::Split;
            }
            if hand.value() == 11 {
                return Action::Double;
            }
        }
        if hand.value() < SIMPLE_CUTOFF {
            Action::Hit
        } else {
            Action::Stand
        }
    }
}

/// Whether basic strategy splits a pair of `pair_face` against
/// `dealer_face`: aces and eights always; tens, court cards and fives
/// never; nines against 2 to 6 and 8 to 9; sevens against 2 to 7; sixes,
/// threes and twos against 2 to 6; fours against 4 and 5.
pub open spec fn split_table(pair_face: Face, dealer_face: Face) -> bool {
    let d = dealer_face.points();
    match pair_face {
        Face::Ace | Face::Eight => true,
        Face::Ten | Face::Jack | Face::Queen | Face::King | Face::Five => false,
        Face::Nine => 2 <= d <= 6 || 8 <= d <= 9,
        Face::Seven => 2 <= d <= 7,
        Face::Six | Face::Three | Face::Two => 2 <= d <= 6,
        Face::Four => 4 <= d <= 5,
    }
}

/// Double on the first two cards, the other action later.
pub open spec fn double_or(initial_cards: bool, otherwise: Action) -> Action {
    if initial_cards {
        Action::Double
    } else {
        otherwise
    }
}

/// Basic strategy for a soft total from 13 to 20.
pub open spec fn soft_table(hand_value: int, initial_cards: bool, dealer_face: Face) -> Action {
    let d = dealer_face.points();
    if hand_value == 20 {
        Action::Stand
    } else if hand_value == 19 {
        if d == 6 {
            double_or(initial_cards, Action::Stand)
        } else {
            Action::Stand
        }
    } else if hand_value == 18 {
        if d >= 9 {
            Action::Hit
        } else if d >= 7 {
            Action::Stand
        } else {
            double_or(initial_cards, Action::Stand)
        }
    } else if hand_value == 17 {
        if 3 <= d <= 6 {
            double_or(initial_cards, Action::Hit)
        } else {
            Action::Hit
        }
    } else if hand_value >= 15 {
        if 4 <= d <= 6 {
            double_or(initial_cards, Action::Hit)
        } else {
            Action::Hit
        }
    } else {
        if 5 <= d <= 6 {
            double_or(initial_cards, Action::Hit)
        } else {
            Action::Hit
        }
    }
}

/// Basic strategy for a hard total.
pub open spec fn hard_table(hand_value: int, initial_cards: bool, dealer_face: Face) -> Action {
    let d = dealer_face.points();
    if 17 <= hand_value <= 20 {
        Action::Stand
    } else if 13 <= hand_value <= 16 {
        if 2 <= d <= 6 {
            Action::Stand
        } else {
            Action::Hit
        }
    } else if hand_value == 12 {
        if 4 <= d <= 6 {
            Action::Stand
        } else {
            Action::Hit
        }
    } else if hand_value == 11 {
        double_or(initial_cards, Action::Hit)
    } else if hand_value == 10 {
        if initial_cards && d <= 9 {
            Action::Double
        } else {
            Action::Hit
        }
    } else if hand_value == 9 {
        if initial_cards && 3 <= d <= 6 {
            Action::Double
        } else {
            Action::Hit
        }
    } else {
        Action::Hit
    }
}

/// Basic strategy's decision for a hand: the split table for a pair, then
/// the soft or the hard table by the kind of total.
pub open spec fn optimal_action(hand: Seq<Card>, dealer_card: Card) -> Action {
    if is_pair(hand) && split_table(hand[0].face, dealer_card.face) {
        Action::Split
    } else if is_soft(hand) {
        soft_table(hand_value(hand), hand.len() == 2, dealer_card.face)
    } else {
        hard_table(hand_value(hand), hand.len() == 2, dealer_card.face)
    }
}

/// Whether basic strategy splits a pair of `pair_face` against the dealer's
/// `dealer_face`.
pub fn should_split(pair_face: Face, dealer_face: Face) -> (split: bool)
    ensures
        split == split_table(pair_face, dealer_face),
{
    match pair_face {
        Face::Ace | Face::Eight => true,
        Face::Ten | Face::King | Face::Queen | Face::Jack | Face::Five => false,
        Face::Nine => matches!(
            dealer_face,
            Face::Nine | Face::Eight | Face::Six | Face::Five | Face::Four | Face::Three
                | Face::Two
        ),
        Face::Seven => matches!(
            dealer_face,
            Face::Seven | Face::Six | Face::Five | Face::Four | Face::Three | Face::Two
        ),
        Face::Six | Face::Three | Face::Two => matches!(
            dealer_face,
            Face::Six | Face::Five | Face::Four | Face::Three | Face::Two
        ),
        Face::Four => matches!(dealer_face, Face::Five | Face::Four),
    }
}

/// Basic strategy's action on a soft total from 13 to 20. `initial_cards`
/// says whether the hand still holds its first two cards only.
pub fn get_soft_total_action(hand_value: u8, initial_cards: bool, dealer_face: Face) -> (action:
    Action)
    requires
        13 <= hand_value <= 20,
    ensures
        action == soft_table(hand_value as int, initial_cards, dealer_face),
{
    match hand_value {
        20 => Action::Stand,
        19 => match dealer_face {
            Face::Six => {
                if initial_cards {
                    Action::Double
                } else {
                    Action::Stand
                }
            },
            _ => Action::Stand,
        },
        18 => match dealer_face {
            Face::Ace | Face::King | Face::Queen | Face::Jack | Face::Ten | Face::Nine => {
                Action::Hit
            },
            Face::Eight | Face::Seven => Action::Stand,
            _ => {
                if initial_cards {
                    Action::Double
                } else {
                    Action::Stand
                }
            },
        },
        17 => match dealer_face {
            Face::Six | Face::Five | Face::Four | Face::Three => {
                if initial_cards {
                    Action::Double
                } else {
                    Action::Hit
                }
            },
            _ => Action::Hit,
        },
        16 | 15 => match dealer_face {
            Face::Six | Face::Five | Face::Four => {
                if initial_cards {
                    Action::Double
                } else {
                    Action::Hit
                }
            },
            _ => Action::Hit,
        },
        _ => match dealer_face {
            Face::Six | Face::Five => {
                if initial_cards {
                    Action::Double
                } else {
                    Action::Hit
                }
            },
            _ => Action::Hit,
        },
    }
}

/// Basic strategy's action on a hard total. `initial_cards` says whether the
/// hand still holds its first two cards only.
pub fn get_hard_total_action(hand_value: u8, initial_cards: bool, dealer_face: Face) -> (action:
    Action)
    ensures
        action == hard_table(hand_value as int, initial_cards, dealer_face),
{
    match hand_value {
        17..=20 => Action::Stand,
        13..=16 => match dealer_face {
            Face::Six | Face::Five | Face::Four | Face::Three | Face::Two => Action::Stand,
            _ => Action::Hit,
        },
        12 => match dealer_face {
            Face::Six | Face::Five | Face::Four => Action::Stand,
            _ => Action::Hit,
        },
        11 => {
            if initial_cards {
                Action::Double
            } else {
                Action::Hit
            }
        },
        10 => {
            if initial_cards {
                match dealer_face {
                    Face::Ace | Face::King | Face::Queen | Face::Jack | Face::Ten => Action::Hit,
                    _ => Action::Double,
                }
            } else {
                Action::Hit
            }
        },
        9 => {
            if initial_cards {
                match dealer_face {
                    Face::Six | Face::Five | Face::Four | Face::Three => Action::Double,
                    _ => Action::Hit,
                }
            } else {
                Action::Hit
            }
        },
        _ => Action::Hit,
    }
}

/// A soft hand of two cards or more is worth 13 at least, unless it is a
/// pair of aces.
pub proof fn lemma_soft_total_range(hand: Seq<Card>)
    requires
        hand.len() >= 2,
        is_soft(hand),
    ensures
        12 <= hand_value(hand) <= 21,
        hand_value(hand) == 12 ==> is_pair(hand) && hand[0].face == Face::Ace,
{
    let front = hand.drop_last();
    let front2 = front.drop_last();
    lemma_total_bounds(front);
    lemma_total_bounds(front2);
    assert(hard_total(hand) == hard_total(front2) + front.last().face.low_points()
        + hand.last().face.low_points());
    if hand_value(hand) == 12 {
        assert(front2.len() == 0);
        assert(front.last() == hand[0]);
        assert(hand.last() == hand[1]);
    }
}

/// The house-edge-optimal fixed table, driven by the hand and the dealer's
/// shown card.
#[derive(Clone, Copy, Debug)]
pub struct OptimalActionStrategy;

impl ActionStrategy for OptimalActionStrategy {
    open spec fn decision(&self, hand: Seq<Card>, dealer_card: Card) -> Option<Action> {
        Some(optimal_action(hand, dealer_card))
    }

    fn action(&self, hand: &Hand, dealer_card: &Card) -> (action: Action)
        ensures
            action == optimal_action(hand@, *dealer_card),
    {
        let initial_cards = hand.len() == 2;
        if hand.is_pair() && should_split(hand.cards[0].face, dealer_card.face) {
            return Action::Split;
        }
        proof {
            lemma_total_bounds(hand@);
        }
        if hand.is_soft() {
            proof {
                lemma_soft_total_range(hand@);
            }
            get_soft_total_action(hand.value(), initial_cards, dealer_card.face)
        } else {
            get_hard_total_action(hand.value(), initial_cards, dealer_card.face)
        }
    }
}

/// The simple strategy splits a hand if and only if it is a pair: exactly two
/// cards of one face, whatever their suits.
pub proof fn lemma_simple_splits_pairs_only(hand: Seq<Card>)
    ensures
        simple_action(hand) == Action::Split <==> hand.len() == 2 && hand[0].face == hand[1].face,
{
}

/// Basic strategy splits nothing but a pair.
pub proof fn lemma_optimal_splits_pairs_only(hand: Seq<Card>, dealer_card: Card)
    ensures
        optimal_action(hand, dealer_card) == Action::Split ==> hand.len() == 2 && hand[0].face
            == hand[1].face,
{
}

/// Both built-in strategies only ever offer a legal action.
pub proof fn lemma_builtin_strategies_legal(hand: Seq<Card>, dealer_card: Card)
    ensures
        is_legal(simple_action(hand), hand),
        is_legal(optimal_action(hand, dealer_card), hand),
{
}

} // verus!
