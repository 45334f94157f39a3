use crate::cards::card::{Card, Face};
use vstd::multiset::Multiset;
use vstd::prelude::*;

verus! {

/// The total of the cards with every ace counted as 1.
pub open spec fn hard_total(cards: Seq<Card>) -> int
    decreases cards.len(),
{
    if cards.len() == 0 {
        0
    } else {
        hard_total(cards.drop_last()) + cards.last().face.low_points()
    }
}

/// The number of aces among the cards.
pub open spec fn ace_count(cards: Seq<Card>) -> int
    decreases cards.len(),
{
    if cards.len() == 0 {
        0
    } else {
        ace_count(cards.drop_last()) + if cards.last().face == Face::Ace {
            1int
        } else {
            0int
        }
    }
}

/// A hand is soft when one of its aces can count as 11 without the total
/// passing 21.
pub open spec fn is_soft(cards: Seq<Card>) -> bool {
    ace_count(cards) > 0 && hard_total(cards) + 10 <= 21
}

/// The blackjack value of the cards: the soft total where there is one, the
/// hard total otherwise.
pub open spec fn hand_value(cards: Seq<Card>) -> int {
    if is_soft(cards) {
        hard_total(cards) + 10
    } else {
        hard_total(cards)
    }
}

/// Exactly two cards of one face.
pub open spec fn is_pair(cards: Seq<Card>) -> bool {
    cards.len() == 2 && cards[0].face == cards[1].face
}

/// Twenty-one with exactly two cards.
pub open spec fn is_blackjack(cards: Seq<Card>) -> bool {
    cards.len() == 2 && hand_value(cards) == 21
}

/// What `value` reports for a total: the total itself as far as it fits.
pub open spec fn capped(total: int) -> int {
    if total <= 255 {
        total
    } else {
        255
    }
}

/// Adding a card adds its low points to the hard total and, for an ace, one
/// to the number of aces.
pub proof fn lemma_push_card(cards: Seq<Card>, card: Card)
    ensures
        hard_total(cards.push(card)) == hard_total(cards) + card.face.low_points(),
        ace_count(cards.push(card)) == ace_count(cards) + if card.face == Face::Ace {
            1int
        } else {
            0int
        },
{
    assert(cards.push(card).drop_last() =~= cards);
}

/// A card added to a sequence is added to its cards in no order.
pub proof fn lemma_card_added(cards: Seq<Card>, card: Card)
    ensures
        cards.push(card).to_multiset() == cards.to_multiset().insert(card),
{
    vstd::seq_lib::to_multiset_build(cards, card);
}

/// No cards in a row are no cards in no order.
pub proof fn lemma_no_cards()
    ensures
        Seq::<Card>::empty().to_multiset() == Multiset::<Card>::empty(),
{
    vstd::seq_lib::to_multiset_len(Seq::<Card>::empty());
    assert(Seq::<Card>::empty().to_multiset() =~= Multiset::<Card>::empty());
}

/// Every card counts for at least one point and at most ten, and no hand has
/// more aces than points.
pub proof fn lemma_total_bounds(cards: Seq<Card>)
    ensures
        cards.len() <= hard_total(cards) <= 10 * cards.len(),
        0 <= ace_count(cards) <= cards.len(),
        ace_count(cards) <= hard_total(cards),
        hard_total(cards) <= hand_value(cards) <= hard_total(cards) + 10,
    decreases cards.len(),
{
    if cards.len() > 0 {
        lemma_total_bounds(cards.drop_last());
    }
}

/// The value of a hand is the best total it can reach. Counting `high` of its
/// aces as 11 and the others as 1 gives `hard_total + 10 * high`; the value is
/// one of these totals, no such total within 21 is larger, and where the value
/// is over 21 it is the smallest of them.
pub proof fn lemma_value_is_best_total(cards: Seq<Card>, high: int)
    requires
        0 <= high <= ace_count(cards),
    ensures
        hand_value(cards) == hard_total(cards) || (ace_count(cards) >= 1 && hand_value(cards)
            == hard_total(cards) + 10),
        hard_total(cards) + 10 * high <= 21 ==> hard_total(cards) + 10 * high <= hand_value(cards),
        hand_value(cards) > 21 ==> hand_value(cards) <= hard_total(cards) + 10 * high,
{
    lemma_total_bounds(cards);
}

/// The cards held by one player, or by the dealer, in the order they came.
#[derive(Debug)]
pub struct Hand {
    pub cards: Vec<Card>,
}

impl View for Hand {
    type V = Seq<Card>;

    open spec fn view(&self) -> Seq<Card> {
        self.cards@
    }
}

impl Default for Hand {
    fn default() -> (hand: Hand)
        ensures
            hand@ == Seq::<Card>::empty(),
    {
        Hand { cards: Vec::new() }
    }
}

impl Hand {
    /// An empty hand.
    pub fn new() -> (hand: Hand)
        ensures
            hand@ == Seq::<Card>::empty(),
    {
        Hand { cards: Vec::new() }
    }

    /// Puts a card at the end of the hand.
    pub fn add_card(&mut self, card: Card)
        ensures
            final(self)@ == old(self)@.push(card),
    {
        self.cards.push(card);
    }

    /// The hard total, as far as it fits, and whether the hand has an ace.
    fn totals(&self) -> (r: (u8, bool))
        ensures
            r.0 as int == capped(hard_total(self@)),
            r.1 == (ace_count(self@) > 0),
    {
        let mut total: u8 = 0;
        let mut has_ace = false;
        let mut i: usize = 0;
        while i < self.cards.len()
            invariant
                0 <= i <= self.cards@.len(),
                total as int == capped(hard_total(self.cards@.take(i as int))),
                has_ace == (ace_count(self.cards@.take(i as int)) > 0),
            decreases self.cards@.len() - i,
        {
            let face = self.cards[i].face;
            proof {
                let before = self.cards@.take(i as int);
                assert(self.cards@.take(i + 1) =~= before.push(self.cards@[i as int]));
                lemma_push_card(before, self.cards@[i as int]);
                lemma_total_bounds(before);
            }
            let points: u8 = if face.is_ace() {
                has_ace = true;
                1
            } else {
                face.value()
            };
            total = if total > 255 - points {
                255
            } else {
                total + points
            };
            i += 1;
        }
        proof {
            assert(self.cards@.take(i as int) =~= self.cards@);
        }
        (total, has_ace)
    }

    /// The blackjack value of the hand: every ace counts as 11, and then as
    /// 1, one ace after the other, for as long as the total is over 21. A
    /// total over 255 is given as 255.
    pub fn value(&self) -> (v: u8)
        ensures
            v as int == capped(hand_value(self@)),
    {
        let (total, has_ace) = self.totals();
        if has_ace && total <= 11 {
            total + 10
        } else {
            total
        }
    }

    /// Whether an ace of the hand counts as 11 in its value.
    pub fn is_soft(&self) -> (b: bool)
        ensures
            b == is_soft(self@),
    {
        let (total, has_ace) = self.totals();
        has_ace && total <= 11
    }

    /// Whether the hand holds exactly two cards of one face.
    pub fn is_pair(&self) -> (b: bool)
        ensures
            b == is_pair(self@),
    {
        self.cards.len() == 2 && self.cards[0].face == self.cards[1].face
    }

    /// Whether the hand is worth 21 with exactly two cards.
    pub fn is_blackjack(&self) -> (b: bool)
        ensures
            b == is_blackjack(self@),
    {
        self.cards.len() == 2 && self.value() == 21
    }

    /// Whether the hand is worth more than 21.
    pub fn is_bust(&self) -> (b: bool)
        ensures
            b == (hand_value(self@) > 21),
    {
        self.value() > 21
    }

    /// Empties the hand and gives back the cards it held, in order.
    pub fn discard_hand(&mut self) -> (cards: Vec<Card>)
        ensures
            cards@ == old(self)@,
            final(self)@ == Seq::<Card>::empty(),
    {
        let mut cards: Vec<Card> = Vec::new();
        cards.append(&mut self.cards);
        cards
    }

    /// The number of cards in the hand.
    pub fn len(&self) -> (n: usize)
        ensures
            n == self@.len(),
    {
        self.cards.len()
    }

    /// Whether the hand holds no card.
    pub fn is_empty(&self) -> (b: bool)
        ensures
            b == (self@.len() == 0),
    {
        self.len() == 0
    }
}

} // verus!
