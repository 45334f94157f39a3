use crate::cards::card::{face_at, suit_at, Card, Face, Suit};
use crate::cards::hand::lemma_no_cards;
use rand::seq::SliceRandom;
use vstd::multiset::Multiset;
use vstd::prelude::*;

verus! {

/// The number of cards in the deck.
pub const DECK_SIZE: usize = 52;

/// The 52 cards in factory order: clubs, diamonds, hearts, spades, each suit
/// from ace to king.
pub open spec fn standard_deck() -> Seq<Card> {
    Seq::new(52, |i: int| Card { suit: suit_at(i / 13), face: face_at(i % 13) })
}

/// The cards of the deck, each once, in no order.
pub open spec fn full_deck() -> Multiset<Card> {
    standard_deck().to_multiset()
}

/// The deck holds 52 cards, and every card there is exactly once.
pub proof fn lemma_deck_holds_each_card_once(card: Card)
    ensures
        standard_deck().len() == 52,
        standard_deck()[card.suit.index() * 13 + card.face.index()] == card,
        full_deck().count(card) == 1,
        full_deck().len() == 52,
{
    let deck = standard_deck();
    assert forall|i: int, j: int|
        0 <= i < deck.len() && 0 <= j < deck.len() && i != j implies deck[i] != deck[j] by {
        if deck[i] == deck[j] {
            assert(suit_at(i / 13).index() == i / 13);
            assert(suit_at(j / 13).index() == j / 13);
            assert(face_at(i % 13).index() == i % 13);
            assert(face_at(j % 13).index() == j % 13);
        }
    }
    deck.lemma_multiset_has_no_duplicates();
    let at = card.suit.index() * 13 + card.face.index();
    assert(deck[at] == card);
    assert(deck.contains(card));
    deck.to_multiset_ensures();
}

/// Calls `SliceRandom::shuffle` of rand on the cards, with the generator of
/// `rand::thread_rng`. The order that comes out is left open; the claim is
/// that the same cards are there afterwards, each as often as before, which
/// holds because the outside function only swaps elements of the slice.
#[verifier::external_body]
fn shuffle_cards(cards: &mut Vec<Card>)
    ensures
        final(cards)@.to_multiset() == old(cards)@.to_multiset(),
{
    let mut rng = rand::thread_rng();
    cards.shuffle(&mut rng);
}

/// A row of cards with no cards beside it is the same cards.
proof fn lemma_empty_adds_nothing(cards: Seq<Card>)
    ensures
        cards.to_multiset().add(Seq::<Card>::empty().to_multiset()) == cards.to_multiset(),
        Seq::<Card>::empty().to_multiset().add(cards.to_multiset()) == cards.to_multiset(),
{
    lemma_no_cards();
    assert(cards.to_multiset().add(Seq::<Card>::empty().to_multiset()) =~= cards.to_multiset());
    assert(Seq::<Card>::empty().to_multiset().add(cards.to_multiset()) =~= cards.to_multiset());
}

/// A shoe that holds the whole deck holds 52 cards.
pub proof fn lemma_full_shoe(shoe: Shoe)
    requires
        shoe.contents() == full_deck(),
    ensures
        shoe.total() == 52,
{
    vstd::seq_lib::to_multiset_len(shoe.stack());
    vstd::seq_lib::to_multiset_len(shoe.pile());
    vstd::seq_lib::to_multiset_len(standard_deck());
}

/// The supply of cards: the stack that is dealt from, top last, and the pile
/// of cards that have been played.
#[derive(Debug)]
pub struct Shoe {
    cards: Vec<Card>,
    discards: Vec<Card>,
}

impl Shoe {
    /// The stack, bottom first.
    pub closed spec fn stack(&self) -> Seq<Card> {
        self.cards@
    }

    /// The discard pile, oldest first.
    pub closed spec fn pile(&self) -> Seq<Card> {
        self.discards@
    }

    /// The cards the shoe holds, stack and pile together, in no order.
    pub open spec fn contents(&self) -> Multiset<Card> {
        self.stack().to_multiset().add(self.pile().to_multiset())
    }

    /// The number of cards the shoe holds, stack and pile together.
    pub open spec fn total(&self) -> nat {
        self.stack().len() + self.pile().len()
    }

    /// A shoe with the full deck on the stack in factory order, the king of
    /// spades on top, and nothing discarded.
    pub fn new() -> (shoe: Shoe)
        ensures
            shoe.stack() == standard_deck(),
            shoe.pile() == Seq::<Card>::empty(),
            shoe.contents() == full_deck(),
    {
        let mut cards: Vec<Card> = Vec::new();
        let mut i: u8 = 0;
        while i < 52
            invariant
                0 <= i <= 52,
                cards@.len() == i,
                forall|j: int| 0 <= j < i ==> cards@[j] == standard_deck()[j],
            decreases 52 - i,
        {
            cards.push(Card { suit: Suit::from_index(i / 13), face: Face::from_index(i % 13) });
            i += 1;
        }
        assert(cards@ =~= standard_deck());
        proof {
            lemma_empty_adds_nothing(cards@);
        }
        Shoe { cards, discards: Vec::new() }
    }

    /// A shoe with the given cards on the stack, the last one on top, and
    /// nothing discarded.
    pub fn stacked(cards: Vec<Card>) -> (shoe: Shoe)
        ensures
            shoe.stack() == cards@,
            shoe.pile() == Seq::<Card>::empty(),
            shoe.contents() == cards@.to_multiset(),
    {
        proof {
            lemma_empty_adds_nothing(cards@);
        }
        Shoe { cards, discards: Vec::new() }
    }

    /// The number of cards on the stack.
    pub fn len(&self) -> (n: usize)
        ensures
            n == self.stack().len(),
    {
        self.cards.len()
    }

    /// Whether the stack is empty.
    pub fn is_empty(&self) -> (b: bool)
        ensures
            b == (self.stack().len() == 0),
    {
        self.cards.len() == 0
    }

    /// The number of cards on the discard pile.
    pub fn discarded(&self) -> (n: usize)
        ensures
            n == self.pile().len(),
    {
        self.discards.len()
    }

    /// Whether the next deal has to reshuffle: the stack is empty and the
    /// pile is not.
    pub fn needs_shuffle(&self) -> (b: bool)
        ensures
            b == (self.stack().len() == 0 && self.pile().len() > 0),
    {
        self.cards.len() == 0 && self.discards.len() > 0
    }

    /// Folds the discard pile into the stack and puts the stack in a random
    /// order. No card is lost or made.
    pub fn shuffle(&mut self)
        ensures
            final(self).stack().to_multiset() == old(self).stack().to_multiset().add(
                old(self).pile().to_multiset(),
            ),
            final(self).stack().len() == old(self).stack().len() + old(self).pile().len(),
            final(self).pile() == Seq::<Card>::empty(),
            final(self).contents() == old(self).contents(),
    {
        self.cards.append(&mut self.discards);
        let ghost folded = self.cards@;
        shuffle_cards(&mut self.cards);
        proof {
            vstd::seq_lib::lemma_multiset_commutative(old(self).cards@, old(self).discards@);
            vstd::seq_lib::to_multiset_len(folded);
            vstd::seq_lib::to_multiset_len(self.cards@);
            lemma_empty_adds_nothing(self.cards@);
        }
    }

    /// Takes the top card off the stack. With an empty stack the discard
    /// pile is first folded in and shuffled, so a card comes as long as the
    /// shoe holds one at all.
    pub fn deal(&mut self) -> (card: Option<Card>)
        ensures
            old(self).stack().len() > 0 ==> card == Some(old(self).stack().last())
                && final(self).stack() == old(self).stack().drop_last() && final(self).pile()
                == old(self).pile(),
            old(self).stack().len() == 0 && old(self).pile().len() > 0 ==> card is Some
                && final(self).stack().push(card.unwrap()).to_multiset() == old(
                self).pile().to_multiset() && final(self).stack().len() + 1 == old(
                self).pile().len() && final(self).pile() == Seq::<Card>::empty(),
            old(self).total() == 0 ==> card is None && final(self).stack() == old(self).stack()
                && final(self).pile() == old(self).pile(),
            card is Some ==> final(self).total() + 1 == old(self).total(),
            card is Some ==> old(self).contents() == final(self).contents().insert(card.unwrap()),
            card is None ==> final(self).contents() == old(self).contents(),
    {
        if self.cards.len() == 0 && self.discards.len() > 0 {
            self.shuffle();
            proof {
                assert(old(self).stack().to_multiset() =~= Seq::<Card>::empty().to_multiset()) by {
                    assert(old(self).stack() =~= Seq::<Card>::empty());
                }
                assert(Seq::<Card>::empty().to_multiset().add(old(self).pile().to_multiset())
                    =~= old(self).pile().to_multiset()) by {
                    vstd::seq_lib::to_multiset_len(Seq::<Card>::empty());
                    assert(Seq::<Card>::empty().to_multiset().len() == 0);
                }
            }
            let ghost shuffled = self.cards@;
            let card = self.cards.pop();
            proof {
                assert(self.cards@.push(card.unwrap()) =~= shuffled);
                vstd::seq_lib::to_multiset_build(self.cards@, card.unwrap());
                lemma_empty_adds_nothing(shuffled);
                lemma_empty_adds_nothing(self.cards@);
                assert(old(self).contents() =~= self.contents().insert(card.unwrap()));
            }
            card
        } else {
            let card = self.cards.pop();
            proof {
                if old(self).stack().len() > 0 {
                    assert(self.cards@ =~= old(self).stack().drop_last());
                    assert(self.cards@.push(card.unwrap()) =~= old(self).stack());
                    vstd::seq_lib::to_multiset_build(self.cards@, card.unwrap());
                    assert(old(self).contents() =~= self.contents().insert(card.unwrap()));
                }
            }
            card
        }
    }

    /// Puts the cards on the discard pile, in their order, and leaves the
    /// vector empty.
    pub fn discard(&mut self, cards: &mut Vec<Card>)
        ensures
            final(self).pile() == old(self).pile() + old(cards)@,
            final(self).stack() == old(self).stack(),
            final(cards)@ == Seq::<Card>::empty(),
            final(self).contents() == old(self).contents().add(old(cards)@.to_multiset()),
    {
        proof {
            vstd::seq_lib::lemma_multiset_commutative(old(self).discards@, old(cards)@);
            assert(old(self).contents().add(old(cards)@.to_multiset())
                =~= old(self).cards@.to_multiset().add(
                old(self).discards@.to_multiset().add(old(cards)@.to_multiset()),
            ));
        }
        self.discards.append(cards);
    }
}

} // verus!
