use crate::ai::action::Action;
use crate::ai::betting::MIN_BET;
use crate::cards::card::Card;
use crate::cards::hand::{
    capped, hand_value, is_blackjack, is_pair, lemma_card_added, lemma_no_cards,
    lemma_total_bounds, Hand,
};
use crate::cards::shoe::{
    full_deck, lemma_deck_holds_each_card_once, lemma_full_shoe, Shoe,
};
use crate::game::round::{payout, settle, RoundError, RoundResult};
use crate::game::rules::{
    all_play_by_rules, bankroll_ok, cards_held, cards_needed, cards_of, counts_moved,
    counts_reset, credited, debit, hand_ok, hand_result, hands_ok, lemma_card_to_hand,
    lemma_cards_kept, lemma_hands_counted, lemma_hands_push, lemma_hands_update,
    lemma_none_seated, lemma_seated_prefix, lemma_split_cards, lemma_staked_push,
    lemma_staked_update, line_grown, open_hands, opened, paid, played, plays_by_rules, refusal,
    same_accounts, same_funds, same_players, seated, settled, split_off, staked,
};
use crate::player::Player;
use vstd::multiset::Multiset;
use vstd::prelude::*;

verus! {

/// The largest balance, to either side of zero, with which a player may sit
/// down to a round.
pub const MAX_BALANCE: i64 = 1_000_000_000_000_000;

/// The most players that one deck can deal in: two cards each, and two for
/// the dealer.
pub const MAX_SEATED: usize = 25;

/// A hand in play with the wager that backs it.
#[derive(Debug)]
pub struct ActiveHand {
    /// The identity of the player who owns the hand.
    pub player: u8,
    /// The owner's position among the players.
    pub seat: usize,
    pub hand: Hand,
    pub pot: i64,
    /// Set when the first two cards were worth 21.
    pub blackjack: bool,
    pub completed: bool,
}

/// Deals one card face up: every betting strategy is told of the card, and
/// then of the reshuffle where the deal made one. A reshuffle leaves every
/// running count at zero; without one every count has moved on by the card.
/// No card comes only when the shoe holds none, and then nobody is told
/// anything.
pub fn deal(shoe: &mut Shoe, players: &mut Vec<Player>) -> (card: Option<Card>)
    ensures
        card is Some <==> old(shoe).total() > 0,
        card is Some ==> final(shoe).total() + 1 == old(shoe).total(),
        card is None ==> final(shoe).total() == 0,
        card is Some ==> old(shoe).contents() == final(shoe).contents().insert(card.unwrap()),
        card is None ==> final(shoe).contents() == old(shoe).contents() && final(shoe).stack()
            == old(shoe).stack() && final(shoe).pile() == old(shoe).pile(),
        old(shoe).stack().len() > 0 ==> card == Some(old(shoe).stack().last()) && final(
            shoe).stack() == old(shoe).stack().drop_last() && final(shoe).pile() == old(
            shoe).pile(),
        same_accounts(old(players)@, final(players)@),
        old(shoe).stack().len() == 0 && old(shoe).pile().len() > 0 ==> counts_reset(
            final(players)@,
        ),
        old(shoe).stack().len() > 0 ==> counts_moved(
            old(players)@,
            final(players)@,
            card.unwrap(),
        ),
        card is None ==> final(players)@ == old(players)@,
{
    secret_deal(shoe, players, true)
}

/// Deals one card face down. The betting strategies are told of the card
/// only where `counted` is set; they are told of a reshuffle either way.
/// Where the card is not counted and nothing was reshuffled, nobody is told
/// anything.
pub fn secret_deal(shoe: &mut Shoe, players: &mut Vec<Player>, counted: bool) -> (card: Option<
    Card,
>)
    ensures
        card is Some <==> old(shoe).total() > 0,
        card is Some ==> final(shoe).total() + 1 == old(shoe).total(),
        card is None ==> final(shoe).total() == 0,
        card is Some ==> old(shoe).contents() == final(shoe).contents().insert(card.unwrap()),
        card is None ==> final(shoe).contents() == old(shoe).contents() && final(shoe).stack()
            == old(shoe).stack() && final(shoe).pile() == old(shoe).pile(),
        old(shoe).stack().len() > 0 ==> card == Some(old(shoe).stack().last()) && final(
            shoe).stack() == old(shoe).stack().drop_last() && final(shoe).pile() == old(
            shoe).pile(),
        same_accounts(old(players)@, final(players)@),
        old(shoe).stack().len() == 0 && old(shoe).pile().len() > 0 ==> counts_reset(
            final(players)@,
        ),
        counted && old(shoe).stack().len() > 0 ==> counts_moved(
            old(players)@,
            final(players)@,
            card.unwrap(),
        ),
        !counted && old(shoe).stack().len() > 0 ==> final(players)@ == old(players)@,
        card is None ==> final(players)@ == old(players)@,
{
    let shuffled = shoe.needs_shuffle();
    let dealt = shoe.deal();
    if let Some(card) = dealt {
        if counted {
            let mut i: usize = 0;
            while i < players.len()
                invariant
                    0 <= i <= players@.len(),
                    same_accounts(old(players)@, players@),
                    forall|j: int|
                        0 <= j < i ==> (#[trigger] players@[j]).running_count() == old(
                            players)@[j].count_after(card),
                    forall|j: int|
                        i <= j < players@.len() ==> (#[trigger] players@[j]) == old(players)@[j],
                decreases players@.len() - i,
            {
                players[i].card_dealt(&card);
                i += 1;
            }
        }
        if shuffled {
            let mut i: usize = 0;
            while i < players.len()
                invariant
                    0 <= i <= players@.len(),
                    same_accounts(old(players)@, players@),
                    forall|j: int| 0 <= j < i ==> (#[trigger] players@[j]).running_count() == 0,
                decreases players@.len() - i,
            {
                players[i].shuffled();
                i += 1;
            }
        }
    }
    dealt
}

/// The table: the shoe, the players, the dealer's hand and the hands of the
/// round that is being played.
pub struct Game {
    shoe: Shoe,
    pub players: Vec<Player>,
    dealer_hand: Hand,
    hands: Vec<ActiveHand>,
    count_hole_card: bool,
}

impl Game {
    /// The players, in the order of their seats.
    pub closed spec fn seats(&self) -> Seq<Player> {
        self.players@
    }

    /// The number of cards in the shoe, stack and discard pile together.
    pub closed spec fn cards_in_shoe(&self) -> nat {
        self.shoe.total()
    }

    /// The cards in the shoe, stack and discard pile together, in no
    /// order.
    pub closed spec fn shoe_cards(&self) -> Multiset<Card> {
        self.shoe.contents()
    }

    /// The stack of the shoe, bottom first: the last card is dealt next.
    pub closed spec fn stack(&self) -> Seq<Card> {
        self.shoe.stack()
    }

    /// The discard pile of the shoe, oldest first.
    pub closed spec fn pile(&self) -> Seq<Card> {
        self.shoe.pile()
    }

    /// The dealer's cards.
    pub closed spec fn dealer_cards(&self) -> Seq<Card> {
        self.dealer_hand@
    }

    /// The hands of the round, in the order they were made.
    pub closed spec fn live_hands(&self) -> Seq<ActiveHand> {
        self.hands@
    }

    /// Whether the betting strategies are told of the dealer's hole card.
    pub closed spec fn counts_hole_card(&self) -> bool {
        self.count_hole_card
    }

    /// The cards of the table: those in the shoe, the dealer's and those in
    /// the hands.
    pub open spec fn cards_on_table(&self) -> nat {
        self.cards_in_shoe() + self.dealer_cards().len() + cards_held(self.live_hands())
    }

    /// All cards of the table, in no order.
    pub open spec fn all_cards(&self) -> Multiset<Card> {
        self.shoe_cards().add(self.dealer_cards().to_multiset()).add(cards_of(self.live_hands()))
    }

    /// No card of the deck is missing from the table and none is there
    /// twice.
    pub open spec fn deck_is_whole(&self) -> bool {
        &&& self.all_cards() == full_deck()
        &&& self.cards_on_table() == 52
    }

    /// The table between two rounds: the whole deck is in the shoe and no
    /// hand is out.
    pub open spec fn between_rounds(&self) -> bool {
        &&& self.deck_is_whole()
        &&& self.dealer_cards().len() == 0
        &&& self.live_hands().len() == 0
    }

    /// The table during a round: no card is missing, every hand is in
    /// order, and no balance is out of the range in which the wagers of the
    /// round can be taken and paid.
    pub open spec fn in_round(&self) -> bool {
        &&& self.deck_is_whole()
        &&& hands_ok(self.live_hands(), self.seats().len() as int)
        &&& forall|j: int|
            0 <= j < self.seats().len() ==> (#[trigger] self.seats()[j]).balance <= MAX_BALANCE
                && self.seats()[j].balance + MAX_BALANCE * (1 + cards_held(self.live_hands()))
                >= 0
    }

    /// What is left to do before every hand is completed: a step of play
    /// takes a card from the shoe or completes a hand.
    pub open spec fn work_left(&self) -> nat {
        self.cards_in_shoe() + open_hands(self.live_hands())
    }

    /// On a table whose deck is whole every card is in one place, once, and
    /// the cards are 52.
    pub proof fn lemma_every_card_once(&self, card: Card)
        requires
            self.deck_is_whole(),
        ensures
            self.all_cards().count(card) == 1,
            self.cards_on_table() == 52,
    {
        lemma_deck_holds_each_card_once(card);
    }

    /// A table with a fresh deck in factory order, on which the betting
    /// strategies are told of the dealer's hole card.
    pub fn new(players: Vec<Player>) -> (game: Game)
        ensures
            game.between_rounds(),
            game.seats() == players@,
            game.counts_hole_card(),
    {
        let shoe = Shoe::new();
        let dealer_hand = Hand::new();
        let game = Game { dealer_hand, players, hands: Vec::new(), shoe, count_hole_card: true };
        proof {
            lemma_full_shoe(game.shoe);
            lemma_no_cards();
            assert(game.all_cards() =~= full_deck());
        }
        game
    }

    /// A table that deals from the given shoe, which holds the whole deck.
    pub fn with_shoe(players: Vec<Player>, shoe: Shoe) -> (game: Game)
        requires
            shoe.contents() == full_deck(),
        ensures
            game.between_rounds(),
            game.seats() == players@,
            game.counts_hole_card(),
    {
        let dealer_hand = Hand::new();
        let game = Game { dealer_hand, players, hands: Vec::new(), shoe, count_hole_card: true };
        proof {
            lemma_full_shoe(game.shoe);
            lemma_no_cards();
            assert(game.all_cards() =~= full_deck());
        }
        game
    }

    /// The players, in the order of their seats.
    pub fn players(&self) -> (players: &Vec<Player>)
        ensures
            players@ == self.seats(),
    {
        &self.players
    }

    /// Whether every balance is within the limit for sitting down.
    pub fn bankroll_in_range(&self) -> (b: bool)
        ensures
            b == bankroll_ok(self.seats()),
    {
        let mut i: usize = 0;
        while i < self.players.len()
            invariant
                0 <= i <= self.players@.len(),
                forall|j: int|
                    0 <= j < i ==> -MAX_BALANCE <= (#[trigger] self.players@[j]).balance
                        <= MAX_BALANCE,
            decreases self.players@.len() - i,
        {
            let balance = self.players[i].balance;
            if balance < -MAX_BALANCE || balance > MAX_BALANCE {
                return false;
            }
            i += 1;
        }
        true
    }

    /// The hands of the round that is being played.
    pub fn hands(&self) -> (hands: &Vec<ActiveHand>)
        ensures
            hands@ == self.live_hands(),
    {
        &self.hands
    }

    /// The dealer's hand.
    pub fn dealer_hand(&self) -> (hand: &Hand)
        ensures
            hand@ == self.dealer_cards(),
    {
        &self.dealer_hand
    }

    /// The shoe.
    pub fn shoe(&self) -> (shoe: &Shoe)
        ensures
            shoe.total() == self.cards_in_shoe(),
            shoe.contents() == self.shoe_cards(),
            shoe.stack() == self.stack(),
            shoe.pile() == self.pile(),
    {
        &self.shoe
    }

    /// The same table with the choice made whether the betting strategies
    /// are told of the dealer's hole card.
    pub fn counting_hole_card(self, counted: bool) -> (game: Game)
        ensures
            game.counts_hole_card() == counted,
            game.seats() == self.seats(),
            game.cards_in_shoe() == self.cards_in_shoe(),
            game.shoe_cards() == self.shoe_cards(),
            game.stack() == self.stack(),
            game.pile() == self.pile(),
            game.dealer_cards() == self.dealer_cards(),
            game.live_hands() == self.live_hands(),
    {
        let mut game = self;
        game.count_hole_card = counted;
        game
    }

    /// The number of cards that can still be dealt.
    fn cards_left(&self) -> (n: usize)
        requires
            self.cards_on_table() == 52,
        ensures
            n == self.cards_in_shoe(),
    {
        self.shoe.len() + self.shoe.discarded()
    }

    /// Moves every card of the table to the discard pile and drops the
    /// hands.
    fn clear_table(&mut self)
        requires
            old(self).deck_is_whole(),
        ensures
            final(self).between_rounds(),
            final(self).seats() == old(self).seats(),
            final(self).counts_hole_card() == old(self).counts_hole_card(),
    {
        self.shoe.discard(&mut self.dealer_hand.cards);
        proof {
            lemma_no_cards();
            assert(self.all_cards() =~= old(self).all_cards());
        }
        while self.hands.len() > 0
            invariant
                self.deck_is_whole(),
                self.dealer_hand@.len() == 0,
                self.players@ == old(self).players@,
                self.count_hole_card == old(self).count_hole_card,
            decreases self.hands@.len(),
        {
            let ghost before = self.hands@;
            let popped = self.hands.pop();
            if let Some(mut hand) = popped {
                proof {
                    assert(self.hands@ =~= before.drop_last());
                    assert(before.last() == hand);
                }
                let ghost all = self.all_cards().add(hand.hand@.to_multiset());
                proof {
                    assert(all =~= full_deck());
                }
                self.shoe.discard(&mut hand.hand.cards);
                proof {
                    assert(self.all_cards() =~= all);
                }
            }
        }
    }

    /// Calls a round off: every pot goes back to the player who owns the
    /// hand, and every card to the discard pile.
    fn void_round(&mut self)
        requires
            old(self).in_round(),
        ensures
            final(self).between_rounds(),
            final(self).counts_hole_card() == old(self).counts_hole_card(),
            same_players(old(self).seats(), final(self).seats()),
            forall|j: int|
                0 <= j < final(self).seats().len() ==> (#[trigger] final(self).seats()[j]).balance
                    == old(self).seats()[j].balance + staked(old(self).live_hands(), j),
    {
        let mut k: usize = 0;
        proof {
            lemma_hands_counted(self.hands@, self.players@.len() as int);
        }
        while k < self.hands.len()
            invariant
                0 <= k <= self.hands@.len(),
                self.hands@.len() <= 26,
                self.hands@ == old(self).hands@,
                self.dealer_hand@ == old(self).dealer_hand@,
                self.shoe.total() == old(self).shoe.total(),
                self.shoe.contents() == old(self).shoe.contents(),
                self.count_hole_card == old(self).count_hole_card,
                hands_ok(self.hands@, self.players@.len() as int),
                same_players(old(self).players@, self.players@),
                forall|j: int|
                    0 <= j < self.players@.len() ==> (#[trigger] self.players@[j]).balance == old(
                        self).players@[j].balance + staked(self.hands@.take(k as int), j),
                forall|j: int|
                    0 <= j < self.players@.len() ==> -53 * MAX_BALANCE <= (
                    #[trigger] self.players@[j]).balance <= MAX_BALANCE + 2 * MAX_BALANCE * k,
            decreases self.hands@.len() - k,
        {
            proof {
                assert(self.hands@.take(k + 1).drop_last() =~= self.hands@.take(k as int));
            }
            let seat = self.hands[k].seat;
            let pot = self.hands[k].pot;
            self.players[seat].payout(pot);
            k += 1;
        }
        proof {
            assert(self.hands@.take(k as int) =~= self.hands@);
        }
        self.clear_table();
    }

    /// Counts the players who can cover the table minimum.
    fn count_seated(&self) -> (n: usize)
        ensures
            n == seated(self.players@),
    {
        let mut n: usize = 0;
        let mut i: usize = 0;
        while i < self.players.len()
            invariant
                0 <= i <= self.players@.len(),
                n == seated(self.players@.take(i as int)),
                n <= i,
            decreases self.players@.len() - i,
        {
            proof {
                assert(self.players@.take(i + 1).drop_last() =~= self.players@.take(i as int));
            }
            if self.players[i].balance >= MIN_BET {
                n += 1;
            }
            i += 1;
        }
        proof {
            assert(self.players@.take(i as int) =~= self.players@);
        }
        n
    }

    /// Opens a round: every player who can cover the table minimum places
    /// a wager and gets two cards, in the order of the seats, and then the
    /// dealer gets two, the second face down. One deck deals in 25 players
    /// at most: with more the round is refused and nothing is touched.
    pub fn initial_deal(&mut self) -> (r: Result<(), RoundError>)
        requires
            old(self).between_rounds(),
            bankroll_ok(old(self).seats()),
        ensures
            r is Ok <==> seated(old(self).seats()) <= MAX_SEATED,
            r is Err ==> r == Err::<(), RoundError>(RoundError::OutOfCards) && final(
                self).between_rounds() && final(self).seats() == old(self).seats(),
            r is Ok ==> first_dealt(*old(self), *final(self)),
            forall|j: int|
                0 <= j < final(self).seats().len() && old(self).seats()[j].balance < MIN_BET ==> (
                #[trigger] final(self).seats()[j]).balance == old(self).seats()[j].balance,
            same_players(old(self).seats(), final(self).seats()),
            final(self).counts_hole_card() == old(self).counts_hole_card(),
    {
        let wanted = self.count_seated();
        if wanted > MAX_SEATED {
            return Err(RoundError::OutOfCards);
        }
        let mut i: usize = 0;
        while i < self.players.len()
            invariant
                0 <= i <= self.players@.len(),
                wanted == seated(old(self).players@),
                wanted <= MAX_SEATED,
                same_players(old(self).players@, self.players@),
                self.count_hole_card == old(self).count_hole_card,
                forall|j: int|
                    i <= j < self.players@.len() ==> (#[trigger] self.players@[j]).balance == old(
                        self).players@[j].balance,
                forall|j: int|
                    0 <= j < self.players@.len() ==> -MAX_BALANCE <= (
                    #[trigger] self.players@[j]).balance <= MAX_BALANCE,
                self.hands@.len() == seated(old(self).players@.take(i as int)),
                forall|k: int| 0 <= k < self.hands@.len() ==> (#[trigger] self.hands@[k]).seat < i,
                forall|k: int, n: int|
                    0 <= k < n < self.hands@.len() ==> (#[trigger] self.hands@[k]).seat < (
                    #[trigger] self.hands@[n]).seat,
                forall|j: int|
                    0 <= j < self.players@.len() && old(self).players@[j].balance < MIN_BET ==> (
                    #[trigger] self.players@[j]).balance == old(self).players@[j].balance,
                self.dealer_hand@.len() == 0,
                same_funds(old(self).players@, old(self).hands@, self.players@, self.hands@),
                old(self).shoe.stack().len() >= 2 * wanted + 2 ==> {
                    let stack = old(self).shoe.stack();
                    let top = stack.len() as int;
                    &&& self.shoe.stack() == stack.take(top - 2 * self.hands@.len())
                    &&& self.shoe.pile() == old(self).shoe.pile()
                    &&& forall|k: int|
                        0 <= k < self.hands@.len() ==> (#[trigger] self.hands@[k]).hand@ == seq![
                            stack[top - 1 - 2 * k],
                            stack[top - 2 - 2 * k],
                        ]
                },
                self.all_cards() == full_deck(),
                self.shoe.total() + 2 * self.hands@.len() == 52,
                cards_held(self.hands@) == 2 * self.hands@.len(),
                hands_ok(self.hands@, self.players@.len() as int),
                forall|k: int|
                    0 <= k < self.hands@.len() ==> opened(
                        #[trigger] self.hands@[k],
                        old(self).players@,
                    ),
            decreases self.players@.len() - i,
        {
            proof {
                assert(old(self).players@.take(i + 1).drop_last() =~= old(self).players@.take(
                    i as int,
                ));
                lemma_seated_prefix(old(self).players@, i + 1);
            }
            // Don't deal in players that can't make minimum bet
            if self.players[i].balance >= MIN_BET {
                let bet = self.players[i].bet();
                let player = self.players[i].id;
                let mut hand = Hand::new();
                let first = deal(&mut self.shoe, &mut self.players);
                let second = deal(&mut self.shoe, &mut self.players);
                if let Some(card) = first {
                    hand.add_card(card);
                }
                if let Some(card) = second {
                    hand.add_card(card);
                }
                let blackjack = hand.value() == 21;
                let ghost before = self.hands@;
                let active = ActiveHand {
                    player,
                    seat: i,
                    hand,
                    pot: bet,
                    blackjack,
                    completed: false,
                };
                self.hands.push(active);
                proof {
                    let stack = old(self).shoe.stack();
                    let top = stack.len() as int;
                    if top >= 2 * wanted + 2 {
                        let h = before.len() as int;
                        assert(stack.take(top - 2 * h).drop_last() =~= stack.take(top - 2 * h - 1));
                        assert(stack.take(top - 2 * h - 1).drop_last() =~= stack.take(
                            top - 2 * h - 2,
                        ));
                        assert(active.hand@ =~= seq![
                            stack[top - 1 - 2 * h],
                            stack[top - 2 - 2 * h],
                        ]);
                    }
                    lemma_hands_push(before, active);
                    lemma_staked_push(before, active);
                    lemma_no_cards();
                    lemma_card_added(Seq::<Card>::empty(), first.unwrap());
                    lemma_card_added(Seq::<Card>::empty().push(first.unwrap()), second.unwrap());
                    assert(self.all_cards() =~= full_deck());
                }
            }
            i += 1;
        }
        proof {
            assert(old(self).players@.take(i as int) =~= old(self).players@);
        }
        let ghost none = self.dealer_hand@;
        let shown = deal(&mut self.shoe, &mut self.players);
        let hidden = secret_deal(&mut self.shoe, &mut self.players, self.count_hole_card);
        if let Some(card) = shown {
            self.dealer_hand.add_card(card);
        }
        if let Some(card) = hidden {
            self.dealer_hand.add_card(card);
        }
        proof {
            let stack = old(self).shoe.stack();
            let top = stack.len() as int;
            if top >= 2 * wanted + 2 {
                let h = self.hands@.len() as int;
                assert(stack.take(top - 2 * h).drop_last() =~= stack.take(top - 2 * h - 1));
                assert(stack.take(top - 2 * h - 1).drop_last() =~= stack.take(top - 2 * h - 2));
                assert(self.dealer_hand@ =~= seq![stack[top - 1 - 2 * h], stack[top - 2 - 2 * h]]);
            }
            assert(none =~= Seq::<Card>::empty());
            lemma_no_cards();
            lemma_card_added(none, shown.unwrap());
            lemma_card_added(none.push(shown.unwrap()), hidden.unwrap());
            assert(self.all_cards() =~= full_deck());
        }
        Ok(())
    }

    /// Plays the dealer's hand: the dealer draws for as long as the hand is
    /// worth less than 17.
    pub fn dealer_play(&mut self) -> (r: Result<(), RoundError>)
        requires
            old(self).in_round(),
        ensures
            final(self).in_round(),
            final(self).live_hands() == old(self).live_hands(),
            same_accounts(old(self).seats(), final(self).seats()),
            final(self).counts_hole_card() == old(self).counts_hole_card(),
            r is Ok ==> hand_value(final(self).dealer_cards()) >= 17,
            r is Err ==> r == Err::<(), RoundError>(RoundError::OutOfCards) && final(
                self).cards_in_shoe() == 0 && hand_value(final(self).dealer_cards()) < 17,
            old(self).dealer_cards().is_prefix_of(final(self).dealer_cards()),
            hand_value(old(self).dealer_cards()) >= 17 ==> final(self).dealer_cards() == old(
                self).dealer_cards(),
            drawn_below_17(old(self).dealer_cards(), final(self).dealer_cards()),
            dealer_drew_from_top(*old(self), *final(self)),
    {
        proof {
            assert(self.shoe.stack().take(self.shoe.stack().len() as int) =~= self.shoe.stack());
        }
        while self.dealer_hand.value() < 17
            invariant
                self.in_round(),
                self.hands@ == old(self).hands@,
                same_accounts(old(self).players@, self.players@),
                self.count_hole_card == old(self).count_hole_card,
                old(self).dealer_hand@.is_prefix_of(self.dealer_hand@),
                hand_value(old(self).dealer_hand@) >= 17 ==> self.dealer_hand@ == old(
                    self).dealer_hand@,
                drawn_below_17(old(self).dealer_hand@, self.dealer_hand@),
                dealer_drew_from_top(*old(self), *self),
            decreases self.shoe.total(),
        {
            match deal(&mut self.shoe, &mut self.players) {
                Some(card) => {
                    let ghost drawn = self.dealer_hand@;
                    self.dealer_hand.add_card(card);
                    proof {
                        let stack = old(self).shoe.stack();
                        let top = stack.len() as int;
                        let d = drawn.len() - old(self).dealer_hand@.len();
                        if d + 1 <= top {
                            assert(stack.take(top - d).drop_last() =~= stack.take(top - d - 1));
                        }
                        lemma_card_added(drawn, card);
                        assert(self.all_cards() =~= full_deck());
                        let had = old(self).dealer_hand@.len();
                        assert forall|n: int| had <= n < self.dealer_hand@.len() implies hand_value(
                            #[trigger] self.dealer_hand@.take(n),
                        ) < 17 by {
                            if n < drawn.len() {
                                assert(self.dealer_hand@.take(n) =~= drawn.take(n));
                            } else {
                                assert(self.dealer_hand@.take(n) =~= drawn);
                            }
                        }
                    }
                },
                None => {
                    return Err(RoundError::OutOfCards);
                },
            }
        }
        Ok(())
    }

    /// Compares every hand with the dealer's and credits what it wins to
    /// the player who owns it. The results come in the order of the hands.
    pub fn settle_hands(&mut self) -> (results: Vec<RoundResult>)
        requires
            old(self).in_round(),
        ensures
            final(self).deck_is_whole(),
            final(self).live_hands() == old(self).live_hands(),
            final(self).dealer_cards() == old(self).dealer_cards(),
            final(self).cards_in_shoe() == old(self).cards_in_shoe(),
            final(self).shoe_cards() == old(self).shoe_cards(),
            final(self).counts_hole_card() == old(self).counts_hole_card(),
            settled(
                old(self).live_hands(),
                old(self).seats(),
                final(self).seats(),
                results@,
                old(self).dealer_cards(),
            ),
    {
        let dealer_value = self.dealer_hand.value();
        let dealer_blackjack = self.dealer_hand.is_blackjack();
        let mut results: Vec<RoundResult> = Vec::new();
        let mut k: usize = 0;
        proof {
            lemma_hands_counted(self.hands@, self.players@.len() as int);
        }
        while k < self.hands.len()
            invariant
                0 <= k <= self.hands@.len(),
                self.hands@.len() <= 26,
                self.hands@ == old(self).hands@,
                self.dealer_hand@ == old(self).dealer_hand@,
                self.shoe.total() == old(self).shoe.total(),
                self.shoe.contents() == old(self).shoe.contents(),
                self.count_hole_card == old(self).count_hole_card,
                hands_ok(self.hands@, self.players@.len() as int),
                dealer_value as int == capped(hand_value(self.dealer_hand@)),
                dealer_blackjack == is_blackjack(self.dealer_hand@),
                results@.len() == k,
                forall|n: int|
                    0 <= n < k ==> #[trigger] results@[n] == hand_result(
                        self.hands@[n],
                        self.dealer_hand@,
                    ),
                same_players(old(self).players@, self.players@),
                forall|j: int|
                    0 <= j < self.players@.len() ==> (#[trigger] self.players@[j]).balance == old(
                        self).players@[j].balance + credited(
                        self.hands@.take(k as int),
                        self.dealer_hand@,
                        j,
                    ),
                forall|j: int|
                    0 <= j < self.players@.len() ==> -53 * MAX_BALANCE <= (
                    #[trigger] self.players@[j]).balance <= MAX_BALANCE + 5 * MAX_BALANCE * k,
            decreases self.hands@.len() - k,
        {
            proof {
                assert(self.hands@.take(k + 1).drop_last() =~= self.hands@.take(k as int));
            }
            let player_value = self.hands[k].hand.value();
            let result = settle(
                player_value,
                self.hands[k].blackjack,
                dealer_value,
                dealer_blackjack,
            );
            // Update player's cash stack with any winnings
            let amount = payout(result, self.hands[k].pot);
            let seat = self.hands[k].seat;
            self.players[seat].payout(amount);
            results.push(result);
            k += 1;
        }
        proof {
            assert(self.hands@.take(k as int) =~= self.hands@);
        }
        results
    }

    /// One step of play on hand `i`, which is not completed. A hand worth
    /// 21 or more is completed and no strategy is asked. Otherwise the
    /// owner's action strategy decides, and `apply_action` plays what it
    /// decided or refuses it.
    pub fn play_hand(&mut self, i: usize, shown: &Card) -> (r: Result<(), RoundError>)
        requires
            old(self).in_round(),
            i < old(self).live_hands().len(),
            !old(self).live_hands()[i as int].completed,
        ensures
            final(self).in_round(),
            final(self).dealer_cards() == old(self).dealer_cards(),
            final(self).counts_hole_card() == old(self).counts_hole_card(),
            same_players(old(self).seats(), final(self).seats()),
            final(self).live_hands().len() >= old(self).live_hands().len(),
            r is Ok ==> final(self).work_left() < old(self).work_left(),
            r != Err::<(), RoundError>(RoundError::BalanceOutOfRange),
            same_funds(
                old(self).seats(),
                old(self).live_hands(),
                final(self).seats(),
                final(self).live_hands(),
            ),
            line_grown(old(self).live_hands(), final(self).live_hands()),
            hand_value(old(self).live_hands()[i as int].hand@) >= 21 ==> stepped(
                *old(self),
                *final(self),
                i as int,
                Action::Stand,
                r,
            ),
            hand_value(old(self).live_hands()[i as int].hand@) < 21 ==> exists|action: Action|
                stepped(*old(self), *final(self), i as int, action, r),
            hand_value(old(self).live_hands()[i as int].hand@) < 21 && old(
                self).seats()[old(self).live_hands()[i as int].seat as int].decision(
                old(self).live_hands()[i as int].hand@,
                *shown,
            ) is Some ==> stepped(
                *old(self),
                *final(self),
                i as int,
                old(self).seats()[old(self).live_hands()[i as int].seat as int].decision(
                    old(self).live_hands()[i as int].hand@,
                    *shown,
                ).unwrap(),
                r,
            ),
            r is Err ==> exists|action: Action|
                refused_at(*final(self), *shown, i as int, action, r->Err_0),
            r is Err ==> *final(self) == *old(self),
            r is Ok ==> exists|action: Action|
                took_step(*old(self), *final(self), *shown, i as int, action),
    {
        proof {
            lemma_total_bounds(self.hands@[i as int].hand@);
        }
        if self.hands[i].hand.value() >= 21 {
            let r = self.apply_action(i, Action::Stand);
            proof {
                assert(took_step(*old(self), *self, *shown, i as int, Action::Stand));
            }
            return r;
        }
        let seat = self.hands[i].seat;
        let action = self.players[seat].action(&self.hands[i].hand, shown);
        let r = self.apply_action(i, action);
        proof {
            assert(stepped(*old(self), *self, i as int, action, r));
            if r is Err {
                assert(refused_at(*self, *shown, i as int, action, r->Err_0));
            } else {
                assert(took_step(*old(self), *self, *shown, i as int, action));
            }
        }
        r
    }

    /// Plays an action on hand `i`, or refuses it. A refused action changes
    /// nothing. A double or a split takes the pot out of the owner's balance
    /// once more.
    /// Deals one card into hand `i`.
    fn hit_hand(&mut self, i: usize)
        requires
            old(self).in_round(),
            i < old(self).live_hands().len(),
            !old(self).live_hands()[i as int].completed,
            refusal(
                Action::Hit,
                old(self).live_hands()[i as int].hand@,
                old(self).cards_in_shoe(),
            ) is None,
        ensures
            final(self).in_round(),
            final(self).dealer_cards() == old(self).dealer_cards(),
            final(self).counts_hole_card() == old(self).counts_hole_card(),
            same_players(old(self).seats(), final(self).seats()),
            final(self).live_hands().len() >= old(self).live_hands().len(),
            final(self).work_left() < old(self).work_left(),
            same_funds(
                old(self).seats(),
                old(self).live_hands(),
                final(self).seats(),
                final(self).live_hands(),
            ),
            line_grown(old(self).live_hands(), final(self).live_hands()),
            stepped(*old(self), *final(self), i as int, Action::Hit, Ok::<(), RoundError>(())),
    {
        let ghost before = self.hands@;
        let dealt = deal(&mut self.shoe, &mut self.players);
        if let Some(card) = dealt {
            self.hands[i].hand.add_card(card);
        }
        proof {
            assert(self.hands@[i as int].hand@.drop_last() =~= before[i as int].hand@);
            assert(self.hands@ =~= before.update(i as int, self.hands@[i as int]));
            lemma_hands_update(before, i as int, self.hands@[i as int]);
            lemma_staked_update(before, i as int, self.hands@[i as int]);
            lemma_card_to_hand(
                old(self).shoe.contents(),
                self.shoe.contents(),
                self.dealer_hand@.to_multiset(),
                before,
                self.hands@,
                i as int,
                dealt.unwrap(),
            );
        }
    }

    /// Completes hand `i`.
    fn stand_hand(&mut self, i: usize)
        requires
            old(self).in_round(),
            i < old(self).live_hands().len(),
            !old(self).live_hands()[i as int].completed,
            refusal(
                Action::Stand,
                old(self).live_hands()[i as int].hand@,
                old(self).cards_in_shoe(),
            ) is None,
        ensures
            final(self).in_round(),
            final(self).dealer_cards() == old(self).dealer_cards(),
            final(self).counts_hole_card() == old(self).counts_hole_card(),
            same_players(old(self).seats(), final(self).seats()),
            final(self).live_hands().len() >= old(self).live_hands().len(),
            final(self).work_left() < old(self).work_left(),
            same_funds(
                old(self).seats(),
                old(self).live_hands(),
                final(self).seats(),
                final(self).live_hands(),
            ),
            line_grown(old(self).live_hands(), final(self).live_hands()),
            stepped(*old(self), *final(self), i as int, Action::Stand, Ok::<(), RoundError>(())),
    {
        let ghost before = self.hands@;
        self.hands[i].completed = true;
        proof {
            assert(self.hands@ =~= before.update(i as int, self.hands@[i as int]));
            lemma_hands_update(before, i as int, self.hands@[i as int]);
            lemma_staked_update(before, i as int, self.hands@[i as int]);
            lemma_cards_kept(before, self.hands@, i as int);
        }
    }

    /// Doubles the pot of hand `i` out of the owner's balance, deals one card
    /// into the hand and completes it.
    fn double_hand(&mut self, i: usize)
        requires
            old(self).in_round(),
            i < old(self).live_hands().len(),
            !old(self).live_hands()[i as int].completed,
            refusal(
                Action::Double,
                old(self).live_hands()[i as int].hand@,
                old(self).cards_in_shoe(),
            ) is None,
        ensures
            final(self).in_round(),
            final(self).dealer_cards() == old(self).dealer_cards(),
            final(self).counts_hole_card() == old(self).counts_hole_card(),
            same_players(old(self).seats(), final(self).seats()),
            final(self).live_hands().len() >= old(self).live_hands().len(),
            final(self).work_left() < old(self).work_left(),
            same_funds(
                old(self).seats(),
                old(self).live_hands(),
                final(self).seats(),
                final(self).live_hands(),
            ),
            line_grown(old(self).live_hands(), final(self).live_hands()),
            stepped(*old(self), *final(self), i as int, Action::Double, Ok::<(), RoundError>(())),
    {
        let ghost before = self.hands@;
        let seat = self.hands[i].seat;
        let pot = self.hands[i].pot;
        self.players[seat].deduct(pot);
        let dealt = deal(&mut self.shoe, &mut self.players);
        if let Some(card) = dealt {
            self.hands[i].hand.add_card(card);
        }
        self.hands[i].pot = pot * 2;
        self.hands[i].completed = true;
        proof {
            assert(self.hands@[i as int].hand@.drop_last() =~= before[i as int].hand@);
            assert(self.hands@ =~= before.update(i as int, self.hands@[i as int]));
            lemma_hands_update(before, i as int, self.hands@[i as int]);
            lemma_staked_update(before, i as int, self.hands@[i as int]);
            lemma_card_to_hand(
                old(self).shoe.contents(),
                self.shoe.contents(),
                self.dealer_hand@.to_multiset(),
                before,
                self.hands@,
                i as int,
                dealt.unwrap(),
            );
        }
    }

    /// Parts the pair of hand `i` into two hands, each backed by a pot of its
    /// own and each with a fresh card; both are completed where the pair was
    /// of aces.
    fn split_hand(&mut self, i: usize)
        requires
            old(self).in_round(),
            i < old(self).live_hands().len(),
            !old(self).live_hands()[i as int].completed,
            refusal(
                Action::Split,
                old(self).live_hands()[i as int].hand@,
                old(self).cards_in_shoe(),
            ) is None,
        ensures
            final(self).in_round(),
            final(self).dealer_cards() == old(self).dealer_cards(),
            final(self).counts_hole_card() == old(self).counts_hole_card(),
            same_players(old(self).seats(), final(self).seats()),
            final(self).live_hands().len() >= old(self).live_hands().len(),
            final(self).work_left() < old(self).work_left(),
            same_funds(
                old(self).seats(),
                old(self).live_hands(),
                final(self).seats(),
                final(self).live_hands(),
            ),
            line_grown(old(self).live_hands(), final(self).live_hands()),
            stepped(*old(self), *final(self), i as int, Action::Split, Ok::<(), RoundError>(())),
    {
        let ghost before = self.hands@;
        let seat = self.hands[i].seat;
        let pot = self.hands[i].pot;
        self.players[seat].deduct(pot);
        let player = self.hands[i].player;
        let second_card = self.hands[i].hand.cards[1];
        let first_dealt = deal(&mut self.shoe, &mut self.players);
        let second_dealt = deal(&mut self.shoe, &mut self.players);
        // Can only split aces once
        let aces = second_card.face.is_ace();
        let mut new_hand = Hand::new();
        new_hand.add_card(second_card);
        if let Some(card) = first_dealt {
            self.hands[i].hand.cards.pop();
            self.hands[i].hand.add_card(card);
        }
        if let Some(card) = second_dealt {
            new_hand.add_card(card);
        }
        self.hands[i].completed = aces;
        let ghost kept = self.hands@;
        // Splits can never be a real blackjack
        let made = ActiveHand {
            player,
            seat,
            hand: new_hand,
            pot,
            blackjack: false,
            completed: aces,
        };
        self.hands.push(made);
        proof {
            assert(kept =~= before.update(i as int, kept[i as int]));
            lemma_hands_update(before, i as int, kept[i as int]);
            lemma_hands_push(kept, made);
            lemma_staked_update(before, i as int, kept[i as int]);
            lemma_staked_push(kept, made);
            assert(kept[i as int].hand@ =~= before[i as int].hand@.drop_last().push(
                first_dealt.unwrap(),
            ));
            let stack = old(self).shoe.stack();
            if stack.len() >= 2 {
                assert(stack.drop_last().last() == stack[stack.len() - 2]);
                assert(self.shoe.stack() =~= stack.take(stack.len() - 2));
                assert(kept[i as int].hand@ =~= seq![
                    before[i as int].hand@[0],
                    stack[stack.len() - 1],
                ]);
                assert(made.hand@ =~= seq![
                    before[i as int].hand@[1],
                    stack[stack.len() - 2],
                ]);
            }
            assert(old(self).shoe.contents() =~= self.shoe.contents().insert(
                second_dealt.unwrap(),
            ).insert(first_dealt.unwrap()));
            lemma_split_cards(
                old(self).shoe.contents(),
                self.shoe.contents(),
                self.dealer_hand@.to_multiset(),
                before,
                kept,
                made,
                i as int,
                first_dealt.unwrap(),
                second_dealt.unwrap(),
            );
        }
    }

    pub fn apply_action(&mut self, i: usize, action: Action) -> (r: Result<(), RoundError>)
        requires
            old(self).in_round(),
            i < old(self).live_hands().len(),
            !old(self).live_hands()[i as int].completed,
        ensures
            final(self).in_round(),
            final(self).dealer_cards() == old(self).dealer_cards(),
            final(self).counts_hole_card() == old(self).counts_hole_card(),
            same_players(old(self).seats(), final(self).seats()),
            final(self).live_hands().len() >= old(self).live_hands().len(),
            r is Ok ==> final(self).work_left() < old(self).work_left(),
            same_funds(
                old(self).seats(),
                old(self).live_hands(),
                final(self).seats(),
                final(self).live_hands(),
            ),
            line_grown(old(self).live_hands(), final(self).live_hands()),
            stepped(*old(self), *final(self), i as int, action, r),
    {
        let left = self.cards_left();
        match action {
            Action::Hit => {
                if left < 1 {
                    return Err(RoundError::OutOfCards);
                }
                self.hit_hand(i);
            },
            Action::Stand => {
                self.stand_hand(i);
            },
            Action::Double => {
                if self.hands[i].hand.len() != 2 {
                    return Err(RoundError::IllegalDouble);
                }
                if left < 1 {
                    return Err(RoundError::OutOfCards);
                }
                self.double_hand(i);
            },
            Action::Split => {
                if !self.hands[i].hand.is_pair() {
                    return Err(RoundError::IllegalSplit);
                }
                if left < 2 {
                    return Err(RoundError::OutOfCards);
                }
                self.split_hand(i);
            },
        }
        Ok(())
    }

    /// One step of play on hand `i`, added to the row of tables that has led
    /// from `start` to this table.
    fn play_hand_in_row(
        &mut self,
        i: usize,
        shown: &Card,
        Ghost(start): Ghost<Game>,
        Ghost(tables): Ghost<Seq<Game>>,
    ) -> (out: (Result<(), RoundError>, Ghost<Seq<Game>>))
        requires
            old(self).in_round(),
            i < old(self).live_hands().len(),
            !old(self).live_hands()[i as int].completed,
            play_row(tables, start, *old(self), *shown),
        ensures
            final(self).in_round(),
            final(self).dealer_cards() == old(self).dealer_cards(),
            final(self).counts_hole_card() == old(self).counts_hole_card(),
            same_players(old(self).seats(), final(self).seats()),
            final(self).live_hands().len() >= old(self).live_hands().len(),
            out.0 is Ok ==> final(self).work_left() < old(self).work_left(),
            out.0 != Err::<(), RoundError>(RoundError::BalanceOutOfRange),
            same_funds(
                old(self).seats(),
                old(self).live_hands(),
                final(self).seats(),
                final(self).live_hands(),
            ),
            line_grown(old(self).live_hands(), final(self).live_hands()),
            out.0 is Err ==> exists|action: Action|
                refused_at(*final(self), *shown, i as int, action, out.0->Err_0),
            play_row(out.1@, start, *final(self), *shown),
    {
        let ghost last = *self;
        let step = self.play_hand(i, shown);
        let ghost mut longer = tables;
        proof {
            if step is Ok {
                let action = choose|action: Action|
                    took_step(last, *self, *shown, i as int, action);
                lemma_row_grows(tables, start, last, *self, *shown, i as int, action);
                longer = tables.push(*self);
            }
        }
        (step, Ghost(longer))
    }

    /// Plays every hand to its end: pass after pass over the hands, one
    /// step of play on each hand that is not completed, until none is left.
    /// Hands that a split makes join the end of the line. The first refusal
    /// ends the play.
    pub fn play_hands(&mut self) -> (r: Result<(), RoundError>)
        requires
            old(self).in_round(),
            old(self).dealer_cards().len() >= 1,
        ensures
            final(self).in_round(),
            final(self).dealer_cards() == old(self).dealer_cards(),
            final(self).counts_hole_card() == old(self).counts_hole_card(),
            same_players(old(self).seats(), final(self).seats()),
            final(self).live_hands().len() >= old(self).live_hands().len(),
            r is Ok ==> forall|k: int|
                0 <= k < final(self).live_hands().len() ==> (#[trigger] final(
                    self).live_hands()[k]).completed,
            r != Err::<(), RoundError>(RoundError::BalanceOutOfRange),
            r is Err ==> exists|i: int, action: Action|
                refused_at(*final(self), old(self).dealer_cards()[0], i, action, r->Err_0),
            played_out(*old(self), *final(self), old(self).dealer_cards()[0]),
            same_funds(
                old(self).seats(),
                old(self).live_hands(),
                final(self).seats(),
                final(self).live_hands(),
            ),
            line_grown(old(self).live_hands(), final(self).live_hands()),
            old(self).live_hands().len() == 0 ==> r is Ok && final(self).live_hands().len() == 0
                && same_accounts(old(self).seats(), final(self).seats()) && final(
                self).cards_in_shoe() == old(self).cards_in_shoe(),
    {
        let shown = self.dealer_hand.cards[0];
        let ghost mut tables: Seq<Game> = seq![*self];
        loop
            invariant
                play_row(tables, *old(self), *self, shown),
                self.in_round(),
                self.dealer_hand@ == old(self).dealer_hand@,
                self.count_hole_card == old(self).count_hole_card,
                same_players(old(self).players@, self.players@),
                self.hands@.len() >= old(self).hands@.len(),
                old(self).dealer_hand@.len() >= 1,
                shown == old(self).dealer_hand@[0],
                same_funds(old(self).players@, old(self).hands@, self.players@, self.hands@),
                line_grown(old(self).hands@, self.hands@),
                old(self).hands@.len() == 0 ==> self.hands@.len() == 0 && same_accounts(
                    old(self).players@,
                    self.players@,
                ) && self.shoe.total() == old(self).shoe.total(),
            decreases self.work_left(),
        {
            let ghost start = self.work_left();
            let n = self.hands.len();
            let mut any_open = false;
            let mut i: usize = 0;
            while i < n
                invariant
                    0 <= i <= n <= self.hands@.len(),
                    play_row(tables, *old(self), *self, shown),
                    self.in_round(),
                    self.dealer_hand@ == old(self).dealer_hand@,
                    self.count_hole_card == old(self).count_hole_card,
                    same_players(old(self).players@, self.players@),
                    self.hands@.len() >= old(self).hands@.len(),
                    old(self).dealer_hand@.len() >= 1,
                    shown == old(self).dealer_hand@[0],
                    same_funds(old(self).players@, old(self).hands@, self.players@, self.hands@),
                    line_grown(old(self).hands@, self.hands@),
                    self.work_left() <= start,
                    any_open ==> self.work_left() < start,
                    !any_open ==> self.hands@.len() == n && forall|k: int|
                        0 <= k < i ==> (#[trigger] self.hands@[k]).completed,
                    old(self).hands@.len() == 0 ==> n == 0 && self.hands@.len() == 0
                        && same_accounts(old(self).players@, self.players@) && self.shoe.total()
                        == old(self).shoe.total(),
                decreases n - i,
            {
                if !self.hands[i].completed {
                    any_open = true;
                    let (step, longer) =
                        self.play_hand_in_row(i, &shown, Ghost(*old(self)), Ghost(tables));
                    proof {
                        tables = longer@;
                    }
                    if let Err(e) = step {
                        proof {
                            assert(step->Err_0 == e);
                            let action = choose|action: Action|
                                refused_at(*self, shown, i as int, action, e);
                            assert(refused_at(
                                *self,
                                old(self).dealer_cards()[0],
                                i as int,
                                action,
                                e,
                            ));
                        }
                        return Err(e);
                    }
                }
                i += 1;
            }
            if !any_open {
                return Ok(());
            }
        }
    }

    /// Ends a round: the dealer plays, every hand is settled, and all
    /// cards go to the discard pile. Where the dealer cannot draw, nothing
    /// is settled and the cards stay out.
    pub fn finish_round(&mut self) -> (r: Result<Vec<RoundResult>, RoundError>)
        requires
            old(self).in_round(),
        ensures
            same_players(old(self).seats(), final(self).seats()),
            final(self).counts_hole_card() == old(self).counts_hole_card(),
            final(self).deck_is_whole(),
            r is Ok ==> final(self).between_rounds() && exists|dealer: Seq<Card>|
                finished(*old(self), *final(self), r.unwrap()@, dealer),
            r is Err ==> r == Err::<Vec<RoundResult>, RoundError>(RoundError::OutOfCards)
                && final(self).in_round() && final(self).live_hands() == old(self).live_hands()
                && same_accounts(old(self).seats(), final(self).seats()) && final(
                self).cards_in_shoe() == 0 && hand_value(final(self).dealer_cards()) < 17,
            r is Err ==> old(self).dealer_cards().is_prefix_of(final(self).dealer_cards())
                && drawn_below_17(old(self).dealer_cards(), final(self).dealer_cards()),
    {
        match self.dealer_play() {
            Ok(()) => {},
            Err(e) => {
                return Err(e);
            },
        }
        let ghost drawn = self.dealer_hand@;
        let ghost played = self.players@;
        let results = self.settle_hands();
        proof {
            assert(settled(old(self).hands@, played, self.players@, results@, drawn));
            assert(settled(old(self).hands@, old(self).players@, self.players@, results@, drawn));
        }
        self.clear_table();
        let r = Ok(results);
        proof {
            assert(finished(*old(self), *self, r.unwrap()@, drawn));
        }
        r
    }

    /// Plays one round and gives one result for each hand, in the order the
    /// hands were made. A round is not begun where a balance is out of
    /// range or more players want cards than the deck can deal in. A round
    /// that cannot be played to its end is called off: every wager goes
    /// back to its player and every card to the discard pile.
    pub fn round(&mut self) -> (r: Result<Vec<RoundResult>, RoundError>)
        requires
            old(self).between_rounds(),
        ensures
            final(self).between_rounds(),
            same_players(old(self).seats(), final(self).seats()),
            final(self).counts_hole_card() == old(self).counts_hole_card(),
            r == Err::<Vec<RoundResult>, RoundError>(RoundError::BalanceOutOfRange)
                <==> !bankroll_ok(old(self).seats()),
            !bankroll_ok(old(self).seats()) || seated(old(self).seats()) > MAX_SEATED ==> r is Err
                && final(self).seats() == old(self).seats(),
            bankroll_ok(old(self).seats()) && seated(old(self).seats()) > MAX_SEATED ==> r
                == Err::<Vec<RoundResult>, RoundError>(RoundError::OutOfCards),
            bankroll_ok(old(self).seats()) && seated(old(self).seats()) == 0 ==> r is Ok
                && r.unwrap()@.len() == 0,
            r is Err ==> same_accounts(old(self).seats(), final(self).seats()),
            r is Err && bankroll_ok(old(self).seats()) && seated(old(self).seats()) <= MAX_SEATED
                ==> exists|dealt: Game, played: Game, table: Game|
                round_stuck(*old(self), dealt, played, table, r->Err_0),
            r is Err && bankroll_ok(old(self).seats()) && all_play_by_rules(old(self).seats())
                ==> r == Err::<Vec<RoundResult>, RoundError>(RoundError::OutOfCards),
            r is Ok ==> r.unwrap()@.len() >= seated(old(self).seats()),
            r is Ok ==> exists|hands: Seq<ActiveHand>, dealer: Seq<Card>|
                paid(old(self).seats(), final(self).seats(), r.unwrap()@, hands, dealer),
            r is Ok ==> exists|dealt: Game, played: Game, dealer: Seq<Card>|
                round_played(*old(self), dealt, played, *final(self), r.unwrap()@, dealer),
    {
        if !self.bankroll_in_range() {
            return Err(RoundError::BalanceOutOfRange);
        }
        proof {
            if seated(self.players@) == 0 {
                lemma_none_seated(self.players@);
            }
        }
        match self.initial_deal() {
            Ok(()) => {},
            Err(e) => {
                return Err(e);
            },
        }
        let ghost dealt = *self;
        match self.play_hands() {
            Ok(()) => {},
            Err(e) => {
                let ghost table = *self;
                proof {
                    assert(stuck(old(self).seats(), table, e));
                    if all_play_by_rules(old(self).seats()) {
                        lemma_fair_round_only_runs_out(old(self).seats(), table, e);
                    }
                }
                self.void_round();
                let r = Err(e);
                proof {
                    assert(round_stuck(*old(self), dealt, table, table, r->Err_0));
                }
                return r;
            },
        }
        let ghost played = *self;
        match self.finish_round() {
            Ok(results) => {
                proof {
                    let dealer = choose|dealer: Seq<Card>|
                        finished(played, *self, results@, dealer);
                    assert(round_played(*old(self), dealt, played, *self, results@, dealer));
                    assert(paid(
                        old(self).seats(),
                        self.seats(),
                        results@,
                        played.live_hands(),
                        dealer,
                    ));
                }
                Ok(results)
            },
            Err(e) => {
                let ghost table = *self;
                proof {
                    lemma_total_bounds(self.dealer_hand@);
                    assert(stuck(old(self).seats(), table, e));
                }
                self.void_round();
                let r = Err(e);
                proof {
                    assert(round_stuck(*old(self), dealt, played, table, r->Err_0));
                }
                r
            },
        }
    }
}

/// What the dealer drew came off the top of the stack, card after card, as
/// long as the stack held what was drawn. The discard pile is not touched.
pub open spec fn dealer_drew_from_top(before: Game, after: Game) -> bool {
    let stack = before.stack();
    let top = stack.len() as int;
    let had = before.dealer_cards().len() as int;
    let drawn = after.dealer_cards().len() - had;
    drawn <= top ==> {
        &&& forall|m: int|
            0 <= m < drawn ==> #[trigger] after.dealer_cards()[had + m] == stack[top - 1 - m]
        &&& after.stack() == stack.take(top - drawn)
        &&& after.pile() == before.pile()
    }
}

/// The dealer drew only below 17: every hand the dealer held on the way
/// from `before` to `after`, before the last card came, was worth less than
/// 17.
pub open spec fn drawn_below_17(before: Seq<Card>, after: Seq<Card>) -> bool {
    forall|n: int| before.len() <= n < after.len() ==> hand_value(#[trigger] after.take(n)) < 17
}

/// How the end of a round takes the table from `before` to `after` with
/// the results given, where `dealer` is the hand the dealer ends up with: the
/// cards the dealer had and what was drawn until the hand was worth 17 or
/// more, nothing where it was so already. Every hand is settled against it.
pub open spec fn finished(
    before: Game,
    after: Game,
    results: Seq<RoundResult>,
    dealer: Seq<Card>,
) -> bool {
    &&& before.dealer_cards().is_prefix_of(dealer)
    &&& hand_value(dealer) >= 17
    &&& hand_value(before.dealer_cards()) >= 17 ==> dealer == before.dealer_cards()
    &&& drawn_below_17(before.dealer_cards(), dealer)
    &&& settled(before.live_hands(), before.seats(), after.seats(), results, dealer)
}

/// What the first deal of a round makes of the table `before`: a table in
/// play on which every player who can cover the table minimum has one hand,
/// in the order of the seats, with two cards and the wager taken out of the
/// player's balance, and the dealer has two cards. Where the stack holds
/// them, the cards come off its top.
pub open spec fn first_dealt(before: Game, after: Game) -> bool {
    &&& after.in_round()
    &&& after.dealer_cards().len() == 2
    &&& after.live_hands().len() == seated(before.seats())
    &&& after.cards_in_shoe() + 2 * seated(before.seats()) + 2 == 52
    &&& forall|k: int|
        0 <= k < after.live_hands().len() ==> opened(
            #[trigger] after.live_hands()[k],
            before.seats(),
        )
    &&& forall|k: int, n: int|
        0 <= k < n < after.live_hands().len() ==> (#[trigger] after.live_hands()[k]).seat < (
        #[trigger] after.live_hands()[n]).seat
    &&& same_funds(before.seats(), before.live_hands(), after.seats(), after.live_hands())
    &&& same_players(before.seats(), after.seats())
    &&& after.counts_hole_card() == before.counts_hole_card()
    &&& before.stack().len() >= 2 * seated(before.seats()) + 2 ==> dealt_from_top(before, after)
}

/// A whole round from the table `before` to the table `after` with the
/// results given: the first deal makes the table `dealt`; play, in which
/// every strategy is shown the dealer's first card only, takes it step by
/// step to the table `played`, on which every hand is completed; then the
/// dealer plays to the hand `dealer` and every hand is settled against it.
pub open spec fn round_played(
    before: Game,
    dealt: Game,
    played: Game,
    after: Game,
    results: Seq<RoundResult>,
    dealer: Seq<Card>,
) -> bool {
    &&& first_dealt(before, dealt)
    &&& played_out(dealt, played, dealt.dealer_cards()[0])
    &&& played.dealer_cards() == dealt.dealer_cards()
    &&& forall|k: int|
        0 <= k < played.live_hands().len() ==> (#[trigger] played.live_hands()[k]).completed
    &&& finished(played, after, results, dealer)
    &&& after.between_rounds()
}

/// The first deal comes off the top of the stack, two cards after two: the
/// hands in their order, each card in the order it was dealt, then the
/// dealer's shown card and the dealer's hole card. The discard pile is not
/// touched.
pub open spec fn dealt_from_top(before: Game, after: Game) -> bool {
    let stack = before.stack();
    let top = stack.len() as int;
    let n = after.live_hands().len() as int;
    &&& forall|k: int|
        0 <= k < n ==> (#[trigger] after.live_hands()[k]).hand@ == seq![
            stack[top - 1 - 2 * k],
            stack[top - 2 - 2 * k],
        ]
    &&& after.dealer_cards() == seq![stack[top - 1 - 2 * n], stack[top - 2 - 2 * n]]
    &&& after.stack() == stack.take(top - 2 * n - 2)
    &&& after.pile() == before.pile()
}

/// The cards that an action draws come off the top of the stack where it
/// holds enough of them: one for a hit or a double, which goes to the hand;
/// two for a split, the first for the hand that is played and the second for
/// the hand that is split off. The discard pile is not touched.
pub open spec fn drawn_from_top(before: Game, after: Game, i: int, action: Action) -> bool {
    let hand = before.live_hands()[i].hand@;
    let stack = before.stack();
    let hands = before.live_hands().len() as int;
    match action {
        Action::Stand => after.stack() == stack && after.pile() == before.pile(),
        Action::Hit | Action::Double => stack.len() >= 1 ==> {
            &&& after.live_hands()[i].hand@ == hand.push(stack.last())
            &&& after.stack() == stack.drop_last()
            &&& after.pile() == before.pile()
        },
        Action::Split => stack.len() >= 2 ==> {
            &&& after.live_hands()[i].hand@ == seq![hand[0], stack[stack.len() - 1]]
            &&& after.live_hands()[hands].hand@ == seq![hand[1], stack[stack.len() - 2]]
            &&& after.stack() == stack.take(stack.len() - 2)
            &&& after.pile() == before.pile()
        },
    }
}

/// Hand `i` of the table is in play and action `a` on it is refused with
/// `e`. Where the owner's strategy makes its decision known against the
/// card `shown`, `a` is that decision.
pub open spec fn refused_at(table: Game, shown: Card, i: int, a: Action, e: RoundError) -> bool {
    &&& 0 <= i < table.live_hands().len()
    &&& !table.live_hands()[i].completed
    &&& hand_value(table.live_hands()[i].hand@) < 21
    &&& refusal(a, table.live_hands()[i].hand@, table.cards_in_shoe()) == Some(e)
    &&& table.seats()[table.live_hands()[i].seat as int].decision(
        table.live_hands()[i].hand@,
        shown,
    ) is Some ==> table.seats()[table.live_hands()[i].seat as int].decision(
        table.live_hands()[i].hand@,
        shown,
    ) == Some(a)
}

/// One step of play: hand `i` of the table `before` is in play and action
/// `a` is played on it, which makes the table `after`. A hand worth 21 or
/// more is stood. For any other hand `a` is what the owner's strategy
/// decides against the card `shown`, where the strategy makes its decision
/// known.
pub open spec fn took_step(before: Game, after: Game, shown: Card, i: int, a: Action) -> bool {
    let hand = before.live_hands()[i];
    &&& 0 <= i < before.live_hands().len()
    &&& !hand.completed
    &&& stepped(before, after, i, a, Ok::<(), RoundError>(()))
    &&& if hand_value(hand.hand@) >= 21 {
        a == Action::Stand
    } else {
        before.seats()[hand.seat as int].decision(hand.hand@, shown) is Some
            ==> before.seats()[hand.seat as int].decision(hand.hand@, shown) == Some(a)
    }
}

/// The table `after` comes from the table `before` by one step of play.
pub open spec fn linked(before: Game, after: Game, shown: Card) -> bool {
    exists|i: int, a: Action| #[trigger] took_step(before, after, shown, i, a)
}

/// The play has taken the table from `before` to `after` step by step:
/// there is a row of tables from the one to the other in which each comes
/// from the one before it by one step of play.
pub open spec fn played_out(before: Game, after: Game, shown: Card) -> bool {
    exists|tables: Seq<Game>| play_row(tables, before, after, shown)
}

/// A row of tables from `before` to `after`, each a step from the one
/// before it.
pub open spec fn play_row(tables: Seq<Game>, before: Game, after: Game, shown: Card) -> bool {
    &&& tables.len() >= 1
    &&& tables[0] == before
    &&& tables.last() == after
    &&& forall|t: int|
        0 <= t < tables.len() - 1 ==> linked(#[trigger] tables[t], tables[t + 1], shown)
}

/// A row of tables stays one when a step is added at its end.
pub proof fn lemma_row_grows(
    tables: Seq<Game>,
    before: Game,
    last: Game,
    next: Game,
    shown: Card,
    i: int,
    a: Action,
)
    requires
        play_row(tables, before, last, shown),
        took_step(last, next, shown, i, a),
    ensures
        play_row(tables.push(next), before, next, shown),
{
    let longer = tables.push(next);
    assert forall|t: int| 0 <= t < longer.len() - 1 implies linked(
        #[trigger] longer[t],
        longer[t + 1],
        shown,
    ) by {
        if t < tables.len() - 1 {
            assert(linked(tables[t], tables[t + 1], shown));
        } else {
            assert(took_step(longer[t], longer[t + 1], shown, i, a));
        }
    }
}

/// A round of these players has come to a table on which it cannot go on
/// and ends with `e`: a hand in play whose action, decided against the
/// dealer's first card, is refused, or a dealer who has to draw from an
/// empty shoe.
pub open spec fn stuck(players: Seq<Player>, table: Game, e: RoundError) -> bool {
    &&& table.in_round()
    &&& table.dealer_cards().len() >= 2
    &&& same_players(players, table.seats())
    &&& {
        ||| exists|i: int, a: Action| refused_at(table, table.dealer_cards()[0], i, a, e)
        ||| e == RoundError::OutOfCards && table.cards_in_shoe() == 0 && hand_value(
            table.dealer_cards(),
        ) < 17
    }
}

/// A round from the table `before` that could not be played to its end and
/// ends with `e`: the first deal made the table `dealt`, play took it step
/// by step to the table `played`, and the round is stuck on the table
/// `table`. That is `played` itself where an action was refused; where the
/// dealer could not draw it is what the dealer's draws below 17 made of
/// `played`, every hand of which was completed.
pub open spec fn round_stuck(
    before: Game,
    dealt: Game,
    played: Game,
    table: Game,
    e: RoundError,
) -> bool {
    &&& first_dealt(before, dealt)
    &&& played_out(dealt, played, dealt.dealer_cards()[0])
    &&& played.dealer_cards() == dealt.dealer_cards()
    &&& stuck(before.seats(), table, e)
    &&& {
        ||| table == played
        ||| {
            &&& forall|k: int|
                0 <= k < played.live_hands().len() ==> (
                #[trigger] played.live_hands()[k]).completed
            &&& table.live_hands() == played.live_hands()
            &&& played.dealer_cards().is_prefix_of(table.dealer_cards())
            &&& drawn_below_17(played.dealer_cards(), table.dealer_cards())
            &&& e == RoundError::OutOfCards
        }
    }
}

/// Players who play by the rules can only be stopped by an empty shoe.
pub proof fn lemma_fair_round_only_runs_out(players: Seq<Player>, table: Game, e: RoundError)
    requires
        stuck(players, table, e),
        all_play_by_rules(players),
    ensures
        e == RoundError::OutOfCards,
{
    if e != RoundError::OutOfCards {
        let shown = table.dealer_cards()[0];
        let (i, a) = choose|i: int, a: Action| refused_at(table, shown, i, a, e);
        let hand = table.live_hands()[i];
        assert(hand_ok(hand, table.seats().len() as int));
        let seat = hand.seat as int;
        assert(plays_by_rules(players[seat]));
        assert(table.seats()[seat].decides_as(players[seat]));
        assert(table.seats()[seat].decision(hand.hand@, shown) == players[seat].decision(
            hand.hand@,
            shown,
        ));
    }
}

/// How one action on hand `i` takes the table from `before` to `after` with
/// the answer `r`. A refused action leaves everything as it was. An action
/// that is played changes hand `i` as `played` says, takes the cards it
/// needs from the shoe, off the top of the stack where it holds them, and
/// the debit from the owner's balance, and, for a split, puts the hand that
/// is split off at the end of the line. No other hand and no other balance
/// changes.
pub open spec fn stepped(
    before: Game,
    after: Game,
    i: int,
    action: Action,
    r: Result<(), RoundError>,
) -> bool {
    let hand = before.live_hands()[i];
    let hands = before.live_hands().len() as int;
    match refusal(action, hand.hand@, before.cards_in_shoe()) {
        Some(e) => {
            &&& r == Err::<(), RoundError>(e)
            &&& after.live_hands() == before.live_hands()
            &&& after.cards_in_shoe() == before.cards_in_shoe()
            &&& after.stack() == before.stack()
            &&& after.pile() == before.pile()
            &&& after.seats() == before.seats()
            &&& after == before
        },
        None => {
            &&& r is Ok
            &&& played(hand, after.live_hands()[i], action)
            &&& drawn_from_top(before, after, i, action)
            &&& after.cards_in_shoe() + cards_needed(action) == before.cards_in_shoe()
            &&& after.live_hands().len() == hands + if action == Action::Split {
                1int
            } else {
                0int
            }
            &&& action == Action::Split ==> split_off(hand, after.live_hands()[hands])
            &&& forall|k: int|
                0 <= k < hands && k != i ==> #[trigger] after.live_hands()[k]
                    == before.live_hands()[k]
            &&& same_players(before.seats(), after.seats())
            &&& forall|j: int|
                0 <= j < after.seats().len() ==> (#[trigger] after.seats()[j]).balance
                    == before.seats()[j].balance - if j == hand.seat {
                    debit(action, hand.pot as int)
                } else {
                    0
                }
        },
    }
}

} // verus!
