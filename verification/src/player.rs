use crate::ai::action::{Action, ActionStrategy, SimpleActionStrategy};
use crate::ai::betting::{BettingStrategy, FlatBettingStrategy, MIN_BET};
use crate::cards::card::Card;
use crate::cards::hand::{hand_value, Hand};
use vstd::prelude::*;

verus! {

/// The wager that is taken from a player who asks for `asked` with
/// `balance` in hand: never under the table minimum, never over the balance,
/// and in whole chips, with half a chip left out.
pub open spec fn held_wager(asked: int, balance: int) -> int {
    let within = if asked > balance {
        balance
    } else if asked < MIN_BET {
        MIN_BET as int
    } else {
        asked
    };
    within - within % 2
}

/// Holds the wager that a betting strategy asks for to the table minimum,
/// to the balance and to whole chips.
pub fn stake(asked: i64, balance: i64) -> (wager: i64)
    requires
        balance >= MIN_BET,
    ensures
        wager == held_wager(asked as int, balance as int),
        MIN_BET <= wager <= balance,
        wager % 2 == 0,
{
    let within = if asked > balance {
        balance
    } else if asked < MIN_BET {
        MIN_BET
    } else {
        asked
    };
    within - within % 2
}

/// A seated player: a bankroll and the two strategies that play it.
pub struct Player {
    pub id: u8,
    pub balance: i64,
    pub action_strategy: Box<dyn ActionStrategy>,
    pub betting_strategy: Box<dyn BettingStrategy>,
}

impl Default for Player {
    fn default() -> (player: Player)
        ensures
            player.id == 0,
            player.balance == 0,
    {
        Player {
            id: 0,
            balance: 0,
            action_strategy: Box::new(SimpleActionStrategy),
            betting_strategy: Box::new(FlatBettingStrategy),
        }
    }
}

impl Player {
    /// The running count of the player's betting strategy.
    pub open spec fn running_count(&self) -> int {
        self.betting_strategy.running_count()
    }

    /// The running count of the player's betting strategy once it has seen
    /// one more card.
    pub open spec fn count_after(&self, card: Card) -> int {
        self.betting_strategy.count_after(card)
    }

    /// What the player's action strategy decides for a hand against the
    /// shown card, where the strategy makes its decision known.
    pub open spec fn decision(&self, hand: Seq<Card>, dealer_card: Card) -> Option<Action> {
        self.action_strategy.decision(hand, dealer_card)
    }

    /// The wager the player's betting strategy asks for with `remaining` in
    /// hand, where the strategy makes its wager known.
    pub open spec fn asked_wager(&self, remaining: int) -> Option<int> {
        self.betting_strategy.wager(remaining)
    }

    /// The player decides on every hand as `other` does.
    pub open spec fn decides_as(&self, other: Player) -> bool {
        forall|hand: Seq<Card>, shown: Card|
            (#[trigger] self.decision(hand, shown)) == other.decision(hand, shown)
    }

    /// The player's betting strategy stands where that of `other` stands:
    /// the same count, the same count after any card, the same wager.
    pub open spec fn bets_as(&self, other: Player) -> bool {
        &&& self.running_count() == other.running_count()
        &&& forall|card: Card| (#[trigger] self.count_after(card)) == other.count_after(card)
        &&& forall|remaining: int|
            (#[trigger] self.asked_wager(remaining)) == other.asked_wager(remaining)
    }

    /// A player with the given identity, balance and strategies.
    pub fn new(
        id: u8,
        balance: i64,
        action_strategy: Box<dyn ActionStrategy>,
        betting_strategy: Box<dyn BettingStrategy>,
    ) -> (player: Player)
        ensures
            player.id == id,
            player.balance == balance,
            player.action_strategy === action_strategy,
            player.betting_strategy === betting_strategy,
    {
        Player { id, balance, action_strategy, betting_strategy }
    }

    /// Passes a dealt card on to the betting strategy, whose running count
    /// moves on by the card. Nothing else of the player changes.
    pub fn card_dealt(&mut self, card: &Card)
        ensures
            final(self).id == old(self).id,
            final(self).balance == old(self).balance,
            final(self).running_count() == old(self).count_after(*card),
            final(self).decides_as(*old(self)),
    {
        self.betting_strategy.card_dealt(card);
    }

    /// Tells the betting strategy that the shoe was reshuffled: its count
    /// starts over. Nothing else of the player changes.
    pub fn shuffled(&mut self)
        ensures
            final(self).id == old(self).id,
            final(self).balance == old(self).balance,
            final(self).running_count() == 0,
            final(self).decides_as(*old(self)),
    {
        self.betting_strategy.shuffled();
    }

    /// Takes the wager for a round out of the balance: what the betting
    /// strategy asks for, as `stake` holds it between the table minimum and
    /// the balance.
    pub fn bet(&mut self) -> (wager: i64)
        requires
            old(self).balance >= MIN_BET,
        ensures
            MIN_BET <= wager <= old(self).balance,
            wager % 2 == 0,
            old(self).asked_wager(old(self).balance as int) is Some ==> wager == held_wager(
                old(self).asked_wager(old(self).balance as int).unwrap(),
                old(self).balance as int,
            ),
            final(self).balance == old(self).balance - wager,
            final(self).id == old(self).id,
            final(self).decides_as(*old(self)),
            final(self).bets_as(*old(self)),
    {
        let asked = self.betting_strategy.bet(self.balance);
        let wager = stake(asked, self.balance);
        self.balance = self.balance - wager;
        wager
    }

    /// Asks the action strategy what to do with a hand that is in play, and
    /// gives its answer as it is: the strategy's decision, where that is
    /// known.
    pub fn action(&self, hand: &Hand, dealer_card: &Card) -> (action: Action)
        requires
            hand@.len() >= 2,
            hand_value(hand@) < 21,
        ensures
            self.decision(hand@, *dealer_card) is Some ==> self.decision(hand@, *dealer_card)
                == Some(action),
    {
        self.action_strategy.action(hand, dealer_card)
    }

    /// Takes `amount` out of the balance, which may fall below zero.
    pub fn deduct(&mut self, amount: i64)
        requires
            i64::MIN <= old(self).balance - amount <= i64::MAX,
        ensures
            final(self).balance == old(self).balance - amount,
            final(self).id == old(self).id,
            final(self).decides_as(*old(self)),
            final(self).bets_as(*old(self)),
    {
        self.balance = self.balance - amount;
    }

    /// Adds `payout` to the balance.
    pub fn payout(&mut self, payout: i64)
        requires
            i64::MIN <= old(self).balance + payout <= i64::MAX,
        ensures
            final(self).balance == old(self).balance + payout,
            final(self).id == old(self).id,
            final(self).decides_as(*old(self)),
            final(self).bets_as(*old(self)),
    {
        self.balance = self.balance + payout;
    }
}

} // verus!
