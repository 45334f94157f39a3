use crate::cards::card::{Card, Face};
use vstd::prelude::*;

verus! {

/// One chip. Amounts are counted in half chips, the smallest amount that a
/// blackjack can pay; wagers are placed in whole chips.
pub const CHIP: i64 = 2;

/// The table minimum, which is also the flat wager: ten chips.
pub const MIN_BET: i64 = 20;

/// Sizes the wager and may follow the cards as they are dealt.
pub trait BettingStrategy {
    /// The running count the strategy keeps; zero for one that keeps none.
    open spec fn running_count(&self) -> int {
        0
    }

    /// The wager as a function of what remains, for a strategy that makes
    /// it known; `None` for one that does not.
    open spec fn wager(&self, remaining: int) -> Option<int> {
        None
    }

    /// Asked only of a player who can cover the table minimum. A strategy
    /// that makes its wager known answers by it. Nothing else is taken for
    /// granted of the answer: the player holds it to the table minimum, to
    /// the balance and to whole chips.
    fn bet(&self, remaining: i64) -> (wager: i64)
        requires
            remaining >= MIN_BET,
        ensures
            self.wager(remaining as int) is Some ==> self.wager(remaining as int) == Some(
                wager as int,
            ),
    ;

    /// The running count once the strategy has seen one more card; the
    /// count as it is for a strategy that does not follow the cards.
    open spec fn count_after(&self, card: Card) -> int {
        self.running_count()
    }

    /// Told of every card that is dealt face up: the count moves on by the
    /// card.
    fn card_dealt(&mut self, card: &Card)
        ensures
            final(self).running_count() == old(self).count_after(*card),
    ;

    /// Told of every reshuffle of the shoe: the count starts over.
    fn shuffled(&mut self)
        ensures
            final(self).running_count() == 0,
    ;
}

/// Always wagers the table minimum.
#[derive(Clone, Copy, Debug)]
pub struct FlatBettingStrategy;

impl BettingStrategy for FlatBettingStrategy {
    open spec fn wager(&self, remaining: int) -> Option<int> {
        Some(MIN_BET as int)
    }

    fn bet(&self, remaining: i64) -> (wager: i64)
        ensures
            wager == MIN_BET,
    {
        MIN_BET
    }

    fn card_dealt(&mut self, card: &Card) {
    }

    fn shuffled(&mut self) {
    }
}

/// What a card adds to the high-low count: one for a card worth 2 to 6, minus
/// one for a card worth 10 or 11, nothing for 7 to 9.
pub open spec fn hilo_delta(face: Face) -> int {
    if 2 <= face.points() <= 6 {
        1
    } else if face.points() >= 10 {
        -1
    } else {
        0
    }
}

/// The count after one more card. The count stops at the ends of `i64`.
pub open spec fn hilo_step(count: int, face: Face) -> int {
    let next = count + hilo_delta(face);
    if next > i64::MAX {
        i64::MAX as int
    } else if next < i64::MIN {
        i64::MIN as int
    } else {
        next
    }
}

/// The high-low wager: the table minimum plus one chip for each point of a
/// positive count, and no more than what remains.
pub open spec fn hilo_wager(count: int, remaining: int) -> int {
    let wanted = MIN_BET + if count > 0 {
        CHIP * count
    } else {
        0
    };
    if wanted > remaining {
        remaining
    } else {
        wanted
    }
}

/// Counts low cards against high cards and raises the wager with the count.
#[derive(Clone, Copy, Debug)]
pub struct HiLoCountingStrategy {
    count: i64,
}

impl HiLoCountingStrategy {
    /// A strategy with a count of zero.
    pub fn new() -> (strategy: Self)
        ensures
            strategy.running_count() == 0,
    {
        Self { count: 0 }
    }

    /// The running count.
    pub fn count(&self) -> (count: i64)
        ensures
            count == self.running_count(),
    {
        self.count
    }
}

impl BettingStrategy for HiLoCountingStrategy {
    closed spec fn running_count(&self) -> int {
        self.count as int
    }

    open spec fn count_after(&self, card: Card) -> int {
        hilo_step(self.running_count(), card.face)
    }

    open spec fn wager(&self, remaining: int) -> Option<int> {
        Some(hilo_wager(self.running_count(), remaining))
    }

    fn bet(&self, remaining: i64) -> (wager: i64)
        ensures
            wager == hilo_wager(self.running_count(), remaining as int),
    {
        if self.count <= 0 {
            MIN_BET
        } else if self.count > (remaining - MIN_BET) / CHIP {
            remaining
        } else {
            MIN_BET + CHIP * self.count
        }
    }

    fn card_dealt(&mut self, card: &Card)
        ensures
            final(self).running_count() == hilo_step(old(self).running_count(), card.face),
    {
        let points = card.face.value();
        if 2 <= points && points <= 6 {
            if self.count < i64::MAX {
                self.count = self.count + 1;
            }
        } else if points >= 10 {
            if self.count > i64::MIN {
                self.count = self.count - 1;
            }
        }
    }

    fn shuffled(&mut self) {
        self.count = 0;
    }
}

/// After a reshuffle the high-low strategy wagers the table minimum, whatever
/// its count was before.
pub proof fn lemma_hilo_wagers_minimum_after_shuffle(
    strategy: HiLoCountingStrategy,
    remaining: int,
)
    requires
        strategy.running_count() == 0,
        remaining >= MIN_BET,
    ensures
        strategy.wager(remaining) == Some(MIN_BET as int),
{
}

} // verus!
