use vstd::prelude::*;

verus! {

/// Result of a single hand of a round from the perspective of the player.
#[derive(Clone, Copy, Debug, PartialEq, Eq, Hash, Structural)]
pub enum RoundResult {
    Blackjack,
    Win,
    Bust,
    Lose,
    Push,
    Surrender,
}

/// Why a round could not be played to its end.
#[derive(Clone, Copy, Debug, PartialEq, Eq, Structural)]
pub enum RoundError {
    /// A card was needed and neither the stack nor the discard pile had one.
    OutOfCards,
    /// A strategy doubled a hand that does not hold exactly two cards.
    IllegalDouble,
    /// A strategy split a hand that is not a pair.
    IllegalSplit,
    /// A balance is too far from zero for the wagers of a round to be
    /// taken and paid in 64 bits.
    BalanceOutOfRange,
}

/// How a hand fares against the dealer. A blackjack that the dealer does not
/// match wins as such; a bust, a dealer blackjack or a higher dealer total
/// within 21 loses; a dealer bust or a lower dealer total wins; equal totals
/// push.
pub open spec fn outcome(
    player_value: int,
    player_blackjack: bool,
    dealer_value: int,
    dealer_blackjack: bool,
) -> RoundResult {
    if player_blackjack && !dealer_blackjack {
        RoundResult::Blackjack
    } else if player_value > 21 || (dealer_blackjack && !player_blackjack) || (21 >= dealer_value
        > player_value) {
        RoundResult::Lose
    } else if dealer_value > 21 || dealer_value < player_value {
        RoundResult::Win
    } else {
        RoundResult::Push
    }
}

/// What a result pays on a pot of whole chips: two and a half times the pot
/// for a blackjack; twice the pot for a win; the pot for a push; nothing
/// otherwise.
pub open spec fn winnings(result: RoundResult, pot: int) -> int {
    match result {
        RoundResult::Blackjack => 5 * (pot / 2),
        RoundResult::Win => 2 * pot,
        RoundResult::Push => pot,
        _ => 0,
    }
}

/// The largest pot that `payout` takes.
pub const MAX_POT: i64 = 2_000_000_000_000_000;

/// Compares a hand with the dealer's.
pub fn settle(
    player_value: u8,
    player_blackjack: bool,
    dealer_value: u8,
    dealer_blackjack: bool,
) -> (result: RoundResult)
    ensures
        result == outcome(
            player_value as int,
            player_blackjack,
            dealer_value as int,
            dealer_blackjack,
        ),
{
    let player_bust = player_value > 21;
    let dealer_bust = dealer_value > 21;
    if player_blackjack && !dealer_blackjack {
        RoundResult::Blackjack
    } else if player_bust || (dealer_blackjack && !player_blackjack) || (dealer_value
        > player_value && !dealer_bust) {
        RoundResult::Lose
    } else if dealer_bust || dealer_value < player_value {
        RoundResult::Win
    } else {
        RoundResult::Push
    }
}

/// The amount that a result returns to the player on a pot of whole chips,
/// in half chips as the pot is.
pub fn payout(result: RoundResult, pot: i64) -> (amount: i64)
    requires
        0 <= pot <= MAX_POT,
        pot % 2 == 0,
    ensures
        amount == winnings(result, pot as int),
        result == RoundResult::Blackjack ==> 2 * amount == 5 * pot,
{
    match result {
        RoundResult::Blackjack => (pot / 2) * 5,
        RoundResult::Win => pot * 2,
        RoundResult::Push => pot,
        _ => 0,
    }
}

} // verus!
