//! A blackjack round engine: a single-deck shoe with a discard pile, hand
//! valuation with soft aces, pluggable action and betting strategies, and a
//! table controller that deals, plays and settles one round at a time.
//!
//! Amounts are counted in half chips, so that a blackjack, which pays three
//! to two, is always paid in full; wagers are placed in whole chips.

pub mod ai;
pub mod cards;
pub mod game;
pub mod player;

pub use ai::action::{
    get_hard_total_action, get_soft_total_action, should_split, Action, ActionStrategy,
    OptimalActionStrategy, PlayerAction, SimpleActionStrategy,
};
pub use ai::betting::{
    BettingStrategy, FlatBettingStrategy, HiLoCountingStrategy, CHIP, MIN_BET,
};
pub use cards::card::{Card, Face, Suit};
pub use cards::hand::Hand;
pub use cards::shoe::Shoe;
pub use game::round::{payout, settle, RoundError, RoundResult};
pub use game::table::{deal, secret_deal, ActiveHand, Game, MAX_BALANCE, MAX_SEATED};
pub use player::{stake, Player};
