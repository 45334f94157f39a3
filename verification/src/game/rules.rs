use crate::ai::action::{is_legal, Action};
use crate::ai::betting::MIN_BET;
use crate::cards::card::{Card, Face};
use crate::cards::hand::{
    capped, hand_value, is_blackjack, is_pair, lemma_card_added, lemma_no_cards,
};
use crate::game::round::{outcome, winnings, RoundError, RoundResult};
use crate::game::table::{ActiveHand, MAX_BALANCE};
use crate::player::Player;
use vstd::multiset::Multiset;
use vstd::prelude::*;

verus! {

/// The number of cards in the hands.
pub open spec fn cards_held(hands: Seq<ActiveHand>) -> nat
    decreases hands.len(),
{
    if hands.len() == 0 {
        0
    } else {
        cards_held(hands.drop_last()) + hands.last().hand@.len()
    }
}

/// The cards in the hands, in no order.
pub open spec fn cards_of(hands: Seq<ActiveHand>) -> Multiset<Card>
    decreases hands.len(),
{
    if hands.len() == 0 {
        Multiset::empty()
    } else {
        cards_of(hands.drop_last()).add(hands.last().hand@.to_multiset())
    }
}

/// The number of hands that are not completed.
pub open spec fn open_hands(hands: Seq<ActiveHand>) -> nat
    decreases hands.len(),
{
    if hands.len() == 0 {
        0
    } else {
        open_hands(hands.drop_last()) + if hands.last().completed {
            0nat
        } else {
            1nat
        }
    }
}

/// The number of players who can cover the table minimum.
pub open spec fn seated(players: Seq<Player>) -> nat
    decreases players.len(),
{
    if players.len() == 0 {
        0
    } else {
        seated(players.drop_last()) + if players.last().balance >= MIN_BET {
            1nat
        } else {
            0nat
        }
    }
}

/// The result of a hand against the dealer's cards.
pub open spec fn hand_result(hand: ActiveHand, dealer: Seq<Card>) -> RoundResult {
    outcome(
        capped(hand_value(hand.hand@)),
        hand.blackjack,
        capped(hand_value(dealer)),
        is_blackjack(dealer),
    )
}

/// What the hands of one seat win together against the dealer's cards.
pub open spec fn credited(hands: Seq<ActiveHand>, dealer: Seq<Card>, seat: int) -> int
    decreases hands.len(),
{
    if hands.len() == 0 {
        0
    } else {
        credited(hands.drop_last(), dealer, seat) + if hands.last().seat == seat {
            winnings(hand_result(hands.last(), dealer), hands.last().pot as int)
        } else {
            0
        }
    }
}

/// What a hand has at stake for a seat: its pot for the seat that owns it.
pub open spec fn stake_of(hand: ActiveHand, seat: int) -> int {
    if hand.seat == seat {
        hand.pot as int
    } else {
        0
    }
}

/// What the hands of one seat have at stake together.
pub open spec fn staked(hands: Seq<ActiveHand>, seat: int) -> int
    decreases hands.len(),
{
    if hands.len() == 0 {
        0
    } else {
        staked(hands.drop_last(), seat) + stake_of(hands.last(), seat)
    }
}

/// No money has come or gone: for every player the balance and what the
/// player's hands have at stake add up to the same as before.
pub open spec fn same_funds(
    before: Seq<Player>,
    staked_before: Seq<ActiveHand>,
    after: Seq<Player>,
    staked_after: Seq<ActiveHand>,
) -> bool {
    forall|j: int|
        0 <= j < after.len() ==> (#[trigger] after[j]).balance + staked(staked_after, j)
            == before[j].balance + staked(staked_before, j)
}

/// What a round that was played to its end comes to, where `hands` are the
/// hands at the end of play, in the order they were made, and `dealer` is
/// the dealer's hand: one result for each hand, in order, and for each
/// player the balance less what the player's hands had at stake plus what
/// they won.
pub open spec fn paid(
    before: Seq<Player>,
    after: Seq<Player>,
    results: Seq<RoundResult>,
    hands: Seq<ActiveHand>,
    dealer: Seq<Card>,
) -> bool {
    &&& results.len() == hands.len()
    &&& forall|k: int|
        0 <= k < results.len() ==> #[trigger] results[k] == hand_result(hands[k], dealer)
    &&& same_players(before, after)
    &&& dealt_line(before, hands)
    &&& hand_value(dealer) >= 17
    &&& forall|j: int|
        0 <= j < after.len() ==> (#[trigger] after[j]).balance == before[j].balance - staked(
            hands,
            j,
        ) + credited(hands, dealer, j)
}

/// What settling the hands against the dealer's cards comes to: one result
/// for each hand, in order, and for each player the winnings of that
/// player's hands on top of the balance.
pub open spec fn settled(
    hands: Seq<ActiveHand>,
    before: Seq<Player>,
    after: Seq<Player>,
    results: Seq<RoundResult>,
    dealer: Seq<Card>,
) -> bool {
    &&& results.len() == hands.len()
    &&& forall|k: int|
        0 <= k < results.len() ==> #[trigger] results[k] == hand_result(hands[k], dealer)
    &&& same_players(before, after)
    &&& forall|j: int|
        0 <= j < after.len() ==> (#[trigger] after[j]).balance == before[j].balance + credited(
            hands,
            dealer,
            j,
        )
}

/// A hand in play belongs to a seat, holds two cards at least and is backed
/// by a pot of whole chips that can still be doubled unless it is completed.
pub open spec fn hand_ok(hand: ActiveHand, seats: int) -> bool {
    &&& hand.seat < seats
    &&& hand.hand@.len() >= 2
    &&& MIN_BET <= hand.pot <= 2 * MAX_BALANCE
    &&& hand.pot % 2 == 0
    &&& !hand.completed ==> hand.pot <= MAX_BALANCE
}

/// A hand as the first deal makes it for a player who can cover the table
/// minimum: two cards, not completed, a blackjack where they are worth 21,
/// and a pot of whole chips between the table minimum and the player's
/// balance.
pub open spec fn opened(hand: ActiveHand, players: Seq<Player>) -> bool {
    &&& hand.seat < players.len()
    &&& hand.player == players[hand.seat as int].id
    &&& players[hand.seat as int].balance >= MIN_BET
    &&& MIN_BET <= hand.pot <= players[hand.seat as int].balance
    &&& hand.pot % 2 == 0
    &&& hand.hand@.len() == 2
    &&& hand.blackjack == (hand_value(hand.hand@) == 21)
    &&& !hand.completed
}

/// The line of hands has only grown. Every hand that was there is still in
/// its place, with its owner, its blackjack flag and its first card. Every
/// hand that has come since was split off and is no blackjack.
pub open spec fn line_grown(before: Seq<ActiveHand>, after: Seq<ActiveHand>) -> bool {
    &&& before.len() <= after.len()
    &&& forall|k: int|
        0 <= k < before.len() ==> {
            let hand = #[trigger] after[k];
            &&& hand.player == before[k].player
            &&& hand.seat == before[k].seat
            &&& hand.blackjack == before[k].blackjack
            &&& hand.hand@[0] == before[k].hand@[0]
        }
    &&& forall|k: int| before.len() <= k < after.len() ==> !(#[trigger] after[k]).blackjack
}

/// The line of hands of a round of these players: first one hand for each
/// player who could cover the table minimum, in the order of the seats, and
/// after them the hands that were split off, none of them a blackjack.
pub open spec fn dealt_line(players: Seq<Player>, hands: Seq<ActiveHand>) -> bool {
    let n = seated(players) as int;
    &&& n <= hands.len()
    &&& forall|k: int|
        0 <= k < n ==> {
            let hand = #[trigger] hands[k];
            &&& hand.seat < players.len()
            &&& players[hand.seat as int].balance >= MIN_BET
            &&& hand.player == players[hand.seat as int].id
        }
    &&& forall|k: int, m: int|
        0 <= k < m < n ==> (#[trigger] hands[k]).seat < (#[trigger] hands[m]).seat
    &&& forall|k: int| n <= k < hands.len() ==> !(#[trigger] hands[k]).blackjack
}

/// Every hand is in order.
pub open spec fn hands_ok(hands: Seq<ActiveHand>, seats: int) -> bool {
    forall|i: int| 0 <= i < hands.len() ==> hand_ok(#[trigger] hands[i], seats)
}

/// Every balance is within the limit for sitting down.
pub open spec fn bankroll_ok(players: Seq<Player>) -> bool {
    forall|j: int|
        0 <= j < players.len() ==> -MAX_BALANCE <= (#[trigger] players[j]).balance <= MAX_BALANCE
}

/// The same players with the same balances, deciding as before; what their
/// betting strategies have counted may differ.
pub open spec fn same_accounts(before: Seq<Player>, after: Seq<Player>) -> bool {
    &&& before.len() == after.len()
    &&& forall|j: int|
        0 <= j < before.len() ==> (#[trigger] after[j]).id == before[j].id && after[j].balance
            == before[j].balance && after[j].decides_as(before[j])
}

/// The same players, deciding as before; their balances and what their
/// betting strategies have counted may differ.
pub open spec fn same_players(before: Seq<Player>, after: Seq<Player>) -> bool {
    &&& before.len() == after.len()
    &&& forall|j: int|
        0 <= j < before.len() ==> (#[trigger] after[j]).id == before[j].id
            && after[j].decides_as(before[j])
}

/// The player's action strategy makes its decision known on every hand it
/// can be asked of, and the decision is always legal.
pub open spec fn plays_by_rules(player: Player) -> bool {
    forall|hand: Seq<Card>, shown: Card|
        hand.len() >= 2 && hand_value(hand) < 21 ==> match #[trigger] player.decision(
            hand,
            shown,
        ) {
            Some(action) => is_legal(action, hand),
            None => false,
        }
}

/// Every player plays by the rules.
pub open spec fn all_play_by_rules(players: Seq<Player>) -> bool {
    forall|j: int| 0 <= j < players.len() ==> plays_by_rules(#[trigger] players[j])
}

/// Every betting strategy has seen the card: each running count is what the
/// strategy makes of the count before and the card.
pub open spec fn counts_moved(before: Seq<Player>, after: Seq<Player>, card: Card) -> bool {
    &&& before.len() == after.len()
    &&& forall|j: int|
        0 <= j < after.len() ==> (#[trigger] after[j]).running_count() == before[j].count_after(
            card,
        )
}

/// Every betting strategy has a running count of zero.
pub open spec fn counts_reset(players: Seq<Player>) -> bool {
    forall|j: int| 0 <= j < players.len() ==> (#[trigger] players[j]).running_count() == 0
}

/// A hand put at the end of the line adds its cards to those held and, unless
/// it is completed, one to the hands that are open.
pub proof fn lemma_hands_push(hands: Seq<ActiveHand>, hand: ActiveHand)
    ensures
        cards_of(hands.push(hand)) == cards_of(hands).add(hand.hand@.to_multiset()),
        cards_held(hands.push(hand)) == cards_held(hands) + hand.hand@.len(),
        open_hands(hands.push(hand)) == open_hands(hands) + if hand.completed {
            0nat
        } else {
            1nat
        },
{
    assert(hands.push(hand).drop_last() =~= hands);
}

/// A hand that changes takes its old cards out of those held and puts its new
/// ones in, and counts as open by its new state.
pub proof fn lemma_hands_update(hands: Seq<ActiveHand>, i: int, hand: ActiveHand)
    requires
        0 <= i < hands.len(),
    ensures
        cards_of(hands.update(i, hand)).add(hands[i].hand@.to_multiset()) == cards_of(hands).add(
            hand.hand@.to_multiset(),
        ),
        forall|card: Card|
            #[trigger] cards_of(hands.update(i, hand)).count(card)
                + hands[i].hand@.to_multiset().count(card) == cards_of(hands).count(card)
                + hand.hand@.to_multiset().count(card),
        cards_held(hands.update(i, hand)) == cards_held(hands) - hands[i].hand@.len()
            + hand.hand@.len(),
        open_hands(hands.update(i, hand)) + (if hands[i].completed {
            0nat
        } else {
            1nat
        }) == open_hands(hands) + if hand.completed {
            0nat
        } else {
            1nat
        },
    decreases hands.len(),
{
    let updated = hands.update(i, hand);
    let front = hands.drop_last();
    let old_cards = hands[i].hand@.to_multiset();
    let new_cards = hand.hand@.to_multiset();
    if i == hands.len() - 1 {
        assert(updated.drop_last() =~= front);
    } else {
        assert(updated.drop_last() =~= front.update(i, hand));
        lemma_hands_update(front, i, hand);
        assert(front[i] == hands[i]);
        assert forall|card: Card|
            cards_of(front.update(i, hand)).count(card) + old_cards.count(card) == cards_of(
                front,
            ).count(card) + new_cards.count(card) by {
            assert(cards_of(front.update(i, hand)).add(old_cards).count(card) == cards_of(
                front,
            ).add(new_cards).count(card));
        }
    }
    assert(cards_of(updated).add(old_cards) =~= cards_of(hands).add(new_cards));
    assert forall|card: Card|
        #[trigger] cards_of(updated).count(card) + old_cards.count(card) == cards_of(hands).count(
            card,
        ) + new_cards.count(card) by {
        assert(cards_of(updated).add(old_cards).count(card) == cards_of(hands).add(
            new_cards,
        ).count(card));
    }
}

/// A hand put at the end of the line adds its pot to what its seat has at
/// stake.
pub proof fn lemma_staked_push(hands: Seq<ActiveHand>, hand: ActiveHand)
    ensures
        forall|j: int|
            (#[trigger] staked(hands.push(hand), j)) == staked(hands, j) + stake_of(hand, j),
{
    assert(hands.push(hand).drop_last() =~= hands);
}

/// A hand that changes takes its old pot out of what its seat has at stake
/// and puts its new one in.
pub proof fn lemma_staked_update(hands: Seq<ActiveHand>, i: int, hand: ActiveHand)
    requires
        0 <= i < hands.len(),
    ensures
        forall|j: int|
            (#[trigger] staked(hands.update(i, hand), j)) == staked(hands, j) - stake_of(
                hands[i],
                j,
            ) + stake_of(hand, j),
    decreases hands.len(),
{
    let updated = hands.update(i, hand);
    let front = hands.drop_last();
    if i == hands.len() - 1 {
        assert(updated.drop_last() =~= front);
    } else {
        assert(updated.drop_last() =~= front.update(i, hand));
        lemma_staked_update(front, i, hand);
        assert(front[i] == hands[i]);
    }
    assert forall|j: int|
        (#[trigger] staked(updated, j)) == staked(hands, j) - stake_of(hands[i], j) + stake_of(
            hand,
            j,
        ) by {
        if i < hands.len() - 1 {
            assert(staked(front.update(i, hand), j) == staked(front, j) - stake_of(front[i], j)
                + stake_of(hand, j));
        }
    }
}

/// Hands in order hold two cards each at least.
pub proof fn lemma_hands_counted(hands: Seq<ActiveHand>, seats: int)
    requires
        hands_ok(hands, seats),
    ensures
        2 * hands.len() <= cards_held(hands),
    decreases hands.len(),
{
    if hands.len() > 0 {
        lemma_hands_counted(hands.drop_last(), seats);
    }
}

/// No more players are seated among the first `n` than among all, nor more
/// than `n`.
pub proof fn lemma_seated_prefix(players: Seq<Player>, n: int)
    requires
        0 <= n <= players.len(),
    ensures
        seated(players.take(n)) <= seated(players),
        seated(players.take(n)) <= n,
    decreases players.len() - n,
{
    lemma_seated_bound(players.take(n));
    if n < players.len() {
        lemma_seated_prefix(players, n + 1);
        assert(players.take(n + 1).drop_last() =~= players.take(n));
    } else {
        assert(players.take(n) =~= players);
        lemma_seated_bound(players);
    }
}

/// Where nobody is seated, no balance covers the table minimum.
pub proof fn lemma_none_seated(players: Seq<Player>)
    requires
        seated(players) == 0,
    ensures
        forall|j: int| 0 <= j < players.len() ==> (#[trigger] players[j]).balance < MIN_BET,
    decreases players.len(),
{
    if players.len() > 0 {
        lemma_none_seated(players.drop_last());
        assert forall|j: int| 0 <= j < players.len() implies (#[trigger] players[j]).balance
            < MIN_BET by {
            if j < players.len() - 1 {
                assert(players[j] == players.drop_last()[j]);
            }
        }
    }
}

/// No more players are seated than there are.
pub proof fn lemma_seated_bound(players: Seq<Player>)
    ensures
        seated(players) <= players.len(),
    decreases players.len(),
{
    if players.len() > 0 {
        lemma_seated_bound(players.drop_last());
    }
}

/// A card that goes from the shoe to hand `i` stays on the table.
pub proof fn lemma_card_to_hand(
    shoe_before: Multiset<Card>,
    shoe_after: Multiset<Card>,
    dealer: Multiset<Card>,
    before: Seq<ActiveHand>,
    after: Seq<ActiveHand>,
    i: int,
    card: Card,
)
    requires
        0 <= i < before.len(),
        shoe_before == shoe_after.insert(card),
        after == before.update(i, after[i]),
        after[i].hand@ == before[i].hand@.push(card),
    ensures
        shoe_after.add(dealer).add(cards_of(after)) == shoe_before.add(dealer).add(
            cards_of(before),
        ),
{
    lemma_hands_update(before, i, after[i]);
    lemma_card_added(before[i].hand@, card);
    assert(shoe_after.add(dealer).add(cards_of(after)) =~= shoe_before.add(dealer).add(
        cards_of(before),
    ));
}

/// A hand that keeps its cards leaves the cards of the table as they are.
pub proof fn lemma_cards_kept(before: Seq<ActiveHand>, after: Seq<ActiveHand>, i: int)
    requires
        0 <= i < before.len(),
        after == before.update(i, after[i]),
        after[i].hand@ == before[i].hand@,
    ensures
        cards_of(after) == cards_of(before),
{
    lemma_hands_update(before, i, after[i]);
    assert(cards_of(after) =~= cards_of(before));
}

/// A split keeps every card on the table: the pair is parted between the
/// two hands, and each gets a card from the shoe.
pub proof fn lemma_split_cards(
    shoe_before: Multiset<Card>,
    shoe_after: Multiset<Card>,
    dealer: Multiset<Card>,
    before: Seq<ActiveHand>,
    kept: Seq<ActiveHand>,
    made: ActiveHand,
    i: int,
    first: Card,
    second: Card,
)
    requires
        0 <= i < before.len(),
        before[i].hand@.len() == 2,
        shoe_before == shoe_after.insert(second).insert(first),
        kept == before.update(i, kept[i]),
        kept[i].hand@ == before[i].hand@.drop_last().push(first),
        made.hand@ == Seq::<Card>::empty().push(before[i].hand@[1]).push(second),
    ensures
        shoe_after.add(dealer).add(cards_of(kept.push(made))) == shoe_before.add(dealer).add(
            cards_of(before),
        ),
{
    let pair = before[i].hand@;
    let head = pair.drop_last();
    assert(head.push(pair[1]) =~= pair);
    lemma_hands_update(before, i, kept[i]);
    lemma_hands_push(kept, made);
    lemma_card_added(head, pair[1]);
    lemma_card_added(head, first);
    lemma_no_cards();
    lemma_card_added(Seq::<Card>::empty(), pair[1]);
    lemma_card_added(Seq::<Card>::empty().push(pair[1]), second);
    assert(shoe_after.add(dealer).add(cards_of(kept.push(made))) =~= shoe_before.add(dealer).add(
        cards_of(before),
    ));
}

/// The cards that an action takes from the shoe.
pub open spec fn cards_needed(action: Action) -> nat {
    match action {
        Action::Hit | Action::Double => 1,
        Action::Split => 2,
        Action::Stand => 0,
    }
}

/// Why an action is refused on a hand, if it is: a double on anything but
/// two cards, a split of anything but a pair, or a shoe that cannot give the
/// cards that the action takes.
pub open spec fn refusal(action: Action, hand: Seq<Card>, cards_left: nat) -> Option<RoundError> {
    if action == Action::Double && hand.len() != 2 {
        Some(RoundError::IllegalDouble)
    } else if action == Action::Split && !is_pair(hand) {
        Some(RoundError::IllegalSplit)
    } else if cards_needed(action) > cards_left {
        Some(RoundError::OutOfCards)
    } else {
        None
    }
}

/// What an action makes of the hand it is played on. A hit adds a card; a
/// stand completes the hand; a double adds a card, doubles the pot and
/// completes the hand; a split keeps the first card and adds one, and
/// completes the hand where the pair was of aces.
pub open spec fn played(before: ActiveHand, after: ActiveHand, action: Action) -> bool {
    &&& after.player == before.player
    &&& after.seat == before.seat
    &&& after.blackjack == before.blackjack
    &&& match action {
        Action::Hit => after.hand@.drop_last() == before.hand@ && after.hand@.len()
            == before.hand@.len() + 1 && after.pot == before.pot && !after.completed,
        Action::Stand => after.hand@ == before.hand@ && after.pot == before.pot
            && after.completed,
        Action::Double => after.hand@.drop_last() == before.hand@ && after.hand@.len()
            == before.hand@.len() + 1 && after.pot == 2 * before.pot && after.completed,
        Action::Split => after.hand@.len() == 2 && after.hand@[0] == before.hand@[0]
            && after.pot == before.pot && after.completed == (before.hand@[1].face == Face::Ace),
    }
}

/// The hand that a split makes beside the one it is played on: the second
/// card of the pair and a fresh one, an equal pot, no blackjack.
pub open spec fn split_off(before: ActiveHand, made: ActiveHand) -> bool {
    &&& made.player == before.player
    &&& made.seat == before.seat
    &&& made.hand@.len() == 2
    &&& made.hand@[0] == before.hand@[1]
    &&& made.pot == before.pot
    &&& !made.blackjack
    &&& made.completed == (before.hand@[1].face == Face::Ace)
}

/// What an action takes out of the owner's balance: the pot for a double or
/// a split.
pub open spec fn debit(action: Action, pot: int) -> int {
    if action == Action::Double || action == Action::Split {
        pot
    } else {
        0
    }
}

} // verus!
