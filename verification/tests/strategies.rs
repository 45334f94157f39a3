use midas::ai::betting::MIN_BET;
use midas::{
    stake,
    get_hard_total_action, get_soft_total_action, should_split, Action, ActionStrategy,
    BettingStrategy, Card, Face, FlatBettingStrategy, Hand, HiLoCountingStrategy,
    OptimalActionStrategy, Player, SimpleActionStrategy, Suit,
};

const FACES: [Face; 13] = [
    Face::Ace,
    Face::Two,
    Face::Three,
    Face::Four,
    Face::Five,
    Face::Six,
    Face::Seven,
    Face::Eight,
    Face::Nine,
    Face::Ten,
    Face::Jack,
    Face::Queen,
    Face::King,
];

fn held(faces: &[Face]) -> Hand {
    let mut hand = Hand::new();
    for face in faces {
        hand.add_card(Card { suit: Suit::Heart, face: *face });
    }
    hand
}

fn up(face: Face) -> Card {
    Card { suit: Suit::Spade, face }
}

struct Greedy;

impl BettingStrategy for Greedy {
    fn bet(&self, _remaining: i64) -> i64 {
        1_000_000
    }

    fn card_dealt(&mut self, _card: &Card) {}

    fn shuffled(&mut self) {}
}

struct Timid;

impl BettingStrategy for Timid {
    fn bet(&self, _remaining: i64) -> i64 {
        -5
    }

    fn card_dealt(&mut self, _card: &Card) {}

    fn shuffled(&mut self) {}
}

#[test]
fn player_default() {
    let player = Player::default();
    assert_eq!(player.balance, 0);
}

#[test]
fn player_new() {
    let player = Player::new(0, 100, Box::new(SimpleActionStrategy), Box::new(FlatBettingStrategy));
    assert_eq!(player.balance, 100);
}

#[test]
fn payout() {
    let mut player = Player::default();
    player.payout(100);
    assert_eq!(player.balance, 100);
}

#[test]
fn player_answers_by_its_action_strategy() {
    let simple =
        Player::new(0, 100, Box::new(SimpleActionStrategy), Box::new(FlatBettingStrategy));
    let optimal =
        Player::new(1, 100, Box::new(OptimalActionStrategy), Box::new(FlatBettingStrategy));
    let sixteen = held(&[Face::Ten, Face::Six]);
    assert_eq!(simple.action(&sixteen, &up(Face::Five)), Action::Stand);
    assert_eq!(optimal.action(&sixteen, &up(Face::Five)), Action::Stand);
    assert_eq!(simple.action(&sixteen, &up(Face::Ten)), Action::Stand);
    assert_eq!(optimal.action(&sixteen, &up(Face::Ten)), Action::Hit);
    let fives = held(&[Face::Five, Face::Five]);
    assert_eq!(simple.action(&fives, &up(Face::Six)), Action::Split);
    assert_eq!(optimal.action(&fives, &up(Face::Six)), Action::Double);
}

#[test]
fn player_passes_cards_on_to_its_betting_strategy() {
    let mut counting = Player::new(
        0,
        100,
        Box::new(SimpleActionStrategy),
        Box::new(HiLoCountingStrategy::new()),
    );
    let mut flat =
        Player::new(1, 100, Box::new(SimpleActionStrategy), Box::new(FlatBettingStrategy));
    for face in [Face::Two, Face::Six, Face::Eight, Face::Four, Face::King, Face::Five] {
        counting.card_dealt(&up(face));
        flat.card_dealt(&up(face));
    }
    // four low cards and one high card: three over the table minimum
    assert_eq!(counting.bet(), 26);
    assert_eq!(counting.balance, 74);
    assert_eq!(counting.id, 0);
    assert_eq!(flat.bet(), 20);
    assert_eq!(flat.balance, 80);
}

#[test]
fn deduct_may_go_below_zero() {
    let mut player =
        Player::new(3, 5, Box::new(SimpleActionStrategy), Box::new(FlatBettingStrategy));
    player.deduct(10);
    assert_eq!(player.balance, -5);
    assert_eq!(player.id, 3);
}

#[test]
fn flat_bet_is_the_table_minimum() {
    // ten chips, counted in half chips
    assert_eq!(MIN_BET, 20);
    assert_eq!(FlatBettingStrategy.bet(100), 20);
    assert_eq!(FlatBettingStrategy.bet(20), 20);
    let mut player =
        Player::new(0, 100, Box::new(SimpleActionStrategy), Box::new(FlatBettingStrategy));
    assert_eq!(player.bet(), 20);
    assert_eq!(player.balance, 80);
}

#[test]
fn wager_is_held_to_whole_chips() {
    let mut player = Player::new(0, 41, Box::new(SimpleActionStrategy), Box::new(Greedy));
    assert_eq!(player.bet(), 40);
    assert_eq!(player.balance, 1);
    assert_eq!(stake(27, 100), 26);
    assert_eq!(stake(26, 100), 26);
    assert_eq!(stake(1_000, 55), 54);
    assert_eq!(stake(3, 55), 20);
}

#[test]
fn wager_is_held_to_the_balance() {
    let mut player = Player::new(0, 40, Box::new(SimpleActionStrategy), Box::new(Greedy));
    assert_eq!(player.bet(), 40);
    assert_eq!(player.balance, 0);
}

#[test]
fn wager_is_held_to_the_table_minimum() {
    let mut player = Player::new(0, 40, Box::new(SimpleActionStrategy), Box::new(Timid));
    assert_eq!(player.bet(), 20);
    assert_eq!(player.balance, 20);
}

#[test]
fn hilo_counts_low_against_high() {
    let mut hilo = HiLoCountingStrategy::new();
    assert_eq!(hilo.count(), 0);
    for face in [Face::Two, Face::Three, Face::Four, Face::Five, Face::Six] {
        hilo.card_dealt(&up(face));
    }
    assert_eq!(hilo.count(), 5);
    for face in [Face::Seven, Face::Eight, Face::Nine] {
        hilo.card_dealt(&up(face));
    }
    assert_eq!(hilo.count(), 5);
    for face in [Face::Ten, Face::Jack, Face::Queen, Face::King, Face::Ace, Face::Ace] {
        hilo.card_dealt(&up(face));
    }
    assert_eq!(hilo.count(), -1);
}

#[test]
fn hilo_wager_follows_a_positive_count() {
    let mut hilo = HiLoCountingStrategy::new();
    assert_eq!(hilo.bet(100), 20);
    hilo.card_dealt(&up(Face::Two));
    hilo.card_dealt(&up(Face::Five));
    hilo.card_dealt(&up(Face::Six));
    // one chip more for each point of the count
    assert_eq!(hilo.bet(100), 26);
    assert_eq!(hilo.bet(25), 25);
    assert_eq!(hilo.bet(26), 26);
    assert_eq!(hilo.bet(27), 26);
    let mut cold = HiLoCountingStrategy::new();
    cold.card_dealt(&up(Face::King));
    cold.card_dealt(&up(Face::Ace));
    assert_eq!(cold.count(), -2);
    assert_eq!(cold.bet(100), 20);
}

#[test]
fn hilo_count_starts_over_on_a_shuffle() {
    let mut hilo = HiLoCountingStrategy::new();
    for _ in 0..7 {
        hilo.card_dealt(&up(Face::Four));
    }
    assert_eq!(hilo.count(), 7);
    hilo.shuffled();
    assert_eq!(hilo.count(), 0);
    hilo.card_dealt(&up(Face::Queen));
    assert_eq!(hilo.count(), -1);
    hilo.shuffled();
    assert_eq!(hilo.count(), 0);
}

#[test]
fn simple_strategy_decisions() {
    let simple = SimpleActionStrategy;
    let dealer = up(Face::Six);
    assert_eq!(simple.action(&held(&[Face::Eight, Face::Eight]), &dealer), Action::Split);
    assert_eq!(simple.action(&held(&[Face::Five, Face::Six]), &dealer), Action::Double);
    assert_eq!(simple.action(&held(&[Face::Five, Face::Four, Face::Two]), &dealer), Action::Hit);
    assert_eq!(simple.action(&held(&[Face::Ten, Face::Four]), &dealer), Action::Hit);
    assert_eq!(simple.action(&held(&[Face::Ten, Face::Five]), &dealer), Action::Stand);
    assert_eq!(simple.action(&held(&[Face::Ten, Face::Nine]), &dealer), Action::Stand);
    assert_eq!(simple.action(&held(&[Face::Two, Face::Three]), &dealer), Action::Hit);
}

#[test]
fn split_table() {
    for dealer in FACES {
        assert!(should_split(Face::Ace, dealer));
        assert!(should_split(Face::Eight, dealer));
        assert!(!should_split(Face::Ten, dealer));
        assert!(!should_split(Face::Jack, dealer));
        assert!(!should_split(Face::Queen, dealer));
        assert!(!should_split(Face::King, dealer));
        assert!(!should_split(Face::Five, dealer));
    }
    let splits = |pair: Face| -> Vec<Face> {
        FACES.iter().copied().filter(|d| should_split(pair, *d)).collect()
    };
    assert_eq!(
        splits(Face::Nine),
        vec![Face::Two, Face::Three, Face::Four, Face::Five, Face::Six, Face::Eight, Face::Nine]
    );
    assert_eq!(
        splits(Face::Seven),
        vec![Face::Two, Face::Three, Face::Four, Face::Five, Face::Six, Face::Seven]
    );
    for pair in [Face::Six, Face::Three, Face::Two] {
        assert_eq!(
            splits(pair),
            vec![Face::Two, Face::Three, Face::Four, Face::Five, Face::Six]
        );
    }
    assert_eq!(splits(Face::Four), vec![Face::Four, Face::Five]);
}

#[test]
fn soft_totals() {
    for dealer in FACES {
        assert_eq!(get_soft_total_action(20, true, dealer), Action::Stand);
        assert_eq!(get_soft_total_action(20, false, dealer), Action::Stand);
    }
    assert_eq!(get_soft_total_action(19, true, Face::Six), Action::Double);
    assert_eq!(get_soft_total_action(19, false, Face::Six), Action::Stand);
    assert_eq!(get_soft_total_action(19, true, Face::Five), Action::Stand);
    assert_eq!(get_soft_total_action(18, true, Face::Seven), Action::Stand);
    assert_eq!(get_soft_total_action(18, true, Face::Eight), Action::Stand);
    assert_eq!(get_soft_total_action(18, true, Face::Nine), Action::Hit);
    assert_eq!(get_soft_total_action(18, true, Face::King), Action::Hit);
    assert_eq!(get_soft_total_action(18, true, Face::Ace), Action::Hit);
    assert_eq!(get_soft_total_action(18, true, Face::Two), Action::Double);
    assert_eq!(get_soft_total_action(18, false, Face::Two), Action::Stand);
    assert_eq!(get_soft_total_action(17, true, Face::Three), Action::Double);
    assert_eq!(get_soft_total_action(17, false, Face::Three), Action::Hit);
    assert_eq!(get_soft_total_action(17, true, Face::Two), Action::Hit);
    assert_eq!(get_soft_total_action(17, true, Face::Seven), Action::Hit);
    assert_eq!(get_soft_total_action(16, true, Face::Four), Action::Double);
    assert_eq!(get_soft_total_action(15, true, Face::Three), Action::Hit);
    assert_eq!(get_soft_total_action(15, false, Face::Six), Action::Hit);
    assert_eq!(get_soft_total_action(14, true, Face::Five), Action::Double);
    assert_eq!(get_soft_total_action(14, true, Face::Four), Action::Hit);
    assert_eq!(get_soft_total_action(13, true, Face::Six), Action::Double);
    assert_eq!(get_soft_total_action(13, false, Face::Six), Action::Hit);
    assert_eq!(get_soft_total_action(13, true, Face::Ace), Action::Hit);
}

#[test]
fn hard_totals() {
    for dealer in FACES {
        for total in 17..=20 {
            assert_eq!(get_hard_total_action(total, true, dealer), Action::Stand);
        }
        for total in 4..=8 {
            assert_eq!(get_hard_total_action(total, true, dealer), Action::Hit);
        }
        assert_eq!(get_hard_total_action(11, true, dealer), Action::Double);
        assert_eq!(get_hard_total_action(11, false, dealer), Action::Hit);
    }
    assert_eq!(get_hard_total_action(16, true, Face::Six), Action::Stand);
    assert_eq!(get_hard_total_action(13, false, Face::Two), Action::Stand);
    assert_eq!(get_hard_total_action(13, true, Face::Seven), Action::Hit);
    assert_eq!(get_hard_total_action(16, true, Face::Ace), Action::Hit);
    assert_eq!(get_hard_total_action(12, true, Face::Four), Action::Stand);
    assert_eq!(get_hard_total_action(12, true, Face::Three), Action::Hit);
    assert_eq!(get_hard_total_action(12, true, Face::Seven), Action::Hit);
    assert_eq!(get_hard_total_action(10, true, Face::Nine), Action::Double);
    assert_eq!(get_hard_total_action(10, true, Face::Two), Action::Double);
    assert_eq!(get_hard_total_action(10, true, Face::Ten), Action::Hit);
    assert_eq!(get_hard_total_action(10, true, Face::Ace), Action::Hit);
    assert_eq!(get_hard_total_action(10, false, Face::Nine), Action::Hit);
    assert_eq!(get_hard_total_action(9, true, Face::Three), Action::Double);
    assert_eq!(get_hard_total_action(9, true, Face::Two), Action::Hit);
    assert_eq!(get_hard_total_action(9, true, Face::Seven), Action::Hit);
    assert_eq!(get_hard_total_action(9, false, Face::Three), Action::Hit);
}

#[test]
fn optimal_strategy_decisions() {
    let optimal = OptimalActionStrategy;
    assert_eq!(optimal.action(&held(&[Face::Ace, Face::Ace]), &up(Face::King)), Action::Split);
    assert_eq!(optimal.action(&held(&[Face::Eight, Face::Eight]), &up(Face::Ace)), Action::Split);
    // a pair that is not split is played by its total
    assert_eq!(optimal.action(&held(&[Face::Ten, Face::Ten]), &up(Face::Six)), Action::Stand);
    assert_eq!(optimal.action(&held(&[Face::Five, Face::Five]), &up(Face::Six)), Action::Double);
    assert_eq!(optimal.action(&held(&[Face::Four, Face::Four]), &up(Face::Two)), Action::Hit);
    // soft totals
    assert_eq!(optimal.action(&held(&[Face::Ace, Face::Seven]), &up(Face::Three)), Action::Double);
    assert_eq!(
        optimal.action(&held(&[Face::Ace, Face::Three, Face::Four]), &up(Face::Three)),
        Action::Stand
    );
    assert_eq!(optimal.action(&held(&[Face::Ace, Face::Six]), &up(Face::Ten)), Action::Hit);
    // hard totals
    assert_eq!(optimal.action(&held(&[Face::Ten, Face::Six]), &up(Face::Ten)), Action::Hit);
    assert_eq!(optimal.action(&held(&[Face::Ten, Face::Six]), &up(Face::Five)), Action::Stand);
    assert_eq!(
        optimal.action(&held(&[Face::Ace, Face::Six, Face::King]), &up(Face::Five)),
        Action::Stand
    );
    assert_eq!(
        optimal.action(&held(&[Face::Five, Face::Three, Face::Three]), &up(Face::Five)),
        Action::Hit
    );
}

#[test]
fn builtin_strategies_offer_legal_actions() {
    for a in FACES {
        for b in FACES {
            for dealer in FACES {
                let two = held(&[a, b]);
                if two.value() < 21 {
                    for action in [
                        SimpleActionStrategy.action(&two, &up(dealer)),
                        OptimalActionStrategy.action(&two, &up(dealer)),
                    ] {
                        if action == Action::Split {
                            assert_eq!(a, b);
                        }
                    }
                }
                let three = held(&[a, b, Face::Two]);
                if three.value() < 21 {
                    for action in [
                        SimpleActionStrategy.action(&three, &up(dealer)),
                        OptimalActionStrategy.action(&three, &up(dealer)),
                    ] {
                        assert_ne!(action, Action::Split);
                        assert_ne!(action, Action::Double);
                    }
                }
            }
        }
    }
}
