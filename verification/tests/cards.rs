use midas::cards::shoe::DECK_SIZE;
use midas::{Card, Face, Hand, Shoe, Suit};

fn hand_of(faces: &[Face]) -> Hand {
    let mut hand = Hand::new();
    for face in faces {
        hand.add_card(Card { suit: Suit::Club, face: *face });
    }
    hand
}

#[test]
fn normal_hand_value() {
    let hand = Hand {
        cards: vec![
            Card { suit: Suit::Club, face: Face::Ten },
            Card { suit: Suit::Heart, face: Face::Seven },
        ],
    };

    assert_eq!(hand.value(), 17);
}

#[test]
fn royal_hand_value() {
    let hand = Hand {
        cards: vec![
            Card { suit: Suit::Club, face: Face::Jack },
            Card { suit: Suit::Heart, face: Face::Seven },
        ],
    };

    assert_eq!(hand.value(), 17);

    let hand = Hand {
        cards: vec![
            Card { suit: Suit::Club, face: Face::Jack },
            Card { suit: Suit::Heart, face: Face::Queen },
        ],
    };

    assert_eq!(hand.value(), 20);
}

#[test]
fn ace_hand_value() {
    let hand = Hand {
        cards: vec![
            Card { suit: Suit::Club, face: Face::Ace },
            Card { suit: Suit::Heart, face: Face::Seven },
        ],
    };

    assert_eq!(hand.value(), 18);

    let hand = Hand {
        cards: vec![
            Card { suit: Suit::Heart, face: Face::Ten },
            Card { suit: Suit::Club, face: Face::Ace },
        ],
    };

    assert_eq!(hand.value(), 21);

    let hand = Hand {
        cards: vec![
            Card { suit: Suit::Heart, face: Face::Ten },
            Card { suit: Suit::Club, face: Face::Ace },
            Card { suit: Suit::Diamond, face: Face::King },
        ],
    };

    assert_eq!(hand.value(), 21);

    let hand = Hand {
        cards: vec![
            Card { suit: Suit::Club, face: Face::Ace },
            Card { suit: Suit::Heart, face: Face::Ace },
            Card { suit: Suit::Club, face: Face::Ten },
            Card { suit: Suit::Diamond, face: Face::Ace },
        ],
    };

    assert_eq!(hand.value(), 13);
}

#[test]
fn hand_new() {
    let hand = Hand::new();
    assert_eq!(hand.len(), 0);
}

#[test]
fn hand_default() {
    let hand = Hand::default();
    assert_eq!(hand.len(), 0);
}

#[test]
fn add_card() {
    let mut hand = Hand::default();

    hand.add_card(Card { suit: Suit::Spade, face: Face::Ace });

    hand.add_card(Card { suit: Suit::Diamond, face: Face::King });

    assert_eq!(hand.len(), 2);
    assert_eq!(
        hand.cards,
        vec![
            Card { suit: Suit::Spade, face: Face::Ace },
            Card { suit: Suit::Diamond, face: Face::King }
        ]
    );
}

#[test]
fn value() {
    // Normal
    let hand = Hand {
        cards: vec![
            Card { suit: Suit::Club, face: Face::Ten },
            Card { suit: Suit::Heart, face: Face::Seven },
        ],
    };

    assert_eq!(hand.value(), 17);

    // Royal
    let hand = Hand {
        cards: vec![
            Card { suit: Suit::Club, face: Face::Jack },
            Card { suit: Suit::Heart, face: Face::Seven },
        ],
    };

    assert_eq!(hand.value(), 17);

    let hand = Hand {
        cards: vec![
            Card { suit: Suit::Club, face: Face::Jack },
            Card { suit: Suit::Heart, face: Face::Queen },
        ],
    };

    assert_eq!(hand.value(), 20);

    // Ace
    let hand = Hand {
        cards: vec![
            Card { suit: Suit::Club, face: Face::Ace },
            Card { suit: Suit::Heart, face: Face::Seven },
        ],
    };

    assert_eq!(hand.value(), 18);

    let hand = Hand {
        cards: vec![
            Card { suit: Suit::Heart, face: Face::Ten },
            Card { suit: Suit::Club, face: Face::Ace },
        ],
    };

    assert_eq!(hand.value(), 21);

    let hand = Hand {
        cards: vec![
            Card { suit: Suit::Heart, face: Face::Ten },
            Card { suit: Suit::Club, face: Face::Ace },
            Card { suit: Suit::Diamond, face: Face::King },
        ],
    };

    assert_eq!(hand.value(), 21);

    let hand = Hand {
        cards: vec![
            Card { suit: Suit::Club, face: Face::Ace },
            Card { suit: Suit::Heart, face: Face::Ace },
            Card { suit: Suit::Club, face: Face::Ten },
            Card { suit: Suit::Diamond, face: Face::Ace },
        ],
    };

    assert_eq!(hand.value(), 13);
}

#[test]
fn discard_hand() {
    let mut hand = Hand::default();

    hand.add_card(Card { suit: Suit::Diamond, face: Face::Eight });

    let discard = hand.discard_hand();

    assert_eq!(hand.len(), 0);
    assert_eq!(discard.len(), 1);
    assert_eq!(discard, vec![Card { suit: Suit::Diamond, face: Face::Eight }]);

    hand.add_card(Card { suit: Suit::Club, face: Face::Jack });
    hand.add_card(Card { suit: Suit::Spade, face: Face::Three });
    hand.add_card(Card { suit: Suit::Club, face: Face::Ace });

    let discard = hand.discard_hand();

    assert_eq!(hand.len(), 0);
    assert_eq!(discard.len(), 3);
    assert_eq!(
        discard,
        vec![
            Card { suit: Suit::Club, face: Face::Jack },
            Card { suit: Suit::Spade, face: Face::Three },
            Card { suit: Suit::Club, face: Face::Ace },
        ]
    );
}

#[test]
fn deal() {
    let mut shoe = Shoe::new();

    assert_eq!(shoe.deal().unwrap(), Card { suit: Suit::Spade, face: Face::King });
    assert_eq!(shoe.deal().unwrap(), Card { suit: Suit::Spade, face: Face::Queen });
    assert_eq!(shoe.deal().unwrap(), Card { suit: Suit::Spade, face: Face::Jack });
}

#[test]
fn deal_until_empty() {
    let mut shoe = Shoe::new();

    for _ in 0..52 {
        shoe.deal();
    }

    assert_eq!(shoe.deal(), None);
}

#[test]
fn face_values() {
    assert_eq!(Face::Ace.value(), 11);
    assert_eq!(Face::Two.value(), 2);
    assert_eq!(Face::Nine.value(), 9);
    assert_eq!(Face::Ten.value(), 10);
    assert_eq!(Face::Jack.value(), 10);
    assert_eq!(Face::Queen.value(), 10);
    assert_eq!(Face::King.value(), 10);
    assert!(Face::Ace.is_ace());
    assert!(!Face::King.is_ace());
    assert_eq!(Face::from_index(0), Face::Ace);
    assert_eq!(Face::from_index(12), Face::King);
    assert_eq!(Suit::from_index(0), Suit::Club);
    assert_eq!(Suit::from_index(3), Suit::Spade);
}

#[test]
fn value_of_two_aces_is_twelve() {
    assert_eq!(hand_of(&[Face::Ace, Face::Ace]).value(), 12);
    assert_eq!(hand_of(&[Face::Ace, Face::King]).value(), 21);
    assert_eq!(hand_of(&[Face::Ace, Face::Ace, Face::Ten, Face::Ace]).value(), 13);
    assert_eq!(hand_of(&[Face::Ten, Face::Seven]).value(), 17);
}

#[test]
fn value_of_empty_and_bust_hands() {
    assert_eq!(Hand::new().value(), 0);
    let bust = hand_of(&[Face::King, Face::Queen, Face::Two]);
    assert_eq!(bust.value(), 22);
    assert!(bust.is_bust());
    assert!(!hand_of(&[Face::King, Face::Queen, Face::Ace]).is_bust());
}

#[test]
fn value_is_the_best_total() {
    // one ace high, one low: 11 + 1 + 9
    assert_eq!(hand_of(&[Face::Ace, Face::Ace, Face::Nine]).value(), 21);
    // both low: 1 + 1 + 9 + 9
    assert_eq!(hand_of(&[Face::Ace, Face::Ace, Face::Nine, Face::Nine]).value(), 20);
    // no total within 21: the smallest one
    assert_eq!(hand_of(&[Face::Ace, Face::King, Face::Queen, Face::Five]).value(), 26);
}

#[test]
fn value_stops_at_255() {
    let mut hand = Hand::new();
    for _ in 0..30 {
        hand.add_card(Card { suit: Suit::Heart, face: Face::King });
    }
    assert_eq!(hand.value(), 255);
    assert!(hand.is_bust());
}

#[test]
fn soft_hands() {
    assert!(hand_of(&[Face::Ace, Face::Six]).is_soft());
    assert!(hand_of(&[Face::Ace, Face::King]).is_soft());
    assert!(!hand_of(&[Face::Ace, Face::Six, Face::King]).is_soft());
    assert!(!hand_of(&[Face::Ten, Face::Six]).is_soft());
    assert!(hand_of(&[Face::Ace, Face::Ace]).is_soft());
}

#[test]
fn pairs() {
    assert!(hand_of(&[Face::Eight, Face::Eight]).is_pair());
    assert!(!hand_of(&[Face::King, Face::Queen]).is_pair());
    assert!(!hand_of(&[Face::Eight, Face::Eight, Face::Eight]).is_pair());
    assert!(!hand_of(&[Face::Eight]).is_pair());
}

#[test]
fn blackjack_is_twenty_one_with_two_cards() {
    assert!(hand_of(&[Face::Ace, Face::King]).is_blackjack());
    assert!(hand_of(&[Face::Ten, Face::Ace]).is_blackjack());
    assert!(!hand_of(&[Face::Seven, Face::Seven, Face::Seven]).is_blackjack());
    assert!(!hand_of(&[Face::Ten, Face::Ace, Face::King]).is_blackjack());
    assert!(!hand_of(&[Face::Ten, Face::Nine]).is_blackjack());
}

#[test]
fn hand_is_empty() {
    let mut hand = Hand::new();
    assert!(hand.is_empty());
    hand.add_card(Card { suit: Suit::Club, face: Face::Two });
    assert!(!hand.is_empty());
}

#[test]
fn new_shoe_is_the_deck_in_factory_order() {
    let mut shoe = Shoe::new();
    assert_eq!(shoe.len(), DECK_SIZE);
    assert_eq!(shoe.discarded(), 0);
    assert!(!shoe.is_empty());
    let mut dealt = Vec::new();
    while let Some(card) = shoe.deal() {
        dealt.push(card);
    }
    assert_eq!(dealt.len(), 52);
    assert_eq!(dealt[51], Card { suit: Suit::Club, face: Face::Ace });
    assert_eq!(dealt[38], Card { suit: Suit::Diamond, face: Face::Ace });
    assert_eq!(dealt[39], Card { suit: Suit::Club, face: Face::King });
    for i in 0..52 {
        for j in 0..i {
            assert_ne!(dealt[i], dealt[j]);
        }
    }
}

#[test]
fn deal_folds_the_discards_back_in() {
    let mut shoe = Shoe::new();
    let mut dealt = Vec::new();
    while let Some(card) = shoe.deal() {
        dealt.push(card);
    }
    let before = dealt.clone();
    assert!(!shoe.needs_shuffle());
    shoe.discard(&mut dealt);
    assert!(dealt.is_empty());
    assert_eq!(shoe.discarded(), 52);
    assert!(shoe.is_empty());
    assert!(shoe.needs_shuffle());

    let first = shoe.deal().unwrap();
    assert_eq!(shoe.len(), 51);
    assert_eq!(shoe.discarded(), 0);
    let mut again = vec![first];
    while let Some(card) = shoe.deal() {
        again.push(card);
    }
    assert_eq!(again.len(), 52);
    for card in &before {
        assert_eq!(again.iter().filter(|c| *c == card).count(), 1);
    }
}

#[test]
fn shuffle_changes_the_order_and_keeps_the_cards() {
    let mut factory = Shoe::new();
    let mut in_order = Vec::new();
    while let Some(card) = factory.deal() {
        in_order.push(card);
    }

    let mut shoe = Shoe::new();
    shoe.shuffle();
    assert_eq!(shoe.len(), 52);
    let mut shuffled = Vec::new();
    while let Some(card) = shoe.deal() {
        shuffled.push(card);
    }
    assert_eq!(shuffled.len(), 52);
    assert_ne!(shuffled, in_order);
    for card in &in_order {
        assert_eq!(shuffled.iter().filter(|c| *c == card).count(), 1);
    }
}

#[test]
fn stacked_shoe_deals_from_the_end() {
    let mut shoe = Shoe::stacked(vec![
        Card { suit: Suit::Club, face: Face::Two },
        Card { suit: Suit::Heart, face: Face::Nine },
    ]);
    assert_eq!(shoe.deal(), Some(Card { suit: Suit::Heart, face: Face::Nine }));
    assert_eq!(shoe.deal(), Some(Card { suit: Suit::Club, face: Face::Two }));
    assert_eq!(shoe.deal(), None);
}
