use shielded_game::{Card, PlayerHand, ShieldedGame};

#[test]
fn test_confidential_gameplay() {
    let mut game = ShieldedGame::new();

    // Player 1 gets hidden cards (Ace of Hearts, 10 of Spades)
    game.deal_hand(1, vec![
        Card { suit: 0, value: 14 },
        Card { suit: 3, value: 10 },
    ]);

    // Player 2 gets hidden cards (King of Clubs, Queen of Diamonds)
    game.deal_hand(2, vec![
        Card { suit: 2, value: 13 },
        Card { suit: 1, value: 12 },
    ]);

    let winner = game.determine_winner();

    println!("\n--- Game Audit ---");
    println!("Status: Cards are encrypted via MPC cluster.");
    println!("Computing winner without revealing hand values...");

    assert_eq!(winner, Some(2)); // Player 2 total (25) > Player 1 total (24)
    println!("✅ Winner Determined: Player {} wins the pot!", winner.unwrap());
}

#[test]
fn hand_scores_are_exact_sums() {
    let first = PlayerHand {
        player_id: 1,
        cards: vec![Card { suit: 0, value: 14 }, Card { suit: 3, value: 10 }],
    };
    let second = PlayerHand {
        player_id: 2,
        cards: vec![Card { suit: 2, value: 13 }, Card { suit: 1, value: 12 }],
    };
    assert_eq!(first.score(), 24);
    assert_eq!(second.score(), 25);
}

#[test]
fn score_ignores_card_order() {
    let one_way = PlayerHand {
        player_id: 3,
        cards: vec![
            Card { suit: 0, value: 2 },
            Card { suit: 1, value: 7 },
            Card { suit: 2, value: 11 },
        ],
    };
    let other_way = PlayerHand {
        player_id: 3,
        cards: vec![
            Card { suit: 2, value: 11 },
            Card { suit: 0, value: 2 },
            Card { suit: 1, value: 7 },
        ],
    };
    assert_eq!(one_way.score(), 20);
    assert_eq!(other_way.score(), 20);
}

#[test]
fn empty_game_has_no_winner() {
    let game = ShieldedGame::new();
    assert_eq!(game.determine_winner(), None);
}

#[test]
fn lone_zero_card_hand_cannot_win() {
    let mut game = ShieldedGame::new();
    game.deal_hand(1, vec![]);
    let hand = PlayerHand { player_id: 1, cards: vec![] };
    assert_eq!(hand.score(), 0);
    // A score of zero never exceeds the initial zero threshold.
    assert_eq!(game.determine_winner(), None);
}

#[test]
fn tie_keeps_earlier_player() {
    let mut game = ShieldedGame::new();
    // Both hands sum to 20; player 5 was dealt first.
    game.deal_hand(5, vec![
        Card { suit: 0, value: 10 },
        Card { suit: 1, value: 10 },
    ]);
    game.deal_hand(7, vec![
        Card { suit: 2, value: 13 },
        Card { suit: 3, value: 7 },
    ]);
    assert_eq!(game.determine_winner(), Some(5));
}

#[test]
fn winner_is_among_players() {
    let mut game = ShieldedGame::new();
    game.deal_hand(11, vec![Card { suit: 0, value: 4 }]);
    game.deal_hand(22, vec![Card { suit: 1, value: 9 }]);
    game.deal_hand(33, vec![Card { suit: 2, value: 6 }]);
    let winner = game.determine_winner();
    assert!([11, 22, 33].contains(&winner.unwrap()));
    assert_eq!(winner, Some(22));
}

#[test]
fn higher_scoring_hand_takes_lead() {
    let mut game = ShieldedGame::new();
    game.deal_hand(1, vec![Card { suit: 0, value: 5 }]);
    game.deal_hand(2, vec![Card { suit: 1, value: 8 }]);
    assert_eq!(game.determine_winner(), Some(2));
    // A hand beating every score so far moves the win to its player.
    game.deal_hand(3, vec![
        Card { suit: 2, value: 6 },
        Card { suit: 3, value: 6 },
    ]);
    assert_eq!(game.determine_winner(), Some(3));
}

#[test]
fn lower_or_equal_hand_keeps_winner() {
    let mut game = ShieldedGame::new();
    game.deal_hand(1, vec![Card { suit: 0, value: 9 }]);
    // Equal score: the earlier leader stays.
    game.deal_hand(2, vec![Card { suit: 1, value: 9 }]);
    assert_eq!(game.determine_winner(), Some(1));
    // Lower score: the leader stays as well.
    game.deal_hand(3, vec![Card { suit: 2, value: 3 }]);
    assert_eq!(game.determine_winner(), Some(1));
}

#[test]
fn out_of_range_cards_are_accepted() {
    let mut game = ShieldedGame::new();
    // Neither suit nor value is validated; scoring still sums the values.
    game.deal_hand(8, vec![Card { suit: 9, value: 200 }]);
    let hand = PlayerHand { player_id: 8, cards: vec![Card { suit: 9, value: 200 }] };
    assert_eq!(hand.score(), 200);
    assert_eq!(game.determine_winner(), Some(8));
}
