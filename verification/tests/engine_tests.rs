use poker::cards::{shuffle, Card, Deck, HoleCards, Rank, Suit};
use poker::evaluator::{beats, evaluate_cards, HandValues};
use poker::hand::{
    advance_street, create_hand, deal, new_hand, play, showdown, Deal, HandStatus,
    IllegalMoveReason, Player, PlayerMove, PlayerState, PokerError,
};

fn s(s: &str) -> String {
    s.to_owned()
}

fn ace_deck() -> Deck {
    vec![
        Card(Suit::Heart, Rank::Ace),
        Card(Suit::Diamond, Rank::Ace),
        Card(Suit::Club, Rank::Ace),
        Card(Suit::Spade, Rank::Ace),
    ]
}

fn two_players(stack0: usize, stack1: usize, deck: Deck) -> poker::hand::Hand {
    new_hand(
        vec![Player::new(s("Will"), stack0), Player::new(s("Jean"), stack1)],
        deck,
    )
    .unwrap()
}

#[test]
fn shuffle_produces_every_card_exactly_once() {
    let deck = shuffle(42);
    assert_eq!(deck.len(), 52);
    let suits = [Suit::Diamond, Suit::Heart, Suit::Club, Suit::Spade];
    let ranks = [
        Rank::Two,
        Rank::Three,
        Rank::Four,
        Rank::Five,
        Rank::Six,
        Rank::Seven,
        Rank::Eight,
        Rank::Nine,
        Rank::Ten,
        Rank::Jack,
        Rank::Queen,
        Rank::King,
        Rank::Ace,
    ];
    for su in suits.iter() {
        for ra in ranks.iter() {
            let mut count: usize = 0;
            for c in deck.iter() {
                if c == &Card(su.clone(), ra.clone()) {
                    count += 1;
                }
            }
            assert_eq!(count, 1);
        }
    }
}

#[test]
fn shuffle_is_deterministic_for_a_seed() {
    assert_eq!(shuffle(7), shuffle(7));
    assert_ne!(shuffle(7), shuffle(8));
}

#[test]
fn scenario_two_players_dealt_aces() {
    let mut hand = two_players(10, 2, ace_deck());
    deal(&mut hand).unwrap();
    assert_eq!(
        hand.player_state(0),
        PlayerState::Active(HoleCards(
            Card(Suit::Heart, Rank::Ace),
            Card(Suit::Diamond, Rank::Ace)
        )),
    );
    assert_eq!(
        hand.player_state(1),
        PlayerState::Dealt(HoleCards(
            Card(Suit::Club, Rank::Ace),
            Card(Suit::Spade, Rank::Ace)
        )),
    );
    assert_eq!(hand.deck().len(), 0);
    assert_eq!(hand.player_chips(0), 10);
    assert_eq!(hand.player_chips(1), 2);
}

#[test]
fn scenario_bet_deducts_stack_and_second_bet_is_illegal() {
    let mut hand = two_players(10, 2, ace_deck());
    deal(&mut hand).unwrap();
    assert_eq!(hand.pot(), 0);
    play(&mut hand, PlayerMove::Bet(3)).unwrap();
    assert_eq!(hand.pot(), 3);
    assert_eq!(hand.player_chips(0), 7);
    let r = play(&mut hand, PlayerMove::Bet(3));
    assert_eq!(
        r.unwrap_err(),
        PokerError::IllegalMove(IllegalMoveReason::BetFacingBet)
    );
    assert_eq!(hand.pot(), 3);
}

#[test]
fn scenario_fold_ends_hand_and_pot_goes_to_survivor() {
    let mut hand = two_players(10, 2, ace_deck());
    deal(&mut hand).unwrap();
    play(&mut hand, PlayerMove::Bet(3)).unwrap();
    let st = play(&mut hand, PlayerMove::Fold).unwrap();
    assert_eq!(st, HandStatus::HandEndedByFold);
    let result = showdown(&hand).unwrap();
    assert_eq!(result.winners, vec![(0, 3)]);
    assert_eq!(result.revealed.len(), 0);
}

fn flush_vs_pair_deck() -> Deck {
    vec![
        // Will's hole cards: an ace and a king.
        Card(Suit::Heart, Rank::Ace),
        Card(Suit::Diamond, Rank::King),
        // Jean's hole cards: two low clubs.
        Card(Suit::Club, Rank::Two),
        Card(Suit::Club, Rank::Three),
        // Flop: three more clubs.
        Card(Suit::Club, Rank::Five),
        Card(Suit::Club, Rank::Nine),
        Card(Suit::Club, Rank::Jack),
        // Turn: pairs Will's ace.
        Card(Suit::Spade, Rank::Ace),
        // River: a blank.
        Card(Suit::Heart, Rank::Seven),
    ]
}

#[test]
fn scenario_flush_beats_pair_at_showdown() {
    let mut hand = two_players(10, 10, flush_vs_pair_deck());
    deal(&mut hand).unwrap();
    // Pre-flop, flop, turn and river each get checked around.
    for street in [Deal::Flop, Deal::Turn, Deal::River].iter() {
        play(&mut hand, PlayerMove::Check).unwrap();
        let st = play(&mut hand, PlayerMove::Check).unwrap();
        assert_eq!(st, HandStatus::RoundClosed);
        advance_street(&mut hand).unwrap();
        assert_eq!(hand.street(), street.clone());
    }
    play(&mut hand, PlayerMove::Check).unwrap();
    let st = play(&mut hand, PlayerMove::Check).unwrap();
    assert_eq!(st, HandStatus::RoundClosed);
    let result = showdown(&hand).unwrap();
    assert_eq!(result.revealed.len(), 2);
    assert_eq!(
        result.revealed[0],
        (0, HandValues::Pair(14, 13, 11, 9))
    );
    assert_eq!(
        result.revealed[1],
        (1, HandValues::Flush(11, 9, 5, 3, 2))
    );
    assert_eq!(result.winners, vec![(1, 0)]);
}

#[test]
fn call_for_less_than_the_bet_goes_all_in() {
    let mut hand = two_players(10, 2, ace_deck());
    deal(&mut hand).unwrap();
    play(&mut hand, PlayerMove::Bet(5)).unwrap();
    let st = play(&mut hand, PlayerMove::Call).unwrap();
    assert_eq!(st, HandStatus::RoundClosed);
    assert_eq!(hand.pot(), 7);
    assert_eq!(hand.player_chips(1), 0);
    assert_eq!(
        hand.player_state(1),
        PlayerState::AllIn(HoleCards(
            Card(Suit::Club, Rank::Ace),
            Card(Suit::Spade, Rank::Ace)
        )),
    );
}

#[test]
fn evaluation_is_deterministic() {
    let cards = vec![
        Card(Suit::Heart, Rank::Two),
        Card(Suit::Diamond, Rank::Four),
        Card(Suit::Club, Rank::Six),
        Card(Suit::Spade, Rank::Eight),
        Card(Suit::Diamond, Rank::Jack),
    ];
    assert_eq!(evaluate_cards(&cards), evaluate_cards(&cards));
}

#[test]
fn evaluator_classifies_each_category() {
    let high = evaluate_cards(&vec![
        Card(Suit::Heart, Rank::Two),
        Card(Suit::Diamond, Rank::Four),
        Card(Suit::Club, Rank::Six),
        Card(Suit::Spade, Rank::Eight),
        Card(Suit::Diamond, Rank::Jack),
    ]);
    assert_eq!(high, HandValues::HighCard(11, 8, 6, 4, 2));
    let pair = evaluate_cards(&vec![
        Card(Suit::Heart, Rank::Two),
        Card(Suit::Diamond, Rank::Two),
        Card(Suit::Club, Rank::Six),
        Card(Suit::Spade, Rank::Eight),
        Card(Suit::Diamond, Rank::Jack),
    ]);
    assert_eq!(pair, HandValues::Pair(2, 11, 8, 6));
    let two_pairs = evaluate_cards(&vec![
        Card(Suit::Heart, Rank::Two),
        Card(Suit::Diamond, Rank::Two),
        Card(Suit::Club, Rank::Six),
        Card(Suit::Spade, Rank::Six),
        Card(Suit::Diamond, Rank::Jack),
    ]);
    assert_eq!(two_pairs, HandValues::TwoPairs(6, 2, 11));
    let trips = evaluate_cards(&vec![
        Card(Suit::Heart, Rank::Two),
        Card(Suit::Diamond, Rank::Two),
        Card(Suit::Club, Rank::Two),
        Card(Suit::Spade, Rank::Eight),
        Card(Suit::Diamond, Rank::Jack),
    ]);
    assert_eq!(trips, HandValues::ThreeOfAKind(2, 11, 8));
    let straight = evaluate_cards(&vec![
        Card(Suit::Heart, Rank::Two),
        Card(Suit::Diamond, Rank::Three),
        Card(Suit::Club, Rank::Four),
        Card(Suit::Spade, Rank::Five),
        Card(Suit::Diamond, Rank::Six),
    ]);
    assert_eq!(straight, HandValues::Straight(6));
    let wheel = evaluate_cards(&vec![
        Card(Suit::Heart, Rank::Ace),
        Card(Suit::Diamond, Rank::Two),
        Card(Suit::Club, Rank::Three),
        Card(Suit::Spade, Rank::Four),
        Card(Suit::Diamond, Rank::Five),
    ]);
    assert_eq!(wheel, HandValues::Straight(5));
    let flush = evaluate_cards(&vec![
        Card(Suit::Heart, Rank::Two),
        Card(Suit::Heart, Rank::Four),
        Card(Suit::Heart, Rank::Six),
        Card(Suit::Heart, Rank::Eight),
        Card(Suit::Heart, Rank::Jack),
    ]);
    assert_eq!(flush, HandValues::Flush(11, 8, 6, 4, 2));
    let full = evaluate_cards(&vec![
        Card(Suit::Heart, Rank::Two),
        Card(Suit::Diamond, Rank::Two),
        Card(Suit::Club, Rank::Two),
        Card(Suit::Spade, Rank::Eight),
        Card(Suit::Diamond, Rank::Eight),
    ]);
    assert_eq!(full, HandValues::FullHouse(2, 8));
    let quads = evaluate_cards(&vec![
        Card(Suit::Heart, Rank::Two),
        Card(Suit::Diamond, Rank::Two),
        Card(Suit::Club, Rank::Two),
        Card(Suit::Spade, Rank::Two),
        Card(Suit::Diamond, Rank::Jack),
    ]);
    assert_eq!(quads, HandValues::FourOfAKind(2, 11));
    let sf = evaluate_cards(&vec![
        Card(Suit::Heart, Rank::Two),
        Card(Suit::Heart, Rank::Three),
        Card(Suit::Heart, Rank::Four),
        Card(Suit::Heart, Rank::Five),
        Card(Suit::Heart, Rank::Six),
    ]);
    assert_eq!(sf, HandValues::StraightFlush(6));

    let ladder = [high, pair, two_pairs, trips, straight, flush, full, quads, sf];
    for i in 0..ladder.len() {
        for j in 0..i {
            assert!(beats(&ladder[i], &ladder[j]));
            assert!(!beats(&ladder[j], &ladder[i]));
        }
    }
}

#[test]
fn creation_rejects_bad_configurations() {
    let r = new_hand(vec![Player::new(s("Solo"), 10)], ace_deck());
    assert_eq!(r.unwrap_err(), PokerError::InvalidConfiguration);
    let r = new_hand(
        vec![Player::new(s("Will"), 10), Player::new(s("Jean"), 0)],
        ace_deck(),
    );
    assert_eq!(r.unwrap_err(), PokerError::InvalidConfiguration);
}

#[test]
fn deal_needs_enough_cards_and_happens_once() {
    let mut hand = two_players(10, 2, vec![Card(Suit::Heart, Rank::Ace)]);
    assert_eq!(deal(&mut hand).unwrap_err(), PokerError::InsufficientCards);
    let mut hand = two_players(10, 2, ace_deck());
    deal(&mut hand).unwrap();
    assert_eq!(
        deal(&mut hand).unwrap_err(),
        PokerError::IllegalMove(IllegalMoveReason::AlreadyDealt)
    );
}

#[test]
fn illegal_moves_leave_the_hand_unchanged() {
    let mut hand = two_players(10, 2, ace_deck());
    assert_eq!(
        play(&mut hand, PlayerMove::Check).unwrap_err(),
        PokerError::IllegalMove(IllegalMoveReason::NoActivePlayer)
    );
    assert_eq!(hand.pot(), 0);
    deal(&mut hand).unwrap();
    assert_eq!(
        play(&mut hand, PlayerMove::Call).unwrap_err(),
        PokerError::IllegalMove(IllegalMoveReason::CallNotFacingBet)
    );
    assert_eq!(
        play(&mut hand, PlayerMove::Bet(0)).unwrap_err(),
        PokerError::IllegalMove(IllegalMoveReason::BetZero)
    );
    assert_eq!(
        play(&mut hand, PlayerMove::Bet(11)).unwrap_err(),
        PokerError::IllegalMove(IllegalMoveReason::BetOverStack)
    );
    assert_eq!(
        play(&mut hand, PlayerMove::Raise(3)).unwrap_err(),
        PokerError::IllegalMove(IllegalMoveReason::RaiseWithoutBet)
    );
    assert_eq!(
        advance_street(&mut hand).unwrap_err(),
        PokerError::IllegalMove(IllegalMoveReason::RoundNotClosed)
    );
    assert_eq!(
        showdown(&hand).unwrap_err(),
        PokerError::IllegalMove(IllegalMoveReason::ShowdownNotReached)
    );
    play(&mut hand, PlayerMove::Bet(3)).unwrap();
    assert_eq!(
        play(&mut hand, PlayerMove::Check).unwrap_err(),
        PokerError::IllegalMove(IllegalMoveReason::CheckFacingBet)
    );
    assert_eq!(
        play(&mut hand, PlayerMove::Raise(2)).unwrap_err(),
        PokerError::IllegalMove(IllegalMoveReason::RaiseTooSmall)
    );
    assert_eq!(
        play(&mut hand, PlayerMove::Raise(4)).unwrap_err(),
        PokerError::IllegalMove(IllegalMoveReason::RaiseOverStack)
    );
    assert_eq!(hand.pot(), 3);
}

#[test]
fn no_street_follows_the_river() {
    let mut hand = two_players(10, 10, flush_vs_pair_deck());
    deal(&mut hand).unwrap();
    for _ in 0..3 {
        play(&mut hand, PlayerMove::Check).unwrap();
        play(&mut hand, PlayerMove::Check).unwrap();
        advance_street(&mut hand).unwrap();
    }
    play(&mut hand, PlayerMove::Check).unwrap();
    play(&mut hand, PlayerMove::Check).unwrap();
    assert_eq!(hand.street(), Deal::River);
    assert_eq!(
        advance_street(&mut hand).unwrap_err(),
        PokerError::IllegalMove(IllegalMoveReason::NoMoreStreets)
    );
}

#[test]
fn pot_collects_all_street_commitments() {
    let mut hand = two_players(10, 10, flush_vs_pair_deck());
    deal(&mut hand).unwrap();
    play(&mut hand, PlayerMove::Bet(2)).unwrap();
    play(&mut hand, PlayerMove::Call).unwrap();
    assert_eq!(hand.pot(), 4);
    advance_street(&mut hand).unwrap();
    play(&mut hand, PlayerMove::Bet(1)).unwrap();
    play(&mut hand, PlayerMove::Raise(3)).unwrap();
    play(&mut hand, PlayerMove::Call).unwrap();
    // 4 banked pre-flop, then 1 + 3 + 2 more on the flop.
    assert_eq!(hand.pot(), 10);
    assert_eq!(hand.player_street_bet(0), 3);
    assert_eq!(hand.player_street_bet(1), 3);
    assert_eq!(hand.bet_to_call(), 3);
}

#[test]
fn all_in_players_run_out_the_remaining_streets() {
    let mut hand = two_players(10, 2, flush_vs_pair_deck());
    deal(&mut hand).unwrap();
    play(&mut hand, PlayerMove::Bet(10)).unwrap();
    let st = play(&mut hand, PlayerMove::Call).unwrap();
    assert_eq!(st, HandStatus::RoundClosed);
    assert_eq!(hand.pot(), 12);
    // Nobody can act any more, so each street closes at once.
    for street in [Deal::Flop, Deal::Turn, Deal::River].iter() {
        advance_street(&mut hand).unwrap();
        assert_eq!(hand.street(), street.clone());
        assert_eq!(hand.status(), HandStatus::RoundClosed);
    }
    let result = showdown(&hand).unwrap();
    assert_eq!(result.winners, vec![(1, 12)]);
}

#[test]
fn create_hand_shuffles_a_full_deck_from_the_seed() {
    let hand = create_hand(
        vec![Player::new(s("Will"), 10), Player::new(s("Jean"), 2)],
        9,
    )
    .unwrap();
    assert_eq!(hand.deck().len(), 52);
    assert_eq!(hand.deck(), &shuffle(9));
    assert_eq!(hand.pot(), 0);
    assert_eq!(hand.status(), HandStatus::NotDealt);
}
