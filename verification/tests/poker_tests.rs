use poker::cards::{Card, Deck, HoleCards, Rank, Suit};
use poker::hand::{deal, new_hand, play, Player, PlayerMove, PlayerState};

fn s(s: &str) -> String {
    s.to_owned()
}

fn simple_deck() -> Deck {
    let mut deck = Deck::new();
    deck.push(Card(Suit::Heart, Rank::Ace));
    deck.push(Card(Suit::Diamond, Rank::Ace));
    deck.push(Card(Suit::Club, Rank::Ace));
    deck.push(Card(Suit::Spade, Rank::Ace));

    deck
}

#[test]
fn suits_display_as_icons_and_ranks_as_text() {
    assert_eq!("(♥, Ace)", Card(Suit::Heart, Rank::Ace).text());
    assert_eq!("(♦, Ten)", Card(Suit::Diamond, Rank::Ten).text());
    assert_eq!("(♣, Ace)", Card(Suit::Club, Rank::Ace).text());
    assert_eq!("(♠, Jack)", Card(Suit::Spade, Rank::Jack).text());
}

#[test]
fn new_hand_results_in_all_players_waiting_and_pot_of_zero() {
    let hand = new_hand(
        vec![Player::new(s("Will"), 10), Player::new(s("Jean"), 2)],
        simple_deck(),
    )
    .unwrap();

    assert_eq!(hand.pot(), 0);
    assert_eq!(hand.deck(), &simple_deck());
    assert_eq!(hand.player_count(), 2);
    for i in 0..hand.player_count() {
        assert_eq!(hand.player_state(i), PlayerState::WaitingToBeDealt);
    }
}

#[test]
fn deal_provides_cards_from_deck_and_sets_first_player_active() {
    let will = Player::new(s("Will"), 10);
    let mut hand = new_hand(
        vec![will.clone(), Player::new(s("Jean"), 2)],
        // Note: simple_deck just has some aces
        simple_deck(),
    )
    .unwrap();

    deal(&mut hand).unwrap();
    assert_eq!(
        hand.player_state(0),
        PlayerState::Active(HoleCards(
            simple_deck()[0].clone(),
            simple_deck()[1].clone()
        )),
    );
    assert_eq!(
        hand.player_state(hand.player_count() - 1),
        PlayerState::Dealt(HoleCards(
            simple_deck()[2].clone(),
            simple_deck()[3].clone()
        )),
    );
}

#[test]
fn check_leaves_pot_untouched() {
    let mut hand = new_hand(
        vec![Player::new(s("Will"), 10), Player::new(s("Jean"), 2)],
        simple_deck(),
    )
    .unwrap();

    deal(&mut hand).unwrap();
    play(&mut hand, PlayerMove::Check).unwrap();
    assert_eq!(hand.pot(), 0);
    assert_eq!(
        hand.player_state(1),
        PlayerState::Active(HoleCards(
            simple_deck()[2].clone(),
            simple_deck()[3].clone()
        )),
    );
}

#[test]
fn bet_increases_the_pot() {
    let mut hand = new_hand(
        vec![
            Player::new(s("Will"), 10),
            Player::new(s("Jean"), 2), // <--- loser
        ],
        simple_deck(),
    )
    .unwrap();

    deal(&mut hand).unwrap();
    play(&mut hand, PlayerMove::Bet(3)).unwrap();
    assert_eq!(hand.pot(), 3);
    assert_eq!(hand.player_chips(0), 7);
    assert_eq!(hand.bet_to_call(), 3);
}

#[test]
fn raise_increases_the_pot() {
    let mut hand = new_hand(
        vec![
            Player::new(s("Will"), 10),
            Player::new(s("Jean"), 2), // <--- loser
        ],
        simple_deck(),
    )
    .unwrap();

    deal(&mut hand).unwrap();
    play(&mut hand, PlayerMove::Bet(1)).unwrap();
    play(&mut hand, PlayerMove::Raise(2)).unwrap();
    assert_eq!(hand.pot(), 3);
    assert_eq!(hand.bet_to_call(), 2);
    assert_eq!(hand.player_chips(1), 0);
    assert_eq!(
        hand.player_state(1),
        PlayerState::AllIn(HoleCards(
            simple_deck()[2].clone(),
            simple_deck()[3].clone()
        )),
    );
}

#[test]
fn fold_sets_the_player_state_to_folded() {
    let mut hand = new_hand(
        vec![
            Player::new(s("Will"), 10),
            Player::new(s("Jean"), 2), // <--- loser
        ],
        simple_deck(),
    )
    .unwrap();

    deal(&mut hand).unwrap();
    play(&mut hand, PlayerMove::Fold).unwrap();
    assert_eq!(hand.player_state(0), PlayerState::Folded);
}
