//! The hand state machine: players and their ledgers, hole-card dealing,
//! the betting round engine with turn order and closure detection, street
//! progression, and the showdown.

use vstd::prelude::*;

use crate::cards::{Card, Deck, HoleCards, Rank, Suit};
use crate::evaluator::{HandValues, spec_evaluate, spec_beats, evaluate, beats};

verus! {

/// A participant: a name and a chip stack.
#[derive(Debug)]
pub struct Player {
    name: String,
    chips: usize,
}

impl Player {
    /// The player's name.
    pub closed spec fn spec_name(&self) -> Seq<char> {
        self.name@
    }

    /// The player's chip stack.
    pub closed spec fn spec_chips(&self) -> usize {
        self.chips
    }

    /// Makes a player with the given name and starting stack.
    pub fn new(name: String, chips: usize) -> (p: Player)
        ensures
            p.spec_name() == name@,
            p.spec_chips() == chips,
    {
        Player { name, chips }
    }

    /// The player's name.
    pub fn name(&self) -> (r: &String)
        ensures
            r@ == self.spec_name(),
    {
        &self.name
    }

    /// The player's chip stack.
    pub fn chips(&self) -> (r: usize)
        ensures
            r == self.spec_chips(),
    {
        self.chips
    }
}

impl Clone for Player {
    fn clone(&self) -> (r: Self)
        ensures
            r == *self,
    {
        Player { name: self.name.clone(), chips: self.chips }
    }
}

/// A move by the player whose turn it is.
#[derive(Debug, PartialEq, Eq, Structural, Clone, Copy)]
pub enum PlayerMove {
    /// Give up the hand.
    Fold,
    /// Pass without betting; legal only when nothing is owed.
    Check,
    /// Match the bet to call, going all-in if the stack is short.
    Call,
    /// Open the betting for this street by the given amount.
    Bet(usize),
    /// Facing a bet, put in the given amount, exceeding the call.
    Raise(usize),
}

/// A player's participation state within the hand. At most one player
/// is `Active` at a time: the one whose turn it is to act.
#[derive(Debug, PartialEq, Eq, Structural, Clone, Copy)]
pub enum PlayerState {
    /// No cards yet: the hand has not been dealt.
    WaitingToBeDealt,
    /// Holds cards and may act later this round.
    Dealt(HoleCards),
    /// Holds cards and must act now.
    Active(HoleCards),
    /// Out of the hand.
    Folded,
    /// Committed the whole stack; keeps cards but cannot act again.
    AllIn(HoleCards),
}

/// Table position of a player relative to the dealer button.
#[derive(Debug, PartialEq, Eq, Structural, Clone, Copy)]
pub enum PlayerPosition {
    Button,
    SmallBlind,
    BigBlind,
}

/// A dealing stage: the hole cards, then the three community streets.
/// As the hand's current street it marks how much of the board is out:
/// play runs Hole, Flop, Turn, River.
#[derive(Debug, PartialEq, Eq, Structural, Clone, Copy)]
pub enum Deal {
    Hole,
    Flop,
    River,
    Turn,
}

/// Where the hand stands between operations.
#[derive(Debug, PartialEq, Eq, Structural, Clone, Copy)]
pub enum HandStatus {
    /// Created, hole cards not yet dealt.
    NotDealt,
    /// A betting round is open and the seat at this index must act.
    AwaitingAction(usize),
    /// The street's betting round has closed: everyone still able to
    /// act has matched the bet to call.
    RoundClosed,
    /// All but one player folded; the hand is over without a showdown.
    HandEndedByFold,
}

/// Why an operation was refused.
#[derive(Debug, PartialEq, Eq, Structural, Clone, Copy)]
pub enum IllegalMoveReason {
    /// No betting round is open, so no move can be played.
    NoActivePlayer,
    /// Checking while owing chips to the pot.
    CheckFacingBet,
    /// Calling when nothing is owed.
    CallNotFacingBet,
    /// Betting when a bet already stands this street.
    BetFacingBet,
    /// A bet must move chips.
    BetZero,
    /// Betting more than the stack holds.
    BetOverStack,
    /// Raising when no bet stands this street.
    RaiseWithoutBet,
    /// A raise must exceed the standing bet to call.
    RaiseTooSmall,
    /// Raising more than the stack holds.
    RaiseOverStack,
    /// Dealing hole cards twice.
    AlreadyDealt,
    /// Advancing the street before the betting round has closed.
    RoundNotClosed,
    /// Advancing past the river.
    NoMoreStreets,
    /// Showdown before the river's round has closed, with the hand
    /// still contested.
    ShowdownNotReached,
}

/// An operation's failure. Every operation either transforms the hand
/// or returns one of these and leaves the hand unchanged.
#[derive(Debug, PartialEq, Eq, Structural, Clone, Copy)]
pub enum PokerError {
    /// The deck holds fewer cards than the deal needs.
    InsufficientCards,
    /// Fewer than two players, a player with an empty starting stack,
    /// or stacks too large to account for.
    InvalidConfiguration,
    /// The move or operation violates the betting rules.
    IllegalMove(IllegalMoveReason),
}

#[derive(Debug)]
struct Seat {
    player: Player,
    state: PlayerState,
    street_bet: usize,
    acted: bool,
}

/// One hand of play: the seats in turn order, the deck, the board, the
/// pot, and where the betting stands.
#[derive(Debug)]
pub struct Hand {
    players: Vec<Seat>,
    deck: Vec<Card>,
    community: Vec<Card>,
    pot: usize,
    prior_pot: usize,
    street: Deal,
    bet_to_call: usize,
    status: HandStatus,
}

/// How many community cards are out on a street.
pub open spec fn community_len(d: Deal) -> int {
    match d {
        Deal::Hole => 0,
        Deal::Flop => 3,
        Deal::Turn => 4,
        Deal::River => 5,
    }
}

/// The street after a street.
pub open spec fn next_street(d: Deal) -> Deal {
    match d {
        Deal::Hole => Deal::Flop,
        Deal::Flop => Deal::Turn,
        Deal::Turn => Deal::River,
        Deal::River => Deal::River,
    }
}

/// Whether a player in this state is still contesting the pot.
pub open spec fn in_hand(st: PlayerState) -> bool {
    st is Dealt || st is Active || st is AllIn
}

impl Hand {
    /// The number of seats, fixed at creation.
    pub closed spec fn spec_player_count(&self) -> nat {
        self.players@.len()
    }

    /// The participation state of seat `j`.
    pub closed spec fn seat_state(&self, j: int) -> PlayerState {
        self.players@[j].state
    }

    /// The chip stack of seat `j`.
    pub closed spec fn seat_chips(&self, j: int) -> usize {
        self.players@[j].player.chips
    }

    /// The name of seat `j`'s player.
    pub closed spec fn seat_name(&self, j: int) -> Seq<char> {
        self.players@[j].player.name@
    }

    /// What seat `j` has put in the pot this street.
    pub closed spec fn seat_bet(&self, j: int) -> usize {
        self.players@[j].street_bet
    }

    /// Whether seat `j` has acted since the bet level last changed.
    pub closed spec fn seat_acted(&self, j: int) -> bool {
        self.players@[j].acted
    }

    /// The chips collected so far, all streets included.
    pub closed spec fn spec_pot(&self) -> usize {
        self.pot
    }

    /// The chips collected before the current street began.
    pub closed spec fn spec_prior_pot(&self) -> usize {
        self.prior_pot
    }

    /// The undealt remainder of the deck.
    pub closed spec fn spec_deck(&self) -> Seq<Card> {
        self.deck@
    }

    /// The community cards dealt so far.
    pub closed spec fn spec_community(&self) -> Seq<Card> {
        self.community@
    }

    /// The current street.
    pub closed spec fn spec_street(&self) -> Deal {
        self.street
    }

    /// What a player must have put in this street to stay in without
    /// going all-in.
    pub closed spec fn spec_bet_to_call(&self) -> usize {
        self.bet_to_call
    }

    /// Where the hand stands.
    pub closed spec fn spec_status(&self) -> HandStatus {
        self.status
    }
}

/// The street bets of seats 0 through `n`, summed.
pub open spec fn sum_bets(h: Hand, n: int) -> int
    decreases n,
{
    if n <= 0 {
        0
    } else {
        sum_bets(h, n - 1) + h.seat_bet(n - 1)
    }
}

/// The chip stacks of seats 0 through `n`, summed.
pub open spec fn sum_chips(h: Hand, n: int) -> int
    decreases n,
{
    if n <= 0 {
        0
    } else {
        sum_chips(h, n - 1) + h.seat_chips(n - 1)
    }
}

/// How many of seats 0 through `n` are still contesting the pot.
pub open spec fn count_in_hand(h: Hand, n: int) -> int
    decreases n,
{
    if n <= 0 {
        0
    } else {
        count_in_hand(h, n - 1) + if in_hand(h.seat_state(n - 1)) {
            1int
        } else {
            0int
        }
    }
}

impl Hand {
    /// The hand's internal consistency: what every operation preserves.
    /// The pot always accounts exactly for the prior streets plus every
    /// seat's bets this street; a seat that has acted at the current
    /// bet level has matched it; stacks and statuses agree with the
    /// seats' states.
    pub open spec fn wf(&self) -> bool {
        let n = self.spec_player_count() as int;
        &&& 2 <= n
        &&& self.spec_community().len() == community_len(self.spec_street())
        &&& self.spec_pot() == self.spec_prior_pot() + sum_bets(*self, n)
        &&& self.spec_pot() + sum_chips(*self, n) <= usize::MAX
        &&& forall|j: int| 0 <= j < n ==> self.seat_bet(j) <= self.spec_bet_to_call()
        &&& forall|j: int|
            0 <= j < n ==> ((self.seat_state(j) is Dealt && self.seat_acted(j)) ==> self.seat_bet(
                j,
            ) == self.spec_bet_to_call())
        &&& forall|j: int|
            0 <= j < n ==> ((self.seat_state(j) is WaitingToBeDealt || self.seat_state(j)
                is Dealt || self.seat_state(j) is Active) ==> self.seat_chips(j) > 0)
        &&& match self.spec_status() {
            HandStatus::NotDealt => {
                &&& forall|j: int| 0 <= j < n ==> self.seat_state(j) is WaitingToBeDealt
                &&& self.spec_bet_to_call() == 0
                &&& self.spec_street() is Hole
                &&& self.spec_pot() == 0
                &&& self.spec_prior_pot() == 0
            },
            HandStatus::AwaitingAction(i) => {
                &&& 0 <= i < n
                &&& self.seat_state(i as int) is Active
                &&& forall|j: int|
                    0 <= j < n && j != i ==> !(self.seat_state(j) is Active)
                &&& forall|j: int| 0 <= j < n ==> !(self.seat_state(j) is WaitingToBeDealt)
                &&& count_in_hand(*self, n) >= 2
            },
            HandStatus::RoundClosed => {
                &&& forall|j: int|
                    0 <= j < n ==> !(self.seat_state(j) is Active) && !(self.seat_state(j)
                        is WaitingToBeDealt)
                &&& forall|j: int|
                    0 <= j < n ==> (self.seat_state(j) is Dealt ==> self.seat_acted(j))
                &&& count_in_hand(*self, n) >= 2
            },
            HandStatus::HandEndedByFold => {
                &&& forall|j: int|
                    0 <= j < n ==> !(self.seat_state(j) is Active) && !(self.seat_state(j)
                        is WaitingToBeDealt)
                &&& count_in_hand(*self, n) == 1
            },
        }
    }
}

/// The chip stacks of the first `n` listed players, summed.
pub open spec fn sum_player_chips(ps: Seq<Player>, n: int) -> int
    decreases n,
{
    if n <= 0 {
        0
    } else {
        sum_player_chips(ps, n - 1) + ps[n - 1].spec_chips()
    }
}

/// Creates a hand from the players, in seating order (which is turn
/// order), and a deck. All players wait to be dealt and the pot is
/// empty. Fails with `InvalidConfiguration`, producing no hand, when
/// fewer than two players are given, when a starting stack is zero, or
/// when the stacks together overflow the chip-count range.
pub fn new_hand(players: Vec<Player>, deck: Deck) -> (r: Result<Hand, PokerError>)
    ensures
        r is Err <==> (players@.len() < 2 || (exists|j: int|
            0 <= j < players@.len() && players@[j].spec_chips() == 0) || sum_player_chips(
            players@,
            players@.len() as int,
        ) > usize::MAX),
        r is Err ==> r == Err::<Hand, PokerError>(PokerError::InvalidConfiguration),
        r matches Ok(h) ==> {
            let n = players@.len() as int;
            &&& h.wf()
            &&& h.spec_player_count() == players@.len()
            &&& forall|j: int|
                0 <= j < n ==> h.seat_name(j) == players@[j].spec_name() && h.seat_chips(j)
                    == players@[j].spec_chips() && h.seat_state(j) is WaitingToBeDealt
                    && h.seat_bet(j) == 0 && !h.seat_acted(j)
            &&& h.spec_deck() == deck@
            &&& h.spec_community().len() == 0
            &&& h.spec_pot() == 0
            &&& h.spec_bet_to_call() == 0
            &&& h.spec_street() is Hole
            &&& h.spec_status() is NotDealt
        },
{
    if players.len() < 2 {
        return Err(PokerError::InvalidConfiguration);
    }
    let ghost ps = players@;
    let n = players.len();
    let mut total: usize = 0;
    let mut j: usize = 0;
    while j < n
        invariant
            j <= n,
            n == ps.len(),
            players@ == ps,
            total == sum_player_chips(ps, j as int),
            forall|k: int| 0 <= k < j ==> ps[k].spec_chips() > 0,
        decreases n - j,
    {
        let c = players[j].chips;
        if c == 0 {
            return Err(PokerError::InvalidConfiguration);
        }
        if c > usize::MAX - total {
            proof {
                lemma_sum_player_chips_mono(ps, j + 1, ps.len() as int);
            }
            return Err(PokerError::InvalidConfiguration);
        }
        total = total + c;
        j = j + 1;
    }
    let mut rest = players;
    let mut seats: Vec<Seat> = Vec::new();
    while rest.len() > 0
        invariant
            seats@.len() + rest@.len() == ps.len(),
            forall|k: int|
                0 <= k < seats@.len() ==> #[trigger] seats@[k] == (Seat {
                    player: ps[k],
                    state: PlayerState::WaitingToBeDealt,
                    street_bet: 0,
                    acted: false,
                }),
            forall|k: int| 0 <= k < rest@.len() ==> #[trigger] rest@[k] == ps[seats@.len() + k],
        decreases rest@.len(),
    {
        let ghost done = seats@.len() as int;
        let p = rest.remove(0);
        proof {
            assert(p == ps[done]);
        }
        seats.push(
            Seat { player: p, state: PlayerState::WaitingToBeDealt, street_bet: 0, acted: false },
        );
    }
    let hand = Hand {
        players: seats,
        deck,
        community: Vec::new(),
        pot: 0,
        prior_pot: 0,
        street: Deal::Hole,
        bet_to_call: 0,
        status: HandStatus::NotDealt,
    };
    proof {
        lemma_sum_bets_zero(hand, hand.players@.len() as int);
        lemma_sum_chips_matches(hand, ps, hand.players@.len() as int);
    }
    Ok(hand)
}

/// The hole cards a seat receives when dealing from the given deck:
/// two cards per seat, drawn from the front, in seating order.
pub open spec fn dealt_cards(deck: Seq<Card>, j: int) -> HoleCards {
    HoleCards(deck[2 * j], deck[2 * j + 1])
}

/// Deals two hole cards to every seat, in seating order, from the front
/// of the deck, and opens the pre-flop betting round with the first
/// seat active. Consumes exactly two cards per player. Fails, leaving
/// the hand unchanged, when the hand was already dealt or when the deck
/// holds fewer than two cards per player.
pub fn deal(hand: &mut Hand) -> (r: Result<(), PokerError>)
    requires
        old(hand).wf(),
    ensures
        final(hand).wf(),
        r is Err ==> *final(hand) == *old(hand),
        r == Err::<(), PokerError>(PokerError::IllegalMove(IllegalMoveReason::AlreadyDealt))
            <==> !(old(hand).spec_status() is NotDealt),
        r == Err::<(), PokerError>(PokerError::InsufficientCards) <==> (old(hand).spec_status()
            is NotDealt && old(hand).spec_deck().len() < 2 * old(hand).spec_player_count()),
        r is Ok <==> (old(hand).spec_status() is NotDealt
            && old(hand).spec_deck().len() >= 2 * old(hand).spec_player_count()),
        r is Ok ==> {
            let n = old(hand).spec_player_count() as int;
            &&& final(hand).spec_player_count() == n
            &&& final(hand).spec_deck() == old(hand).spec_deck().skip(2 * n)
            &&& forall|j: int|
                0 <= j < n ==> final(hand).seat_state(j) == (if j == 0 {
                    PlayerState::Active(dealt_cards(old(hand).spec_deck(), j))
                } else {
                    PlayerState::Dealt(dealt_cards(old(hand).spec_deck(), j))
                })
            &&& forall|j: int|
                0 <= j < n ==> final(hand).seat_chips(j) == old(hand).seat_chips(j)
                    && final(hand).seat_name(j) == old(hand).seat_name(j)
                    && final(hand).seat_bet(j) == 0
                    && !final(hand).seat_acted(j)
            &&& final(hand).spec_pot() == 0
            &&& final(hand).spec_bet_to_call() == 0
            &&& final(hand).spec_community() == old(hand).spec_community()
            &&& final(hand).spec_street() is Hole
            &&& final(hand).spec_status() == HandStatus::AwaitingAction(0usize)
        },
{
    match hand.status {
        HandStatus::NotDealt => {},
        _ => {
            return Err(PokerError::IllegalMove(IllegalMoveReason::AlreadyDealt));
        },
    }
    let n = hand.players.len();
    if hand.deck.len() < n || hand.deck.len() - n < n {
        return Err(PokerError::InsufficientCards);
    }
    let ghost orig = *hand;
    let ghost odeck = hand.deck@;
    let mut s: usize = 0;
    while s < n
        invariant
            s <= n,
            n == hand.players@.len(),
            2 * n <= odeck.len(),
            2 * n <= usize::MAX,
            hand.deck@ == odeck,
            hand.community == orig.community,
            hand.pot == orig.pot,
            hand.prior_pot == orig.prior_pot,
            hand.street == orig.street,
            hand.bet_to_call == orig.bet_to_call,
            hand.status == orig.status,
            forall|j: int|
                0 <= j < s ==> #[trigger] hand.players@[j] == (Seat {
                    player: orig.players@[j].player,
                    state: if j == 0 {
                        PlayerState::Active(dealt_cards(odeck, j))
                    } else {
                        PlayerState::Dealt(dealt_cards(odeck, j))
                    },
                    street_bet: 0,
                    acted: false,
                }),
            forall|j: int| s <= j < n ==> #[trigger] hand.players@[j] == orig.players@[j],
        decreases n - s,
    {
        let c1 = hand.deck[2 * s];
        let c2 = hand.deck[2 * s + 1];
        let hole = HoleCards(c1, c2);
        let state = if s == 0 {
            PlayerState::Active(hole)
        } else {
            PlayerState::Dealt(hole)
        };
        hand.players[s].state = state;
        hand.players[s].street_bet = 0;
        hand.players[s].acted = false;
        s = s + 1;
    }
    let ghost mid = *hand;
    let mut t: usize = 0;
    while t < 2 * n
        invariant
            t <= 2 * n,
            2 * n <= odeck.len(),
            2 * n <= usize::MAX,
            hand.deck@ == odeck.skip(t as int),
            hand.players == mid.players,
            hand.community == mid.community,
            hand.pot == mid.pot,
            hand.prior_pot == mid.prior_pot,
            hand.street == mid.street,
            hand.bet_to_call == mid.bet_to_call,
            hand.status == mid.status,
        decreases 2 * n - t,
    {
        hand.deck.remove(0);
        proof {
            assert(odeck.skip(t as int).remove(0) =~= odeck.skip(t + 1));
        }
        t = t + 1;
    }
    hand.status = HandStatus::AwaitingAction(0);
    proof {
        let n_int = n as int;
        lemma_sum_bets_zero(*hand, n_int);
        lemma_sum_chips_eq(*hand, orig, n_int);
        lemma_count_in_hand_all(*hand, n_int);
        assert(orig.wf());
        assert forall|j: int| 0 <= j < n_int implies hand.seat_chips(j) > 0 by {
            assert(orig.seat_state(j) is WaitingToBeDealt);
            assert(hand.seat_chips(j) == orig.seat_chips(j));
        }
    }
    Ok(())
}

/// Creates a hand from the players, in seating order, with a fresh
/// deck shuffled from the seed: the same seed always gives the same
/// deck, a permutation of the full 52-card set. Fails exactly as
/// `new_hand` does, producing no hand.
pub fn create_hand(players: Vec<Player>, rng_seed: u64) -> (r: Result<Hand, PokerError>)
    ensures
        r is Err <==> (players@.len() < 2 || (exists|j: int|
            0 <= j < players@.len() && players@[j].spec_chips() == 0) || sum_player_chips(
            players@,
            players@.len() as int,
        ) > usize::MAX),
        r is Err ==> r == Err::<Hand, PokerError>(PokerError::InvalidConfiguration),
        r matches Ok(h) ==> {
            &&& h.wf()
            &&& h.spec_player_count() == players@.len()
            &&& forall|j: int|
                0 <= j < players@.len() ==> h.seat_name(j) == players@[j].spec_name()
                    && h.seat_chips(j) == players@[j].spec_chips() && h.seat_state(j)
                    is WaitingToBeDealt
            &&& crate::cards::is_full_deck(h.spec_deck())
            &&& h.spec_deck() == crate::cards::spec_shuffle(rng_seed)
            &&& h.spec_pot() == 0
            &&& h.spec_status() is NotDealt
        },
{
    let deck = crate::cards::shuffle(rng_seed);
    new_hand(players, deck)
}

/// What playing a move would be refused for, if anything: the betting
/// rules, checked in a fixed order. `None` means the move is legal for
/// the seat that must act.
pub open spec fn spec_play_error(h: Hand, mv: PlayerMove) -> Option<PokerError> {
    match h.spec_status() {
        HandStatus::AwaitingAction(i0) => {
            let i = i0 as int;
            match mv {
                PlayerMove::Fold => None,
                PlayerMove::Check => if h.seat_bet(i) == h.spec_bet_to_call() {
                    None
                } else {
                    Some(PokerError::IllegalMove(IllegalMoveReason::CheckFacingBet))
                },
                PlayerMove::Call => if h.seat_bet(i) < h.spec_bet_to_call() {
                    None
                } else {
                    Some(PokerError::IllegalMove(IllegalMoveReason::CallNotFacingBet))
                },
                PlayerMove::Bet(a) => if h.spec_bet_to_call() != 0 {
                    Some(PokerError::IllegalMove(IllegalMoveReason::BetFacingBet))
                } else if a == 0 {
                    Some(PokerError::IllegalMove(IllegalMoveReason::BetZero))
                } else if a > h.seat_chips(i) {
                    Some(PokerError::IllegalMove(IllegalMoveReason::BetOverStack))
                } else {
                    None
                },
                PlayerMove::Raise(a) => if h.spec_bet_to_call() == 0 {
                    Some(PokerError::IllegalMove(IllegalMoveReason::RaiseWithoutBet))
                } else if a > h.seat_chips(i) {
                    Some(PokerError::IllegalMove(IllegalMoveReason::RaiseOverStack))
                } else if a + h.seat_bet(i) <= h.spec_bet_to_call() {
                    Some(PokerError::IllegalMove(IllegalMoveReason::RaiseTooSmall))
                } else {
                    None
                },
            }
        },
        _ => Some(PokerError::IllegalMove(IllegalMoveReason::NoActivePlayer)),
    }
}

/// The chips a legal move takes from the acting seat `i`: nothing for
/// a fold or check, the shortfall (capped by the stack, going all-in)
/// for a call, and the named amount for a bet or raise.
pub open spec fn spec_paid(h: Hand, i: int, mv: PlayerMove) -> int {
    match mv {
        PlayerMove::Fold => 0,
        PlayerMove::Check => 0,
        PlayerMove::Call => if h.spec_bet_to_call() - h.seat_bet(i) <= h.seat_chips(i) {
            h.spec_bet_to_call() - h.seat_bet(i)
        } else {
            h.seat_chips(i) as int
        },
        PlayerMove::Bet(a) => a as int,
        PlayerMove::Raise(a) => a as int,
    }
}

/// Whether seat `j` still owes the round an action: it holds cards,
/// may act, and has not acted since the bet level last changed.
pub open spec fn spec_needs_action(h: Hand, j: int) -> bool {
    h.seat_state(j) is Dealt && !h.seat_acted(j)
}

/// The seat `t` places after seat `i` in the wrapping turn order of
/// `n` seats.
pub open spec fn seat_after(n: int, i: int, t: int) -> int {
    if i + t < n {
        i + t
    } else {
        i + t - n
    }
}

/// Whether seat `k` lies strictly between seats `i` and `j` in the
/// wrapping turn order: the seats skipped when action passes from `i`
/// to `j`.
pub open spec fn cyclic_between(n: int, i: int, j: int, k: int) -> bool {
    if i < j {
        i < k < j
    } else {
        i < k < n || 0 <= k < j
    }
}

/// Street bets are non-negative, so the sum covers each one.
proof fn lemma_sum_bets_at_least(h: Hand, n: int, i: int)
    requires
        0 <= i < n,
    ensures
        sum_bets(h, n) >= h.seat_bet(i),
        sum_bets(h, n) >= 0,
    decreases n,
{
    if n > 0 {
        if i == n - 1 {
            lemma_sum_bets_nonneg(h, n - 1);
        } else {
            lemma_sum_bets_at_least(h, n - 1, i);
        }
    }
}

/// A sum of street bets is non-negative.
proof fn lemma_sum_bets_nonneg(h: Hand, n: int)
    ensures
        sum_bets(h, n) >= 0,
    decreases n,
{
    if n > 0 {
        lemma_sum_bets_nonneg(h, n - 1);
    }
}

/// Stacks are non-negative, so the sum covers each one.
proof fn lemma_sum_chips_at_least(h: Hand, n: int, i: int)
    requires
        0 <= i < n,
    ensures
        sum_chips(h, n) >= h.seat_chips(i),
        sum_chips(h, n) >= 0,
    decreases n,
{
    if n > 0 {
        if i == n - 1 {
            lemma_sum_chips_nonneg(h, n - 1);
        } else {
            lemma_sum_chips_at_least(h, n - 1, i);
        }
    }
}

/// A sum of stacks is non-negative.
proof fn lemma_sum_chips_nonneg(h: Hand, n: int)
    ensures
        sum_chips(h, n) >= 0,
    decreases n,
{
    if n > 0 {
        lemma_sum_chips_nonneg(h, n - 1);
    }
}

/// Changing one seat's street bet moves the sum by that difference.
proof fn lemma_sum_bets_update(a: Hand, b: Hand, n: int, i: int)
    requires
        0 <= i < n,
        forall|j: int| 0 <= j < n && j != i ==> a.seat_bet(j) == b.seat_bet(j),
    ensures
        sum_bets(b, n) == sum_bets(a, n) + b.seat_bet(i) - a.seat_bet(i),
    decreases n,
{
    if n > 0 {
        if i == n - 1 {
            lemma_sum_bets_eq_upto(a, b, n - 1);
        } else {
            lemma_sum_bets_update(a, b, n - 1, i);
        }
    }
}

/// Seats with equal street bets sum to equal totals.
proof fn lemma_sum_bets_eq_upto(a: Hand, b: Hand, n: int)
    requires
        forall|j: int| 0 <= j < n ==> a.seat_bet(j) == b.seat_bet(j),
    ensures
        sum_bets(a, n) == sum_bets(b, n),
    decreases n,
{
    if n > 0 {
        lemma_sum_bets_eq_upto(a, b, n - 1);
    }
}

/// Changing one seat's stack moves the sum by that difference.
proof fn lemma_sum_chips_update(a: Hand, b: Hand, n: int, i: int)
    requires
        0 <= i < n,
        forall|j: int| 0 <= j < n && j != i ==> a.seat_chips(j) == b.seat_chips(j),
    ensures
        sum_chips(b, n) == sum_chips(a, n) + b.seat_chips(i) - a.seat_chips(i),
    decreases n,
{
    if n > 0 {
        if i == n - 1 {
            lemma_sum_chips_eq(a, b, n - 1);
        } else {
            lemma_sum_chips_update(a, b, n - 1, i);
        }
    }
}

/// Changing one seat's participation moves the contesting count by at
/// most that seat's contribution.
proof fn lemma_count_in_hand_update(a: Hand, b: Hand, n: int, i: int)
    requires
        0 <= i < n,
        forall|j: int|
            0 <= j < n && j != i ==> in_hand(a.seat_state(j)) == in_hand(b.seat_state(j)),
    ensures
        count_in_hand(b, n) == count_in_hand(a, n) + (if in_hand(b.seat_state(i)) {
            1int
        } else {
            0int
        }) - (if in_hand(a.seat_state(i)) {
            1int
        } else {
            0int
        }),
    decreases n,
{
    if n > 0 {
        if i == n - 1 {
            lemma_count_in_hand_eq(a, b, n - 1);
        } else {
            lemma_count_in_hand_update(a, b, n - 1, i);
        }
    }
}

/// Seats with equal participation count to equal totals.
proof fn lemma_count_in_hand_eq(a: Hand, b: Hand, n: int)
    requires
        forall|j: int| 0 <= j < n ==> in_hand(a.seat_state(j)) == in_hand(b.seat_state(j)),
    ensures
        count_in_hand(a, n) == count_in_hand(b, n),
    decreases n,
{
    if n > 0 {
        lemma_count_in_hand_eq(a, b, n - 1);
    }
}

/// Seats with equal stacks sum to equal totals.
proof fn lemma_sum_chips_eq(a: Hand, b: Hand, n: int)
    requires
        forall|j: int| 0 <= j < n ==> a.seat_chips(j) == b.seat_chips(j),
    ensures
        sum_chips(a, n) == sum_chips(b, n),
    decreases n,
{
    if n > 0 {
        lemma_sum_chips_eq(a, b, n - 1);
    }
}

/// When every seat is still contesting the pot, the contesting count
/// is the seat count.
proof fn lemma_count_in_hand_all(h: Hand, n: int)
    requires
        0 <= n,
        forall|j: int| 0 <= j < n ==> in_hand(h.seat_state(j)),
    ensures
        count_in_hand(h, n) == n,
    decreases n,
{
    if n > 0 {
        lemma_count_in_hand_all(h, n - 1);
        assert(in_hand(h.seat_state(n - 1)));
        assert(count_in_hand(h, n) == count_in_hand(h, n - 1) + 1);
    }
}

/// Applies one move by the player whose turn it is. An illegal move
/// fails with the reason and leaves the hand unchanged. A legal move
/// moves the paid chips from the acting stack into the pot, records
/// them in the seat's street bet, then passes the turn to the next
/// seat that still owes an action, wrapping and skipping folded and
/// all-in seats; when none is left the round closes. A bet or raise
/// sets the new bet to call and reopens action for every other seat.
/// A fold that leaves one contestant ends the hand at once.
#[verifier::rlimit(100)]
pub fn play(hand: &mut Hand, mv: PlayerMove) -> (r: Result<HandStatus, PokerError>)
    requires
        old(hand).wf(),
    ensures
        final(hand).wf(),
        r is Err ==> *final(hand) == *old(hand),
        r matches Err(e) ==> spec_play_error(*old(hand), mv) == Some(e),
        r is Ok <==> spec_play_error(*old(hand), mv) is None,
        r matches Ok(st) ==> st == final(hand).spec_status(),
        r is Ok ==> (old(hand).spec_status() matches HandStatus::AwaitingAction(i0) && {
            let i = i0 as int;
            let n = old(hand).spec_player_count() as int;
            let paid = spec_paid(*old(hand), i, mv);
            &&& final(hand).spec_player_count() == n
            &&& final(hand).spec_deck() == old(hand).spec_deck()
            &&& final(hand).spec_community() == old(hand).spec_community()
            &&& final(hand).spec_street() == old(hand).spec_street()
            &&& final(hand).spec_prior_pot() == old(hand).spec_prior_pot()
            &&& final(hand).spec_pot() == old(hand).spec_pot() + paid
            &&& final(hand).seat_chips(i) == old(hand).seat_chips(i) - paid
            &&& final(hand).seat_bet(i) == old(hand).seat_bet(i) + paid
            &&& final(hand).seat_acted(i)
            &&& forall|j: int|
                0 <= j < n && j != i ==> final(hand).seat_chips(j) == old(hand).seat_chips(j)
                    && final(hand).seat_bet(j) == old(hand).seat_bet(j)
            &&& forall|j: int| 0 <= j < n ==> final(hand).seat_name(j) == old(hand).seat_name(j)
            &&& forall|j: int|
                0 <= j < n && j != i ==> final(hand).seat_acted(j) == (if mv is Bet || mv is Raise {
                    false
                } else {
                    old(hand).seat_acted(j)
                })
            &&& final(hand).spec_bet_to_call() == (match mv {
                PlayerMove::Bet(a) => a as int,
                PlayerMove::Raise(a) => old(hand).seat_bet(i) + a,
                _ => old(hand).spec_bet_to_call() as int,
            })
            &&& (mv is Fold ==> final(hand).seat_state(i) is Folded)
            &&& (!(mv is Fold) ==> (old(hand).seat_state(i) matches PlayerState::Active(hc)
                && final(hand).seat_state(i) == (if paid == old(hand).seat_chips(i) {
                    PlayerState::AllIn(hc)
                } else {
                    PlayerState::Dealt(hc)
                })))
            &&& (final(hand).spec_status() is HandEndedByFold <==> (mv is Fold && count_in_hand(
                *old(hand),
                n,
            ) == 2))
            &&& match final(hand).spec_status() {
                HandStatus::NotDealt => false,
                HandStatus::AwaitingAction(j0) => {
                    let j = j0 as int;
                    &&& 0 <= j < n && j != i
                    &&& old(hand).seat_state(j) matches PlayerState::Dealt(hcj)
                        && final(hand).seat_state(j) == PlayerState::Active(hcj)
                    &&& !final(hand).seat_acted(j)
                    &&& forall|k: int|
                        0 <= k < n && cyclic_between(n, i, j, k) ==> !spec_needs_action(
                            *final(hand),
                            k,
                        )
                    &&& forall|k: int|
                        0 <= k < n && k != i && k != j ==> final(hand).seat_state(k)
                            == old(hand).seat_state(k)
                },
                HandStatus::RoundClosed => {
                    &&& forall|k: int| 0 <= k < n ==> !spec_needs_action(*final(hand), k)
                    &&& forall|k: int|
                        0 <= k < n && k != i ==> final(hand).seat_state(k)
                            == old(hand).seat_state(k)
                },
                HandStatus::HandEndedByFold => {
                    forall|k: int|
                        0 <= k < n && k != i ==> final(hand).seat_state(k)
                            == old(hand).seat_state(k)
                },
            }
        }),
{
    let i = match hand.status {
        HandStatus::AwaitingAction(i) => i,
        _ => {
            return Err(PokerError::IllegalMove(IllegalMoveReason::NoActivePlayer));
        },
    };
    let n = hand.players.len();
    let btc = hand.bet_to_call;
    let bet_i = hand.players[i].street_bet;
    let chips_i = hand.players[i].player.chips;
    let hc = match hand.players[i].state {
        PlayerState::Active(hc) => hc,
        _ => {
            proof {
                assert(false);
            }
            return Err(PokerError::IllegalMove(IllegalMoveReason::NoActivePlayer));
        },
    };
    proof {
        lemma_sum_bets_at_least(*hand, n as int, i as int);
        lemma_sum_chips_at_least(*hand, n as int, i as int);
    }
    let paid: usize = match mv {
        PlayerMove::Fold => 0,
        PlayerMove::Check => {
            if bet_i != btc {
                return Err(PokerError::IllegalMove(IllegalMoveReason::CheckFacingBet));
            }
            0
        },
        PlayerMove::Call => {
            if bet_i >= btc {
                return Err(PokerError::IllegalMove(IllegalMoveReason::CallNotFacingBet));
            }
            let deficit = btc - bet_i;
            if deficit <= chips_i {
                deficit
            } else {
                chips_i
            }
        },
        PlayerMove::Bet(a) => {
            if btc != 0 {
                return Err(PokerError::IllegalMove(IllegalMoveReason::BetFacingBet));
            }
            if a == 0 {
                return Err(PokerError::IllegalMove(IllegalMoveReason::BetZero));
            }
            if a > chips_i {
                return Err(PokerError::IllegalMove(IllegalMoveReason::BetOverStack));
            }
            a
        },
        PlayerMove::Raise(a) => {
            if btc == 0 {
                return Err(PokerError::IllegalMove(IllegalMoveReason::RaiseWithoutBet));
            }
            if a > chips_i {
                return Err(PokerError::IllegalMove(IllegalMoveReason::RaiseOverStack));
            }
            if bet_i + a <= btc {
                return Err(PokerError::IllegalMove(IllegalMoveReason::RaiseTooSmall));
            }
            a
        },
    };
    let ghost h0 = *hand;
    proof {
        assert(spec_play_error(h0, mv) is None);
        assert(paid == spec_paid(h0, i as int, mv));
    }
    hand.players[i].player.chips = chips_i - paid;
    hand.players[i].street_bet = bet_i + paid;
    hand.players[i].acted = true;
    hand.players[i].state = match mv {
        PlayerMove::Fold => PlayerState::Folded,
        _ => {
            if paid == chips_i {
                PlayerState::AllIn(hc)
            } else {
                PlayerState::Dealt(hc)
            }
        },
    };
    hand.pot = hand.pot + paid;
    let reopen = match mv {
        PlayerMove::Bet(a) => {
            hand.bet_to_call = a;
            true
        },
        PlayerMove::Raise(a) => {
            hand.bet_to_call = bet_i + a;
            true
        },
        _ => false,
    };
    if reopen {
        let ghost before = *hand;
        let mut j: usize = 0;
        while j < n
            invariant
                j <= n,
                n == hand.players@.len(),
                hand.deck == before.deck,
                hand.community == before.community,
                hand.pot == before.pot,
                hand.prior_pot == before.prior_pot,
                hand.street == before.street,
                hand.bet_to_call == before.bet_to_call,
                hand.status == before.status,
                forall|k: int|
                    0 <= k < n ==> #[trigger] hand.players@[k] == (if k < j && k != i {
                        Seat {
                            player: before.players@[k].player,
                            state: before.players@[k].state,
                            street_bet: before.players@[k].street_bet,
                            acted: false,
                        }
                    } else {
                        before.players@[k]
                    }),
            decreases n - j,
        {
            if j != i {
                hand.players[j].acted = false;
                proof {
                    assert(hand.players@[j as int].acted == false);
                    assert(hand.players@[j as int].player == before.players@[j as int].player);
                    assert(hand.players@[j as int].state == before.players@[j as int].state);
                    assert(hand.players@[j as int].street_bet == before.players@[
                        j as int
                    ].street_bet);
                    assert(hand.players@[j as int] == (Seat {
                        player: before.players@[j as int].player,
                        state: before.players@[j as int].state,
                        street_bet: before.players@[j as int].street_bet,
                        acted: false,
                    }));
                }
            }
            j = j + 1;
        }
    }
    let ghost h1 = *hand;
    proof {
        lemma_sum_bets_update(h0, h1, n as int, i as int);
        lemma_sum_chips_update(h0, h1, n as int, i as int);
        lemma_count_in_hand_update(h0, h1, n as int, i as int);
        assert forall|j: int| 0 <= j < n implies h1.seat_bet(j) <= h1.spec_bet_to_call() by {
            assert(h0.seat_bet(j) <= h0.spec_bet_to_call());
        }
        assert forall|j: int|
            0 <= j < n && h1.seat_state(j) is Dealt && h1.seat_acted(j) implies h1.seat_bet(j)
            == h1.spec_bet_to_call() by {
            assert(h0.seat_bet(j) <= h0.spec_bet_to_call());
            if j != i as int {
                assert((h0.seat_state(j) is Dealt && h0.seat_acted(j)) ==> h0.seat_bet(j)
                    == h0.spec_bet_to_call());
            }
        }
        assert forall|j: int|
            0 <= j < n && (h1.seat_state(j) is WaitingToBeDealt || h1.seat_state(j) is Dealt
                || h1.seat_state(j) is Active) implies h1.seat_chips(j) > 0 by {
            assert((h0.seat_state(j) is WaitingToBeDealt || h0.seat_state(j) is Dealt
                || h0.seat_state(j) is Active) ==> h0.seat_chips(j) > 0);
        }
        assert forall|j: int|
            0 <= j < n implies !(h1.seat_state(j) is Active) && !(h1.seat_state(j)
            is WaitingToBeDealt) by {
            if j != i as int {
                assert(!(h0.seat_state(j) is Active));
                assert(!(h0.seat_state(j) is WaitingToBeDealt));
            }
        }
    }
    let st = resolve_round(hand, i);
    Ok(st)
}

/// Settles where the round stands after a seat has acted: ends the
/// hand when a single contestant is left, else passes the turn to the
/// next seat owing an action, wrapping from the seat that acted, or
/// closes the round when nobody owes one.
#[verifier::rlimit(100)]
fn resolve_round(hand: &mut Hand, i: usize) -> (st: HandStatus)
    requires
        ({
            let n = old(hand).spec_player_count() as int;
            &&& 2 <= n
            &&& i < n
            &&& old(hand).spec_community().len() == community_len(old(hand).spec_street())
            &&& old(hand).spec_pot() == old(hand).spec_prior_pot() + sum_bets(*old(hand), n)
            &&& old(hand).spec_pot() + sum_chips(*old(hand), n) <= usize::MAX
            &&& forall|j: int|
                0 <= j < n ==> old(hand).seat_bet(j) <= old(hand).spec_bet_to_call()
            &&& forall|j: int|
                0 <= j < n ==> ((old(hand).seat_state(j) is Dealt && old(hand).seat_acted(j))
                    ==> old(hand).seat_bet(j) == old(hand).spec_bet_to_call())
            &&& forall|j: int|
                0 <= j < n ==> ((old(hand).seat_state(j) is WaitingToBeDealt || old(
                    hand,
                ).seat_state(j) is Dealt || old(hand).seat_state(j) is Active) ==> old(
                    hand,
                ).seat_chips(j) > 0)
            &&& forall|j: int|
                0 <= j < n ==> !(old(hand).seat_state(j) is Active) && !(old(hand).seat_state(j)
                    is WaitingToBeDealt)
            &&& old(hand).seat_acted(i as int)
            &&& count_in_hand(*old(hand), n) >= 1
        }),
    ensures
        final(hand).wf(),
        st == final(hand).spec_status(),
        ({
            let n = old(hand).spec_player_count() as int;
            &&& final(hand).spec_player_count() == n
            &&& final(hand).spec_deck() == old(hand).spec_deck()
            &&& final(hand).spec_community() == old(hand).spec_community()
            &&& final(hand).spec_street() == old(hand).spec_street()
            &&& final(hand).spec_pot() == old(hand).spec_pot()
            &&& final(hand).spec_prior_pot() == old(hand).spec_prior_pot()
            &&& final(hand).spec_bet_to_call() == old(hand).spec_bet_to_call()
            &&& forall|j: int|
                0 <= j < n ==> final(hand).seat_chips(j) == old(hand).seat_chips(j)
                    && final(hand).seat_bet(j) == old(hand).seat_bet(j)
                    && final(hand).seat_name(j) == old(hand).seat_name(j)
                    && final(hand).seat_acted(j) == old(hand).seat_acted(j)
            &&& (st is HandEndedByFold <==> count_in_hand(*old(hand), n) == 1)
            &&& match st {
                HandStatus::NotDealt => false,
                HandStatus::AwaitingAction(j0) => {
                    let j = j0 as int;
                    &&& 0 <= j < n && j != i
                    &&& old(hand).seat_state(j) matches PlayerState::Dealt(hcj)
                        && final(hand).seat_state(j) == PlayerState::Active(hcj)
                    &&& spec_needs_action(*old(hand), j)
                    &&& forall|k: int|
                        0 <= k < n && cyclic_between(n, i as int, j, k) ==> !spec_needs_action(
                            *final(hand),
                            k,
                        )
                    &&& forall|k: int|
                        0 <= k < n && k != j ==> final(hand).seat_state(k)
                            == old(hand).seat_state(k)
                },
                HandStatus::RoundClosed => {
                    &&& forall|k: int| 0 <= k < n ==> !spec_needs_action(*final(hand), k)
                    &&& forall|k: int|
                        0 <= k < n ==> final(hand).seat_state(k) == old(hand).seat_state(k)
                },
                HandStatus::HandEndedByFold => {
                    forall|k: int|
                        0 <= k < n ==> final(hand).seat_state(k) == old(hand).seat_state(k)
                },
            }
        }),
{
    let ghost h1 = *old(hand);
    let n = hand.players.len();
    let mut remaining: usize = 0;
    let mut j: usize = 0;
    while j < n
        invariant
            j <= n,
            *hand == h1,
            n == hand.players@.len(),
            remaining == count_in_hand(h1, j as int),
            remaining <= j,
        decreases n - j,
    {
        let is_in = match hand.players[j].state {
            PlayerState::Dealt(_) => true,
            PlayerState::Active(_) => true,
            PlayerState::AllIn(_) => true,
            _ => false,
        };
        if is_in {
            remaining = remaining + 1;
        }
        j = j + 1;
    }
    if remaining < 2 {
        hand.status = HandStatus::HandEndedByFold;
        proof {
            lemma_sum_bets_eq_upto(*hand, h1, n as int);
            lemma_sum_chips_eq(*hand, h1, n as int);
            lemma_count_in_hand_eq(*hand, h1, n as int);
            lemma_seatwise_rules_carry(h1, *hand, n as int);
        }
        proof {
            assert forall|j: int|
                0 <= j < n implies !(hand.seat_state(j) is Active) && !(hand.seat_state(j)
                is WaitingToBeDealt) by {
                assert(!(h1.seat_state(j) is Active) && !(h1.seat_state(j) is WaitingToBeDealt));
            }
        }
        return HandStatus::HandEndedByFold;
    }
    let mut next: Option<usize> = None;
    let ghost mut t_found: int = 0;
    let mut t: usize = 1;
    while t < n
        invariant
            1 <= t <= n,
            0 <= i < n,
            *hand == h1,
            n == hand.players@.len(),
            next is None ==> forall|u: int|
                1 <= u < t ==> !spec_needs_action(h1, seat_after(n as int, i as int, u)),
            next matches Some(j2) ==> {
                &&& 1 <= t_found < t
                &&& j2 == seat_after(n as int, i as int, t_found)
                &&& spec_needs_action(h1, j2 as int)
                &&& forall|u: int|
                    1 <= u < t_found ==> !spec_needs_action(h1, seat_after(n as int, i as int, u))
            },
        decreases n - t,
    {
        if next.is_none() {
            let j2 = if t >= n - i {
                t - (n - i)
            } else {
                i + t
            };
            proof {
                assert(j2 == seat_after(n as int, i as int, t as int));
            }
            let needy = match hand.players[j2].state {
                PlayerState::Dealt(_) => !hand.players[j2].acted,
                _ => false,
            };
            if needy {
                next = Some(j2);
                proof {
                    t_found = t as int;
                }
            }
        }
        t = t + 1;
    }
    match next {
        Some(j2) => {
            let hcj = match hand.players[j2].state {
                PlayerState::Dealt(hcj) => hcj,
                _ => {
                    proof {
                        assert(false);
                    }
                    return HandStatus::RoundClosed;
                },
            };
            hand.players[j2].state = PlayerState::Active(hcj);
            hand.status = HandStatus::AwaitingAction(j2);
            proof {
                lemma_sum_bets_eq_upto(*hand, h1, n as int);
                lemma_sum_chips_eq(*hand, h1, n as int);
                lemma_count_in_hand_eq(*hand, h1, n as int);
            lemma_seatwise_rules_carry(h1, *hand, n as int);
                assert forall|k: int|
                    0 <= k < n && cyclic_between(n as int, i as int, j2 as int, k)
                        implies !spec_needs_action(*hand, k) by {
                    let u = if k > i {
                        k - i
                    } else {
                        k + n - i
                    };
                    assert(k == seat_after(n as int, i as int, u));
                    assert(1 <= u < t_found);
                    assert(!spec_needs_action(h1, k));
                }
            }
            proof {
                assert forall|j: int|
                    0 <= j < n && j != j2 implies !(hand.seat_state(j) is Active) && !(
                    hand.seat_state(j) is WaitingToBeDealt) by {
                    assert(!(h1.seat_state(j) is Active) && !(h1.seat_state(j)
                        is WaitingToBeDealt));
                }
                assert(!(hand.seat_state(j2 as int) is WaitingToBeDealt));
            }
            HandStatus::AwaitingAction(j2)
        },
        None => {
            hand.status = HandStatus::RoundClosed;
            proof {
                lemma_sum_bets_eq_upto(*hand, h1, n as int);
                lemma_sum_chips_eq(*hand, h1, n as int);
                lemma_count_in_hand_eq(*hand, h1, n as int);
            lemma_seatwise_rules_carry(h1, *hand, n as int);
                assert forall|k: int| 0 <= k < n implies !spec_needs_action(*hand, k) by {
                    if k != i {
                        let u = if k > i {
                            k - i
                        } else {
                            k + n - i
                        };
                        assert(k == seat_after(n as int, i as int, u));
                        assert(1 <= u < n);
                        assert(!spec_needs_action(h1, k));
                    }
                }
            }
            proof {
                assert forall|j: int|
                    0 <= j < n implies !(hand.seat_state(j) is Active) && !(hand.seat_state(j)
                    is WaitingToBeDealt) by {
                    assert(!(h1.seat_state(j) is Active) && !(h1.seat_state(j)
                        is WaitingToBeDealt));
                }
                assert forall|j: int|
                    0 <= j < n && hand.seat_state(j) is Dealt implies hand.seat_acted(j) by {
                    assert(!spec_needs_action(*hand, j));
                }
            }
            HandStatus::RoundClosed
        },
    }
}

/// How many community cards are drawn when leaving a street: three for
/// the flop, then one each for the turn and the river.
pub open spec fn street_draw(d: Deal) -> int {
    match d {
        Deal::Hole => 3,
        Deal::Flop => 1,
        Deal::Turn => 1,
        Deal::River => 0,
    }
}

/// Advances a hand whose betting round has closed to the next street:
/// banks the street's bets, deals the street's community cards from the
/// front of the deck, resets the street bets and the bet to call, and
/// opens the new round with the first seat still able to act; when no
/// seat can act (everyone left is all-in), the new round closes at
/// once. Fails, leaving the hand unchanged, when the round is not
/// closed, when the river is already out, or when the deck is short.
pub fn advance_street(hand: &mut Hand) -> (r: Result<(), PokerError>)
    requires
        old(hand).wf(),
    ensures
        final(hand).wf(),
        r is Err ==> *final(hand) == *old(hand),
        r == Err::<(), PokerError>(PokerError::IllegalMove(IllegalMoveReason::RoundNotClosed))
            <==> !(old(hand).spec_status() is RoundClosed),
        r == Err::<(), PokerError>(PokerError::IllegalMove(IllegalMoveReason::NoMoreStreets))
            <==> (old(hand).spec_status() is RoundClosed && old(hand).spec_street() is River),
        r == Err::<(), PokerError>(PokerError::InsufficientCards) <==> (old(hand).spec_status()
            is RoundClosed && !(old(hand).spec_street() is River) && old(hand).spec_deck().len()
            < street_draw(old(hand).spec_street())),
        r is Ok <==> (old(hand).spec_status() is RoundClosed && !(old(hand).spec_street() is River)
            && old(hand).spec_deck().len() >= street_draw(old(hand).spec_street())),
        r is Ok ==> ({
            let n = old(hand).spec_player_count() as int;
            let draw = street_draw(old(hand).spec_street());
            &&& final(hand).spec_player_count() == n
            &&& final(hand).spec_street() == next_street(old(hand).spec_street())
            &&& final(hand).spec_community() == old(hand).spec_community() + old(
                hand,
            ).spec_deck().take(draw)
            &&& final(hand).spec_deck() == old(hand).spec_deck().skip(draw)
            &&& final(hand).spec_pot() == old(hand).spec_pot()
            &&& final(hand).spec_prior_pot() == old(hand).spec_pot()
            &&& final(hand).spec_bet_to_call() == 0
            &&& forall|j: int|
                0 <= j < n ==> final(hand).seat_chips(j) == old(hand).seat_chips(j)
                    && final(hand).seat_name(j) == old(hand).seat_name(j)
                    && final(hand).seat_bet(j) == 0 && !final(hand).seat_acted(j)
            &&& match final(hand).spec_status() {
                HandStatus::AwaitingAction(j0) => {
                    let j = j0 as int;
                    &&& 0 <= j < n
                    &&& old(hand).seat_state(j) matches PlayerState::Dealt(hcj)
                        && final(hand).seat_state(j) == PlayerState::Active(hcj)
                    &&& forall|k: int| 0 <= k < j ==> !(old(hand).seat_state(k) is Dealt)
                    &&& forall|k: int|
                        0 <= k < n && k != j ==> final(hand).seat_state(k)
                            == old(hand).seat_state(k)
                },
                HandStatus::RoundClosed => {
                    &&& forall|k: int| 0 <= k < n ==> !(old(hand).seat_state(k) is Dealt)
                    &&& forall|k: int|
                        0 <= k < n ==> final(hand).seat_state(k) == old(hand).seat_state(k)
                },
                _ => false,
            }
        }),
{
    match hand.status {
        HandStatus::RoundClosed => {},
        _ => {
            return Err(PokerError::IllegalMove(IllegalMoveReason::RoundNotClosed));
        },
    }
    let draw: usize = match hand.street {
        Deal::Hole => 3,
        Deal::Flop => 1,
        Deal::Turn => 1,
        Deal::River => {
            return Err(PokerError::IllegalMove(IllegalMoveReason::NoMoreStreets));
        },
    };
    if hand.deck.len() < draw {
        return Err(PokerError::InsufficientCards);
    }
    let ghost h0 = *hand;
    let n = hand.players.len();
    hand.prior_pot = hand.pot;
    hand.bet_to_call = 0;
    hand.street = match hand.street {
        Deal::Hole => Deal::Flop,
        Deal::Flop => Deal::Turn,
        _ => Deal::River,
    };
    let mut t: usize = 0;
    while t < draw
        invariant
            t <= draw,
            draw <= h0.deck@.len(),
            hand.players == h0.players,
            hand.deck@ == h0.deck@.skip(t as int),
            hand.community@ == h0.community@ + h0.deck@.take(t as int),
            hand.pot == h0.pot,
            hand.prior_pot == h0.pot,
            hand.street == next_street(h0.street),
            hand.bet_to_call == 0,
            hand.status == h0.status,
        decreases draw - t,
    {
        let c = hand.deck.remove(0);
        hand.community.push(c);
        proof {
            assert(h0.deck@.skip(t as int).remove(0) =~= h0.deck@.skip(t + 1));
            assert(h0.community@ + h0.deck@.take(t as int) + seq![h0.deck@[t as int]] =~= h0.community@
                + h0.deck@.take(t + 1));
        }
        t = t + 1;
    }
    let ghost h1 = *hand;
    let mut s: usize = 0;
    while s < n
        invariant
            s <= n,
            n == hand.players@.len(),
            hand.deck == h1.deck,
            hand.community == h1.community,
            hand.pot == h1.pot,
            hand.prior_pot == h1.prior_pot,
            hand.street == h1.street,
            hand.bet_to_call == h1.bet_to_call,
            hand.status == h1.status,
            forall|k: int|
                0 <= k < n ==> #[trigger] hand.players@[k] == (if k < s {
                    Seat {
                        player: h1.players@[k].player,
                        state: h1.players@[k].state,
                        street_bet: 0,
                        acted: false,
                    }
                } else {
                    h1.players@[k]
                }),
        decreases n - s,
    {
        hand.players[s].street_bet = 0;
        hand.players[s].acted = false;
        s = s + 1;
    }
    let ghost h2 = *hand;
    let mut first_dealt: Option<usize> = None;
    let mut j: usize = 0;
    while j < n
        invariant
            j <= n,
            *hand == h2,
            n == hand.players@.len(),
            first_dealt is None ==> forall|k: int| 0 <= k < j ==> !(h2.seat_state(k) is Dealt),
            first_dealt matches Some(f) ==> 0 <= f < n && h2.seat_state(f as int) is Dealt
                && forall|k: int| 0 <= k < f ==> !(h2.seat_state(k) is Dealt),
        decreases n - j,
    {
        if first_dealt.is_none() {
            let is_dealt = match hand.players[j].state {
                PlayerState::Dealt(_) => true,
                _ => false,
            };
            if is_dealt {
                first_dealt = Some(j);
            }
        }
        j = j + 1;
    }
    match first_dealt {
        Some(f) => {
            let hcf = match hand.players[f].state {
                PlayerState::Dealt(hcf) => hcf,
                _ => {
                    proof {
                        assert(false);
                    }
                    return Err(PokerError::IllegalMove(IllegalMoveReason::RoundNotClosed));
                },
            };
            hand.players[f].state = PlayerState::Active(hcf);
            hand.status = HandStatus::AwaitingAction(f);
        },
        None => {
            hand.status = HandStatus::RoundClosed;
        },
    }
    proof {
        let n_int = n as int;
        assert forall|k: int| 0 <= k < n_int implies h2.seat_state(k) == h0.seat_state(k) by {
            assert(h2.players@[k].state == h1.players@[k].state);
        }
        lemma_sum_bets_zero(*hand, n_int);
        lemma_sum_chips_eq(*hand, h0, n_int);
        lemma_count_in_hand_eq(*hand, h0, n_int);
        assert forall|j2: int|
            0 <= j2 < n_int && (hand.seat_state(j2) is WaitingToBeDealt || hand.seat_state(j2)
                is Dealt || hand.seat_state(j2) is Active) implies hand.seat_chips(j2) > 0 by {
            assert((h0.seat_state(j2) is WaitingToBeDealt || h0.seat_state(j2) is Dealt
                || h0.seat_state(j2) is Active) ==> h0.seat_chips(j2) > 0);
        }
        assert forall|j2: int|
            0 <= j2 < n_int implies !(hand.seat_state(j2) is WaitingToBeDealt) by {
            assert(!(h0.seat_state(j2) is WaitingToBeDealt));
        }
        assert forall|j2: int|
            0 <= j2 < n_int && !(first_dealt matches Some(f) && f == j2)
                implies !(hand.seat_state(j2) is Active) by {
            assert(!(h0.seat_state(j2) is Active));
        }
    }
    Ok(())
}

/// The outcome of a hand: who won what, and the hands revealed at a
/// showdown. Seats are given by index in seating order.
#[derive(Debug)]
pub struct HandResult {
    /// Each winning seat with the amount it takes from the pot. The pot
    /// splits equally among ties; the odd remainder goes to the listed
    /// winner nearest the start of the seating order.
    pub winners: Vec<(usize, usize)>,
    /// Each contesting seat with the strength of its revealed hand;
    /// empty when the hand ended by folds, since no hand is evaluated.
    pub revealed: Vec<(usize, HandValues)>,
}

/// The hole cards a contesting seat holds.
pub open spec fn seat_hole(h: Hand, j: int) -> HoleCards {
    match h.seat_state(j) {
        PlayerState::Dealt(hc) => hc,
        PlayerState::Active(hc) => hc,
        PlayerState::AllIn(hc) => hc,
        _ => HoleCards(Card(Suit::Diamond, Rank::Two), Card(Suit::Diamond, Rank::Two)),
    }
}

/// How many of the first `t` revealed entries tie the given strength.
pub open spec fn count_ties(rev: Seq<(usize, HandValues)>, best: HandValues, t: int) -> int
    decreases t,
{
    if t <= 0 {
        0
    } else {
        count_ties(rev, best, t - 1) + if rev[t - 1].1 == best {
            1int
        } else {
            0int
        }
    }
}

/// The showdown strength of a contesting seat: its hole cards together
/// with the community cards.
pub open spec fn seat_strength(h: Hand, j: int) -> HandValues {
    spec_evaluate(seq![seat_hole(h, j).0, seat_hole(h, j).1] + h.spec_community())
}

/// Settles the hand once it is decided: after all but one player
/// folded, the sole contestant takes the whole pot with no hand
/// evaluated; after the river's round closes, every contesting seat's
/// hand is evaluated against the board, the strongest win, and the pot
/// splits equally among them with the odd chips going to the listed
/// winner nearest the start of the seating order. Any earlier state
/// fails, with the hand untouched either way.
#[verifier::rlimit(100)]
pub fn showdown(hand: &Hand) -> (r: Result<HandResult, PokerError>)
    requires
        hand.wf(),
    ensures
        r is Err <==> !(hand.spec_status() is HandEndedByFold || (hand.spec_status()
            is RoundClosed && hand.spec_street() is River)),
        r is Err ==> r == Err::<HandResult, PokerError>(
            PokerError::IllegalMove(IllegalMoveReason::ShowdownNotReached),
        ),
        r matches Ok(res) ==> ({
            let n = hand.spec_player_count() as int;
            let k = res.winners@.len() as int;
            &&& k >= 1
            &&& forall|t: int|
                0 <= t < k ==> 0 <= #[trigger] res.winners@[t].0 < n && in_hand(
                    hand.seat_state(res.winners@[t].0 as int),
                )
            &&& forall|t: int|
                0 <= t < k ==> #[trigger] res.winners@[t].1 == hand.spec_pot() as int / k + (
                if t == 0 {
                    hand.spec_pot() as int % k
                } else {
                    0
                })
            &&& forall|t1: int, t2: int|
                0 <= t1 < t2 < k ==> res.winners@[t1].0 < res.winners@[t2].0
            &&& forall|t1: int, t2: int|
                0 <= t1 < t2 < res.revealed@.len() ==> res.revealed@[t1].0 < res.revealed@[t2].0
            &&& (hand.spec_status() is HandEndedByFold ==> k == 1 && res.revealed@.len() == 0)
            &&& (hand.spec_status() is RoundClosed ==> {
                let best = seat_strength(*hand, res.winners@[0].0 as int);
                &&& forall|t: int|
                    0 <= t < res.revealed@.len() ==> in_hand(
                        hand.seat_state(#[trigger] res.revealed@[t].0 as int),
                    ) && res.revealed@[t].1 == seat_strength(*hand, res.revealed@[t].0 as int)
                &&& forall|j: int|
                    0 <= j < n && in_hand(hand.seat_state(j)) ==> exists|t: int|
                        0 <= t < res.revealed@.len() && #[trigger] res.revealed@[t].0 == j
                &&& forall|j: int|
                    0 <= j < n && in_hand(hand.seat_state(j)) ==> !spec_beats(
                        seat_strength(*hand, j),
                        best,
                    )
                &&& forall|t: int|
                    0 <= t < k ==> seat_strength(*hand, #[trigger] res.winners@[t].0 as int)
                        == best
                &&& forall|j: int|
                    0 <= j < n && in_hand(hand.seat_state(j)) && seat_strength(*hand, j) == best
                        ==> exists|t: int| 0 <= t < k && #[trigger] res.winners@[t].0 == j
            })
        }),
{
    let n = hand.players.len();
    let fold_ended = match hand.status {
        HandStatus::HandEndedByFold => true,
        HandStatus::RoundClosed => {
            match hand.street {
                Deal::River => false,
                _ => {
                    return Err(PokerError::IllegalMove(IllegalMoveReason::ShowdownNotReached));
                },
            }
        },
        _ => {
            return Err(PokerError::IllegalMove(IllegalMoveReason::ShowdownNotReached));
        },
    };
    if fold_ended {
        let mut w: usize = 0;
        let mut found = false;
        let mut j: usize = 0;
        while j < n
            invariant
                j <= n,
                n == hand.spec_player_count(),
                !found ==> count_in_hand(*hand, j as int) == 0,
                found ==> 0 <= w < n && in_hand(hand.seat_state(w as int)),
            decreases n - j,
        {
            if !found {
                let is_in = match hand.players[j].state {
                    PlayerState::Dealt(_) => true,
                    PlayerState::Active(_) => true,
                    PlayerState::AllIn(_) => true,
                    _ => false,
                };
                if is_in {
                    found = true;
                    w = j;
                }
            }
            j = j + 1;
        }
        proof {
            if !found {
                assert(count_in_hand(*hand, n as int) == 0);
            }
        }
        let mut winners: Vec<(usize, usize)> = Vec::new();
        winners.push((w, hand.pot));
        let revealed: Vec<(usize, HandValues)> = Vec::new();
        return Ok(HandResult { winners, revealed });
    }
    let mut revealed: Vec<(usize, HandValues)> = Vec::new();
    let mut j: usize = 0;
    while j < n
        invariant
            j <= n,
            n == hand.spec_player_count(),
            hand.wf(),
            hand.spec_status() is RoundClosed,
            hand.spec_street() is River,
            revealed@.len() == count_in_hand(*hand, j as int),
            forall|t: int|
                0 <= t < revealed@.len() ==> 0 <= #[trigger] revealed@[t].0 < j && in_hand(
                    hand.seat_state(revealed@[t].0 as int),
                ) && revealed@[t].1 == seat_strength(*hand, revealed@[t].0 as int),
            forall|j2: int|
                0 <= j2 < j && in_hand(hand.seat_state(j2)) ==> exists|t: int|
                    0 <= t < revealed@.len() && #[trigger] revealed@[t].0 == j2,
            forall|t1: int, t2: int|
                0 <= t1 < t2 < revealed@.len() ==> revealed@[t1].0 < revealed@[t2].0,
        decreases n - j,
    {
        let hc_opt: Option<HoleCards> = match hand.players[j].state {
            PlayerState::Dealt(hc) => Some(hc),
            PlayerState::Active(hc) => Some(hc),
            PlayerState::AllIn(hc) => Some(hc),
            _ => None,
        };
        match hc_opt {
            Some(hc) => {
                let hv = evaluate(&hc, &hand.community);
                let ghost old_revealed = revealed@;
                revealed.push((j, hv));
                proof {
                    assert(hc == seat_hole(*hand, j as int));
                    assert(hv == seat_strength(*hand, j as int));
                    assert forall|j2: int|
                        0 <= j2 < j + 1 && in_hand(hand.seat_state(j2)) implies exists|t: int|
                        0 <= t < revealed@.len() && #[trigger] revealed@[t].0 == j2 by {
                        if j2 < j as int {
                            let t0 = choose|t: int|
                                0 <= t < old_revealed.len() && #[trigger] old_revealed[t].0 == j2;
                            assert(revealed@[t0].0 == j2);
                        } else {
                            assert(revealed@[revealed@.len() - 1].0 == j2);
                        }
                    }
                }
            },
            None => {},
        }
        j = j + 1;
    }
    proof {
        assert(count_in_hand(*hand, n as int) >= 2);
    }
    let mut best = revealed[0].1;
    let mut t: usize = 1;
    while t < revealed.len()
        invariant
            1 <= t <= revealed@.len(),
            exists|u: int| 0 <= u < t && #[trigger] revealed@[u].1 == best,
            forall|u: int| 0 <= u < t ==> !spec_beats(#[trigger] revealed@[u].1, best),
        decreases revealed@.len() - t,
    {
        let cand = revealed[t].1;
        if beats(&cand, &best) {
            let ghost old_best = best;
            best = cand;
            proof {
                assert forall|u: int| 0 <= u < t + 1 implies !spec_beats(
                    #[trigger] revealed@[u].1,
                    best,
                ) by {
                    if u < t as int {
                        if spec_beats(revealed@[u].1, best) {
                            crate::evaluator::lemma_beats_transitive(
                                revealed@[u].1,
                                best,
                                old_best,
                            );
                        }
                    } else {
                        crate::evaluator::lemma_beats_irreflexive(best);
                    }
                }
            }
        } else {
            proof {
                assert(revealed@[t as int].1 == cand);
            }
        }
        t = t + 1;
    }
    let mut k: usize = 0;
    let mut t: usize = 0;
    while t < revealed.len()
        invariant
            t <= revealed@.len(),
            k == count_ties(revealed@, best, t as int),
            k <= t,
        decreases revealed@.len() - t,
    {
        if revealed[t].1 == best {
            k = k + 1;
        }
        t = t + 1;
    }
    proof {
        let u0 = choose|u: int|
            0 <= u < revealed@.len() && #[trigger] revealed@[u].1 == best;
        lemma_count_ties_pos(revealed@, best, u0, revealed@.len() as int);
    }
    let share = hand.pot / k;
    let rem = hand.pot % k;
    proof {
        let p = hand.spec_pot() as int;
        let ki = k as int;
        vstd::arithmetic::div_mod::lemma_fundamental_div_mod(p, ki);
        assert(share as int + rem as int <= p) by (nonlinear_arith)
            requires
                p == ki * (share as int) + (rem as int),
                ki >= 1,
                share as int >= 0,
                rem as int >= 0,
        ;
    }
    let mut winners: Vec<(usize, usize)> = Vec::new();
    let ghost mut last_u: int = 0;
    let mut t: usize = 0;
    while t < revealed.len()
        invariant
            t <= revealed@.len(),
            n == hand.spec_player_count(),
            share == hand.spec_pot() as int / k as int,
            rem == hand.spec_pot() as int % k as int,
            share as int + rem as int <= hand.spec_pot(),
            k == count_ties(revealed@, best, revealed@.len() as int),
            1 <= k,
            winners@.len() == count_ties(revealed@, best, t as int),
            forall|t2: int|
                0 <= t2 < revealed@.len() ==> 0 <= #[trigger] revealed@[t2].0 < n && in_hand(
                    hand.seat_state(revealed@[t2].0 as int),
                ) && revealed@[t2].1 == seat_strength(*hand, revealed@[t2].0 as int),
            forall|x: int|
                0 <= x < winners@.len() ==> 0 <= #[trigger] winners@[x].0 < n && in_hand(
                    hand.seat_state(winners@[x].0 as int),
                ) && seat_strength(*hand, winners@[x].0 as int) == best,
            forall|x: int|
                0 <= x < winners@.len() ==> #[trigger] winners@[x].1 == share as int + (if x
                    == 0 {
                    rem as int
                } else {
                    0int
                }),
            forall|u: int|
                0 <= u < t && revealed@[u].1 == best ==> exists|x: int|
                    0 <= x < winners@.len() && #[trigger] winners@[x].0 == revealed@[u].0,
            winners@.len() > 0 ==> (0 <= last_u < t && winners@[winners@.len() - 1].0
                == revealed@[last_u].0),
            forall|x1: int, x2: int|
                0 <= x1 < x2 < winners@.len() ==> winners@[x1].0 < winners@[x2].0,
            forall|t1: int, t2: int|
                0 <= t1 < t2 < revealed@.len() ==> revealed@[t1].0 < revealed@[t2].0,
        decreases revealed@.len() - t,
    {
        if revealed[t].1 == best {
            let amount = if winners.len() == 0 {
                share + rem
            } else {
                share
            };
            let ghost old_winners = winners@;
            winners.push((revealed[t].0, amount));
            proof {
                lemma_count_ties_le(revealed@, best, t as int, revealed@.len() as int);
                assert forall|u: int|
                    0 <= u < t + 1 && revealed@[u].1 == best implies exists|x: int|
                    0 <= x < winners@.len() && #[trigger] winners@[x].0 == revealed@[u].0 by {
                    if u < t as int {
                        let x0 = choose|x: int|
                            0 <= x < old_winners.len() && #[trigger] old_winners[x].0
                                == revealed@[u].0;
                        assert(winners@[x0].0 == revealed@[u].0);
                    } else {
                        assert(winners@[winners@.len() - 1].0 == revealed@[u].0);
                    }
                }
                if old_winners.len() > 0 {
                    assert(old_winners[old_winners.len() - 1].0 == revealed@[last_u].0);
                    assert(revealed@[last_u].0 < revealed@[t as int].0);
                }
                last_u = t as int;
                assert forall|x1: int, x2: int|
                    0 <= x1 < x2 < winners@.len() implies winners@[x1].0 < winners@[x2].0 by {
                    if x2 == winners@.len() - 1 && old_winners.len() > 0 {
                        assert(old_winners[x1].0 <= old_winners[old_winners.len() - 1].0);
                    }
                }
            }
        } else {
            proof {
                lemma_count_ties_le(revealed@, best, t as int, revealed@.len() as int);
            }
        }
        t = t + 1;
    }
    proof {
        assert forall|j2: int|
            0 <= j2 < n && in_hand(hand.seat_state(j2)) && seat_strength(*hand, j2)
                == seat_strength(*hand, winners@[0].0 as int) implies exists|x: int|
            0 <= x < winners@.len() && #[trigger] winners@[x].0 == j2 by {
            let t0 = choose|t2: int|
                0 <= t2 < revealed@.len() && #[trigger] revealed@[t2].0 == j2;
            assert(revealed@[t0].1 == best);
            let x0 = choose|x: int|
                0 <= x < winners@.len() && #[trigger] winners@[x].0 == revealed@[t0].0;
            assert(winners@[x0].0 == j2);
        }
    }
    Ok(HandResult { winners, revealed })
}


/// The seatwise round rules carry from one state to another whose
/// seats hold the same stacks, bets and acted flags, with at most some
/// seats promoted from holding cards to acting.
proof fn lemma_seatwise_rules_carry(a: Hand, b: Hand, n: int)
    requires
        a.spec_bet_to_call() == b.spec_bet_to_call(),
        forall|j: int| 0 <= j < n ==> b.seat_bet(j) == a.seat_bet(j),
        forall|j: int| 0 <= j < n ==> b.seat_chips(j) == a.seat_chips(j),
        forall|j: int| 0 <= j < n ==> b.seat_acted(j) == a.seat_acted(j),
        forall|j: int|
            0 <= j < n ==> (b.seat_state(j) == a.seat_state(j) || (a.seat_state(j) is Dealt
                && b.seat_state(j) is Active)),
        forall|j: int| 0 <= j < n ==> a.seat_bet(j) <= a.spec_bet_to_call(),
        forall|j: int|
            0 <= j < n ==> ((a.seat_state(j) is Dealt && a.seat_acted(j)) ==> a.seat_bet(j)
                == a.spec_bet_to_call()),
        forall|j: int|
            0 <= j < n ==> ((a.seat_state(j) is WaitingToBeDealt || a.seat_state(j) is Dealt
                || a.seat_state(j) is Active) ==> a.seat_chips(j) > 0),
    ensures
        forall|j: int| 0 <= j < n ==> b.seat_bet(j) <= b.spec_bet_to_call(),
        forall|j: int|
            0 <= j < n ==> ((b.seat_state(j) is Dealt && b.seat_acted(j)) ==> b.seat_bet(j)
                == b.spec_bet_to_call()),
        forall|j: int|
            0 <= j < n ==> ((b.seat_state(j) is WaitingToBeDealt || b.seat_state(j) is Dealt
                || b.seat_state(j) is Active) ==> b.seat_chips(j) > 0),
{
}

/// The tie count over a prefix that includes a tying entry is at least
/// one.
proof fn lemma_count_ties_pos(rev: Seq<(usize, HandValues)>, best: HandValues, u: int, t: int)
    requires
        0 <= u < t <= rev.len(),
        rev[u].1 == best,
    ensures
        count_ties(rev, best, t) >= 1,
    decreases t,
{
    if u < t - 1 {
        lemma_count_ties_pos(rev, best, u, t - 1);
        lemma_count_ties_nonneg(rev, best, t - 1);
    } else {
        lemma_count_ties_nonneg(rev, best, t - 1);
    }
}

/// A tie count is non-negative.
proof fn lemma_count_ties_nonneg(rev: Seq<(usize, HandValues)>, best: HandValues, t: int)
    ensures
        count_ties(rev, best, t) >= 0,
    decreases t,
{
    if t > 0 {
        lemma_count_ties_nonneg(rev, best, t - 1);
    }
}

/// A prefix's tie count never exceeds the whole's.
proof fn lemma_count_ties_le(rev: Seq<(usize, HandValues)>, best: HandValues, a: int, b: int)
    requires
        0 <= a <= b,
    ensures
        count_ties(rev, best, a) <= count_ties(rev, best, b),
    decreases b,
{
    if a < b {
        lemma_count_ties_le(rev, best, a, b - 1);
    }
}


impl Hand {
    /// How many seats the hand has.
    pub fn player_count(&self) -> (r: usize)
        ensures
            r == self.spec_player_count(),
    {
        self.players.len()
    }

    /// The chips collected so far.
    pub fn pot(&self) -> (r: usize)
        ensures
            r == self.spec_pot(),
    {
        self.pot
    }

    /// The undealt remainder of the deck.
    pub fn deck(&self) -> (r: &Vec<Card>)
        ensures
            r@ == self.spec_deck(),
    {
        &self.deck
    }

    /// The community cards dealt so far.
    pub fn community(&self) -> (r: &Vec<Card>)
        ensures
            r@ == self.spec_community(),
    {
        &self.community
    }

    /// What a player must have put in this street to stay in.
    pub fn bet_to_call(&self) -> (r: usize)
        ensures
            r == self.spec_bet_to_call(),
    {
        self.bet_to_call
    }

    /// The current street.
    pub fn street(&self) -> (r: Deal)
        ensures
            r == self.spec_street(),
    {
        self.street
    }

    /// Where the hand stands.
    pub fn status(&self) -> (r: HandStatus)
        ensures
            r == self.spec_status(),
    {
        self.status
    }

    /// The participation state of the seat at `i`.
    pub fn player_state(&self, i: usize) -> (r: PlayerState)
        requires
            i < self.spec_player_count(),
        ensures
            r == self.seat_state(i as int),
    {
        self.players[i].state
    }

    /// The name of the player at seat `i`.
    pub fn player_name(&self, i: usize) -> (r: &String)
        requires
            i < self.spec_player_count(),
        ensures
            r@ == self.seat_name(i as int),
    {
        &self.players[i].player.name
    }

    /// The chip stack of the player at seat `i`.
    pub fn player_chips(&self, i: usize) -> (r: usize)
        requires
            i < self.spec_player_count(),
        ensures
            r == self.seat_chips(i as int),
    {
        self.players[i].player.chips
    }

    /// What the seat at `i` has put in the pot this street.
    pub fn player_street_bet(&self, i: usize) -> (r: usize)
        requires
            i < self.spec_player_count(),
        ensures
            r == self.seat_bet(i as int),
    {
        self.players[i].street_bet
    }
}

/// The pot always accounts exactly for what was committed: it equals
/// the chips banked on earlier streets plus every seat's recorded bets
/// for the current street; and once a betting round has closed, every
/// seat still able to act has matched the bet to call exactly. (A seat
/// that went all-in for less keeps its smaller recorded bet.)
pub proof fn lemma_round_settlement(h: Hand)
    requires
        h.wf(),
    ensures
        h.spec_pot() == h.spec_prior_pot() + sum_bets(h, h.spec_player_count() as int),
        h.spec_status() is RoundClosed ==> forall|j: int|
            0 <= j < h.spec_player_count() && h.seat_state(j) is Dealt ==> h.seat_bet(j)
                == h.spec_bet_to_call(),
{
}

/// A prefix of the listed stacks sums to no more than the whole, the
/// stacks being non-negative.
proof fn lemma_sum_player_chips_mono(ps: Seq<Player>, a: int, b: int)
    requires
        0 <= a <= b <= ps.len(),
    ensures
        sum_player_chips(ps, a) <= sum_player_chips(ps, b),
    decreases b,
{
    if a < b {
        lemma_sum_player_chips_mono(ps, a, b - 1);
    }
}

/// Seats that have bet nothing sum to nothing.
proof fn lemma_sum_bets_zero(h: Hand, n: int)
    requires
        forall|j: int| 0 <= j < n ==> h.seat_bet(j) == 0,
    ensures
        sum_bets(h, n) == 0,
    decreases n,
{
    if n > 0 {
        lemma_sum_bets_zero(h, n - 1);
    }
}

/// A hand's stacks sum to the listed players' stacks when each seat
/// carries the matching player's chips.
proof fn lemma_sum_chips_matches(h: Hand, ps: Seq<Player>, n: int)
    requires
        n <= ps.len(),
        forall|j: int| 0 <= j < n ==> h.seat_chips(j) == ps[j].spec_chips(),
    ensures
        sum_chips(h, n) == sum_player_chips(ps, n),
    decreases n,
{
    if n > 0 {
        lemma_sum_chips_matches(h, ps, n - 1);
    }
}

} // verus!
