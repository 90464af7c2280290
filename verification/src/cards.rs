//! Card value types and the deck: suits, ranks, hole cards, and a seeded
//! shuffle that produces a permutation of the 52-card set.

use vstd::prelude::*;

verus! {

use vstd::string::StringExecFns;

/// One of the four French suits. Suits carry no ranking weight.
#[derive(Debug, PartialEq, Eq, Structural, Clone, Copy)]
pub enum Suit {
    Diamond,
    Heart,
    Club,
    Spade,
}

/// A card rank, from Two up to Ace. For evaluation, Ace is the highest
/// rank, except that it may also stand below Two in a five-high straight.
#[derive(Debug, PartialEq, Eq, Structural, Clone, Copy)]
pub enum Rank {
    Two,
    Three,
    Four,
    Five,
    Six,
    Seven,
    Eight,
    Nine,
    Ten,
    Jack,
    Queen,
    King,
    Ace,
}

/// A playing card: a (suit, rank) pair. A deck holds each such pair at
/// most once.
#[derive(Debug, PartialEq, Eq, Structural, Clone, Copy)]
pub struct Card(pub Suit, pub Rank);

/// An ordered sequence of cards, consumed strictly front to back.
pub type Deck = Vec<Card>;

/// The two private cards assigned to one player for the hand.
#[derive(Debug, PartialEq, Eq, Structural, Clone, Copy)]
pub struct HoleCards(pub Card, pub Card);

/// Position of a suit in the canonical deck order.
pub open spec fn suit_index(s: Suit) -> int {
    match s {
        Suit::Diamond => 0,
        Suit::Heart => 1,
        Suit::Club => 2,
        Suit::Spade => 3,
    }
}

/// Suit at a given position of the canonical deck order.
pub open spec fn suit_of(i: int) -> Suit {
    if i == 0 {
        Suit::Diamond
    } else if i == 1 {
        Suit::Heart
    } else if i == 2 {
        Suit::Club
    } else {
        Suit::Spade
    }
}

/// Position of a rank in the canonical suit order.
pub open spec fn rank_index(r: Rank) -> int {
    match r {
        Rank::Two => 0,
        Rank::Three => 1,
        Rank::Four => 2,
        Rank::Five => 3,
        Rank::Six => 4,
        Rank::Seven => 5,
        Rank::Eight => 6,
        Rank::Nine => 7,
        Rank::Ten => 8,
        Rank::Jack => 9,
        Rank::Queen => 10,
        Rank::King => 11,
        Rank::Ace => 12,
    }
}

/// Rank at a given position of the canonical suit order.
pub open spec fn rank_of(i: int) -> Rank {
    if i == 0 {
        Rank::Two
    } else if i == 1 {
        Rank::Three
    } else if i == 2 {
        Rank::Four
    } else if i == 3 {
        Rank::Five
    } else if i == 4 {
        Rank::Six
    } else if i == 5 {
        Rank::Seven
    } else if i == 6 {
        Rank::Eight
    } else if i == 7 {
        Rank::Nine
    } else if i == 8 {
        Rank::Ten
    } else if i == 9 {
        Rank::Jack
    } else if i == 10 {
        Rank::Queen
    } else if i == 11 {
        Rank::King
    } else {
        Rank::Ace
    }
}

/// Numeric strength of a rank for hand evaluation: Two is 2, Ace is 14.
pub open spec fn rank_value(r: Rank) -> int {
    rank_index(r) + 2
}

/// Card at a given position of the canonical (unshuffled) 52-card deck.
pub open spec fn canonical_card(j: int) -> Card {
    Card(suit_of(j / 13), rank_of(j % 13))
}

/// A deck is exactly the 52 canonical cards, in some order, when it has
/// 52 entries and holds every card exactly once.
pub open spec fn is_full_deck(s: Seq<Card>) -> bool {
    &&& s.len() == 52
    &&& forall|c: Card| s.to_multiset().count(c) == 1
}

fn suit_from(i: usize) -> (s: Suit)
    requires
        i < 4,
    ensures
        s == suit_of(i as int),
{
    if i == 0 {
        Suit::Diamond
    } else if i == 1 {
        Suit::Heart
    } else if i == 2 {
        Suit::Club
    } else {
        Suit::Spade
    }
}

fn rank_from(i: usize) -> (r: Rank)
    requires
        i < 13,
    ensures
        r == rank_of(i as int),
{
    if i == 0 {
        Rank::Two
    } else if i == 1 {
        Rank::Three
    } else if i == 2 {
        Rank::Four
    } else if i == 3 {
        Rank::Five
    } else if i == 4 {
        Rank::Six
    } else if i == 5 {
        Rank::Seven
    } else if i == 6 {
        Rank::Eight
    } else if i == 7 {
        Rank::Nine
    } else if i == 8 {
        Rank::Ten
    } else if i == 9 {
        Rank::Jack
    } else if i == 10 {
        Rank::Queen
    } else if i == 11 {
        Rank::King
    } else {
        Rank::Ace
    }
}

/// The glyph that renders a suit.
pub open spec fn spec_suit_symbol(s: Suit) -> Seq<char> {
    match s {
        Suit::Heart => "♥"@,
        Suit::Diamond => "♦"@,
        Suit::Spade => "♠"@,
        Suit::Club => "♣"@,
    }
}

/// The English name of a rank.
pub open spec fn spec_rank_name(r: Rank) -> Seq<char> {
    match r {
        Rank::Two => "Two"@,
        Rank::Three => "Three"@,
        Rank::Four => "Four"@,
        Rank::Five => "Five"@,
        Rank::Six => "Six"@,
        Rank::Seven => "Seven"@,
        Rank::Eight => "Eight"@,
        Rank::Nine => "Nine"@,
        Rank::Ten => "Ten"@,
        Rank::Jack => "Jack"@,
        Rank::Queen => "Queen"@,
        Rank::King => "King"@,
        Rank::Ace => "Ace"@,
    }
}

/// How a card renders: its suit glyph and rank name in parentheses.
pub open spec fn spec_card_text(c: Card) -> Seq<char> {
    "("@ + spec_suit_symbol(c.0) + ", "@ + spec_rank_name(c.1) + ")"@
}

impl Suit {
    /// The glyph that renders this suit.
    pub fn symbol(&self) -> (r: String)
        ensures
            r@ == spec_suit_symbol(*self),
    {
        match self {
            Suit::Heart => String::from_str("♥"),
            Suit::Diamond => String::from_str("♦"),
            Suit::Spade => String::from_str("♠"),
            Suit::Club => String::from_str("♣"),
        }
    }
}

impl Rank {
    /// The English name of this rank.
    pub fn name(&self) -> (r: String)
        ensures
            r@ == spec_rank_name(*self),
    {
        match self {
            Rank::Two => String::from_str("Two"),
            Rank::Three => String::from_str("Three"),
            Rank::Four => String::from_str("Four"),
            Rank::Five => String::from_str("Five"),
            Rank::Six => String::from_str("Six"),
            Rank::Seven => String::from_str("Seven"),
            Rank::Eight => String::from_str("Eight"),
            Rank::Nine => String::from_str("Nine"),
            Rank::Ten => String::from_str("Ten"),
            Rank::Jack => String::from_str("Jack"),
            Rank::Queen => String::from_str("Queen"),
            Rank::King => String::from_str("King"),
            Rank::Ace => String::from_str("Ace"),
        }
    }
}

impl Card {
    /// Renders the card as its suit glyph and rank name in parentheses.
    pub fn text(&self) -> (r: String)
        ensures
            r@ == spec_card_text(*self),
    {
        let suit = self.0.symbol();
        let rank = self.1.name();
        let r = String::from_str("(").concat(suit.as_str()).concat(", ").concat(
            rank.as_str(),
        ).concat(")");
        r
    }
}

/// One step of the pseudo-random stream that drives the shuffle: a
/// linear congruential generator over the full 64-bit ring.
pub open spec fn spec_next_random(state: u64) -> u64 {
    state.wrapping_mul(6364136223846793005).wrapping_add(1442695040888963407)
}

/// The exec step of the shuffle's pseudo-random stream.
fn next_random(state: u64) -> (r: u64)
    ensures
        r == spec_next_random(state),
{
    state.wrapping_mul(6364136223846793005).wrapping_add(1442695040888963407)
}

/// The 52 canonical cards in canonical order.
pub open spec fn spec_canonical_deck() -> Seq<Card> {
    Seq::new(52, |j: int| canonical_card(j))
}

/// The rest of the shuffle, swapping positions `i` down to 1, each
/// with a position drawn from the pseudo-random stream.
pub open spec fn spec_shuffle_from(s: Seq<Card>, state: u64, i: int) -> Seq<Card>
    decreases i,
{
    if i < 1 {
        s
    } else {
        let st = spec_next_random(state);
        let j = (st as int) % (i + 1);
        spec_shuffle_from(s.update(i, s[j]).update(j, s[i]), st, i - 1)
    }
}

/// The deck the seeded shuffle produces: the canonical deck run through
/// the swap schedule that the seed's pseudo-random stream dictates.
pub open spec fn spec_shuffle(seed: u64) -> Seq<Card> {
    spec_shuffle_from(spec_canonical_deck(), seed, 51)
}

/// Swapping two positions of a sequence leaves the count of every value
/// unchanged.
proof fn lemma_swap_preserves_counts(s: Seq<Card>, i: int, j: int)
    requires
        0 <= i < s.len(),
        0 <= j < s.len(),
    ensures
        s.update(i, s[j]).update(j, s[i]).to_multiset() == s.to_multiset(),
{
    broadcast use vstd::seq_lib::to_multiset_update;
    broadcast use vstd::seq_lib::group_to_multiset_ensures;
    broadcast use vstd::multiset::group_multiset_axioms;

    let s1 = s.update(i, s[j]);
    let s2 = s1.update(j, s[i]);
    assert(s1[j] == s[j]);
    assert(s.contains(s[i]));
    assert(s.contains(s[j]));
    assert(s.to_multiset().count(s[i]) > 0);
    assert(s.to_multiset().count(s[j]) > 0);
    assert(s1.to_multiset() == s.to_multiset().insert(s[j]).remove(s[i]));
    assert(s2.to_multiset() == s1.to_multiset().insert(s[i]).remove(s[j]));
    assert(s2.to_multiset() =~= s.to_multiset());
}

/// Builds the 52 canonical cards in canonical order.
fn canonical_deck() -> (deck: Vec<Card>)
    ensures
        deck@.len() == 52,
        forall|j: int| 0 <= j < 52 ==> deck@[j] == canonical_card(j),
{
    let mut deck: Vec<Card> = Vec::new();
    let mut si: usize = 0;
    while si < 4
        invariant
            si <= 4,
            deck@.len() == si * 13,
            forall|j: int| 0 <= j < deck@.len() ==> deck@[j] == canonical_card(j),
        decreases 4 - si,
    {
        let mut ri: usize = 0;
        while ri < 13
            invariant
                si < 4,
                ri <= 13,
                deck@.len() == si * 13 + ri,
                forall|j: int| 0 <= j < deck@.len() ==> deck@[j] == canonical_card(j),
            decreases 13 - ri,
        {
            let card = Card(suit_from(si), rank_from(ri));
            proof {
                assert((si * 13 + ri) / 13 == si && (si * 13 + ri) % 13 == ri) by (nonlinear_arith)
                    requires
                        0 <= si < 4,
                        0 <= ri < 13,
                ;
                assert(card == canonical_card(si * 13 + ri));
            }
            deck.push(card);
            ri = ri + 1;
        }
        si = si + 1;
    }
    deck
}

/// Every card appears exactly once in a sequence that lists the
/// canonical card at each of its 52 positions.
proof fn lemma_canonical_deck_counts(s: Seq<Card>)
    requires
        s.len() == 52,
        forall|j: int| 0 <= j < 52 ==> s[j] == canonical_card(j),
    ensures
        forall|c: Card| s.to_multiset().count(c) == 1,
{
    broadcast use vstd::seq_lib::group_to_multiset_ensures;
    broadcast use vstd::multiset::group_multiset_axioms;

    assert forall|i: int, j: int| 0 <= i < 52 && 0 <= j < 52 && i != j implies s[i] != s[j] by {
        vstd::arithmetic::div_mod::lemma_fundamental_div_mod(i, 13);
        vstd::arithmetic::div_mod::lemma_fundamental_div_mod(j, 13);
        assert(0 <= i / 13 < 4 && 0 <= i % 13 < 13);
        assert(0 <= j / 13 < 4 && 0 <= j % 13 < 13);
        if s[i] == s[j] {
            assert(canonical_card(i) == canonical_card(j));
            assert(suit_of(i / 13) == suit_of(j / 13));
            assert(rank_of(i % 13) == rank_of(j % 13));
            assert(i / 13 == j / 13);
            assert(i % 13 == j % 13);
            assert(i == 13 * (i / 13) + i % 13);
            assert(j == 13 * (j / 13) + j % 13);
            assert(false);
        }
    }
    assert(s.no_duplicates());
    s.lemma_multiset_has_no_duplicates();
    assert forall|c: Card| s.to_multiset().count(c) == 1 by {
        let Card(su, ra) = c;
        assert(c == Card(su, ra));
        assert(0 <= suit_index(su) < 4);
        assert(0 <= rank_index(ra) < 13);
        let j = suit_index(su) * 13 + rank_index(ra);
        assert(0 <= j < 52);
        assert(j / 13 == suit_index(su) && j % 13 == rank_index(ra)) by (nonlinear_arith)
            requires
                j == suit_index(su) * 13 + rank_index(ra),
                0 <= suit_index(su) < 4,
                0 <= rank_index(ra) < 13,
        ;
        assert(suit_of(suit_index(su)) == su);
        assert(rank_of(rank_index(ra)) == ra);
        assert(canonical_card(j) == c);
        assert(s[j] == c);
        assert(s.contains(c));
        assert(s.to_multiset().count(c) > 0);
    }
}

/// Produces a permutation of the full 52-card set: every card appears
/// exactly once. The deck is exactly `spec_shuffle(seed)`, a pure
/// function of the seed, so the same seed always yields the same deck.
pub fn shuffle(seed: u64) -> (deck: Deck)
    ensures
        is_full_deck(deck@),
        deck@ == spec_shuffle(seed),
{
    let mut deck = canonical_deck();
    proof {
        lemma_canonical_deck_counts(deck@);
        assert(deck@ =~= spec_canonical_deck());
    }
    let mut state: u64 = seed;
    let mut i: usize = 51;
    while i >= 1
        invariant
            i <= 51,
            deck@.len() == 52,
            forall|c: Card| deck@.to_multiset().count(c) == 1,
            spec_shuffle(seed) == spec_shuffle_from(deck@, state, i as int),
        decreases i,
    {
        state = next_random(state);
        let j = (state % ((i as u64) + 1)) as usize;
        let a = deck[i];
        let b = deck[j];
        proof {
            lemma_swap_preserves_counts(deck@, i as int, j as int);
            assert(j == (state as int) % (i as int + 1));
        }
        deck[i] = b;
        deck[j] = a;
        i = i - 1;
    }
    deck
}

} // verus!
