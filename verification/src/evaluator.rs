//! Showdown hand evaluation: a pure, deterministic mapping from five to
//! seven cards to a totally ordered hand strength, high card through
//! straight flush, with tie-break ranks carried in the result.

use vstd::prelude::*;

use crate::cards::{Card, Rank, Suit, rank_value, HoleCards};

verus! {

/// The strength of a hand: its category, carrying the rank values that
/// justify the classification, highest first, for tie-breaking. A rank
/// value is 2 through 14, with 14 the Ace; a straight's value is the
/// top card of the run, which is 5 for the five-high straight where the
/// Ace plays low. Categories compare before tie-break ranks, so any
/// straight flush beats any four of a kind, and so on down.
#[derive(Debug, PartialEq, Eq, Structural, Clone, Copy)]
pub enum HandValues {
    /// Five kicker ranks, descending.
    HighCard(u8, u8, u8, u8, u8),
    /// The paired rank, then three kickers descending.
    Pair(u8, u8, u8, u8),
    /// Higher pair, lower pair, kicker.
    TwoPairs(u8, u8, u8),
    /// Rank of the triple, then two kickers descending.
    ThreeOfAKind(u8, u8, u8),
    /// Top rank of the run.
    Straight(u8),
    /// The five flush ranks, descending.
    Flush(u8, u8, u8, u8, u8),
    /// Rank of the triple, then rank of the pair.
    FullHouse(u8, u8),
    /// The quadrupled rank, then the kicker.
    FourOfAKind(u8, u8),
    /// Top rank of the run.
    StraightFlush(u8),
}

/// How many cards of the sequence have the given rank value.
pub open spec fn count_rank(s: Seq<Card>, v: int) -> nat
    decreases s.len(),
{
    if s.len() == 0 {
        0
    } else {
        count_rank(s.drop_last(), v) + if rank_value(s.last().1) == v {
            1nat
        } else {
            0nat
        }
    }
}

/// How many cards of the sequence are of the given suit.
pub open spec fn count_suit(s: Seq<Card>, su: Suit) -> nat
    decreases s.len(),
{
    if s.len() == 0 {
        0
    } else {
        count_suit(s.drop_last(), su) + if s.last().0 == su {
            1nat
        } else {
            0nat
        }
    }
}

/// How many cards of the sequence have the given rank value and suit.
pub open spec fn count_rank_suit(s: Seq<Card>, v: int, su: Suit) -> nat
    decreases s.len(),
{
    if s.len() == 0 {
        0
    } else {
        count_rank_suit(s.drop_last(), v, su) + if rank_value(s.last().1) == v && s.last().0 == su {
            1nat
        } else {
            0nat
        }
    }
}

/// The per-rank-value tally of a hand, as a table indexed 0 through 14.
pub open spec fn spec_rank_counts(s: Seq<Card>) -> Seq<nat> {
    Seq::new(15, |v: int| count_rank(s, v))
}

/// The per-rank-value tally of the cards of one suit.
pub open spec fn spec_suit_rank_counts(s: Seq<Card>, su: Suit) -> Seq<nat> {
    Seq::new(15, |v: int| count_rank_suit(s, v, su))
}

/// The highest rank value below `below`, not one of the two excluded
/// values, whose tally reaches `n`; 0 when there is none. Exclusions of
/// 0 exclude nothing.
pub open spec fn top_rank(c: Seq<nat>, n: nat, below: int, e1: int, e2: int) -> int
    decreases below,
{
    if below <= 2 {
        0
    } else if below - 1 != e1 && below - 1 != e2 && c[below - 1] >= n {
        below - 1
    } else {
        top_rank(c, n, below - 1, e1, e2)
    }
}

/// Whether the tally holds a card that can fill the given slot of a
/// straight; the Ace (value 14) also fills slot 1.
pub open spec fn slot_filled(c: Seq<nat>, v: int) -> bool {
    if v == 1 {
        c[14] > 0
    } else {
        c[v] > 0
    }
}

/// Whether the tally holds a straight topped by value `h`.
pub open spec fn straight_at(c: Seq<nat>, h: int) -> bool {
    &&& slot_filled(c, h)
    &&& slot_filled(c, h - 1)
    &&& slot_filled(c, h - 2)
    &&& slot_filled(c, h - 3)
    &&& slot_filled(c, h - 4)
}

/// The highest straight top below `below` in the tally; 0 when there is
/// no straight.
pub open spec fn straight_high(c: Seq<nat>, below: int) -> int
    decreases below,
{
    if below <= 5 {
        0
    } else if straight_at(c, below - 1) {
        below - 1
    } else {
        straight_high(c, below - 1)
    }
}

/// The flush suit of the hand, if any: the suit holding at least five
/// cards. Seven cards can hold at most one such suit; suits are tried
/// in a fixed order so the choice is a function of the cards.
pub open spec fn flush_suit(s: Seq<Card>) -> Option<Suit> {
    if count_suit(s, Suit::Diamond) >= 5 {
        Some(Suit::Diamond)
    } else if count_suit(s, Suit::Heart) >= 5 {
        Some(Suit::Heart)
    } else if count_suit(s, Suit::Club) >= 5 {
        Some(Suit::Club)
    } else if count_suit(s, Suit::Spade) >= 5 {
        Some(Suit::Spade)
    } else {
        None
    }
}

/// The strength of a hand of cards: the best five-card category the
/// cards can make, with its tie-break ranks. Categories are decided
/// from the rank and suit tallies: a straight flush needs a straight
/// within the flush suit; a full house a triple and a separate pair; a
/// kicker is the highest rank not already spent on the category.
pub open spec fn spec_evaluate(s: Seq<Card>) -> HandValues {
    let rc = spec_rank_counts(s);
    let fs = flush_suit(s);
    let sfh = match fs {
        Some(su) => straight_high(spec_suit_rank_counts(s, su), 15),
        None => 0,
    };
    if sfh > 0 {
        HandValues::StraightFlush(sfh as u8)
    } else {
        let quad = top_rank(rc, 4, 15, 0, 0);
        if quad > 0 {
            HandValues::FourOfAKind(quad as u8, top_rank(rc, 1, 15, quad, 0) as u8)
        } else {
            let trip = top_rank(rc, 3, 15, 0, 0);
            let fh_pair = if trip > 0 {
                top_rank(rc, 2, 15, trip, 0)
            } else {
                0
            };
            if trip > 0 && fh_pair > 0 {
                HandValues::FullHouse(trip as u8, fh_pair as u8)
            } else {
                match fs {
                    Some(su) => {
                        let sc = spec_suit_rank_counts(s, su);
                        let f1 = top_rank(sc, 1, 15, 0, 0);
                        let f2 = top_rank(sc, 1, f1, 0, 0);
                        let f3 = top_rank(sc, 1, f2, 0, 0);
                        let f4 = top_rank(sc, 1, f3, 0, 0);
                        let f5 = top_rank(sc, 1, f4, 0, 0);
                        HandValues::Flush(f1 as u8, f2 as u8, f3 as u8, f4 as u8, f5 as u8)
                    },
                    None => {
                        let sh = straight_high(rc, 15);
                        if sh > 0 {
                            HandValues::Straight(sh as u8)
                        } else if trip > 0 {
                            let k1 = top_rank(rc, 1, 15, trip, 0);
                            let k2 = top_rank(rc, 1, k1, trip, 0);
                            HandValues::ThreeOfAKind(trip as u8, k1 as u8, k2 as u8)
                        } else {
                            let p1 = top_rank(rc, 2, 15, 0, 0);
                            if p1 > 0 {
                                let p2 = top_rank(rc, 2, p1, 0, 0);
                                if p2 > 0 {
                                    let k = top_rank(rc, 1, 15, p1, p2);
                                    HandValues::TwoPairs(p1 as u8, p2 as u8, k as u8)
                                } else {
                                    let k1 = top_rank(rc, 1, 15, p1, 0);
                                    let k2 = top_rank(rc, 1, k1, p1, 0);
                                    let k3 = top_rank(rc, 1, k2, p1, 0);
                                    HandValues::Pair(p1 as u8, k1 as u8, k2 as u8, k3 as u8)
                                }
                            } else {
                                let h1 = top_rank(rc, 1, 15, 0, 0);
                                let h2 = top_rank(rc, 1, h1, 0, 0);
                                let h3 = top_rank(rc, 1, h2, 0, 0);
                                let h4 = top_rank(rc, 1, h3, 0, 0);
                                let h5 = top_rank(rc, 1, h4, 0, 0);
                                HandValues::HighCard(
                                    h1 as u8,
                                    h2 as u8,
                                    h3 as u8,
                                    h4 as u8,
                                    h5 as u8,
                                )
                            }
                        }
                    },
                }
            }
        }
    }
}

/// A rank tally never exceeds the number of cards.
proof fn lemma_count_rank_le(s: Seq<Card>, v: int)
    ensures
        count_rank(s, v) <= s.len(),
    decreases s.len(),
{
    if s.len() > 0 {
        lemma_count_rank_le(s.drop_last(), v);
    }
}

/// A suit tally never exceeds the number of cards.
proof fn lemma_count_suit_le(s: Seq<Card>, su: Suit)
    ensures
        count_suit(s, su) <= s.len(),
    decreases s.len(),
{
    if s.len() > 0 {
        lemma_count_suit_le(s.drop_last(), su);
    }
}

/// A rank-within-suit tally never exceeds the number of cards.
proof fn lemma_count_rank_suit_le(s: Seq<Card>, v: int, su: Suit)
    ensures
        count_rank_suit(s, v, su) <= s.len(),
    decreases s.len(),
{
    if s.len() > 0 {
        lemma_count_rank_suit_le(s.drop_last(), v, su);
    }
}

fn rank_value_of(r: Rank) -> (v: usize)
    ensures
        v == rank_value(r),
        2 <= v <= 14,
{
    match r {
        Rank::Two => 2,
        Rank::Three => 3,
        Rank::Four => 4,
        Rank::Five => 5,
        Rank::Six => 6,
        Rank::Seven => 7,
        Rank::Eight => 8,
        Rank::Nine => 9,
        Rank::Ten => 10,
        Rank::Jack => 11,
        Rank::Queen => 12,
        Rank::King => 13,
        Rank::Ace => 14,
    }
}

fn suit_index_of(su: Suit) -> (i: usize)
    ensures
        i == crate::cards::suit_index(su),
        i < 4,
{
    match su {
        Suit::Diamond => 0,
        Suit::Heart => 1,
        Suit::Club => 2,
        Suit::Spade => 3,
    }
}

/// Tallies the cards by rank value, into a table indexed 0 through 14.
fn tally_ranks(cards: &Vec<Card>) -> (c: Vec<usize>)
    ensures
        c@.len() == 15,
        forall|v: int| 0 <= v < 15 ==> c@[v] == count_rank(cards@, v),
{
    let ghost s = cards@;
    let mut c: Vec<usize> = vec![0; 15];
    let mut i: usize = 0;
    while i < cards.len()
        invariant
            i <= s.len(),
            cards@ == s,
            c@.len() == 15,
            forall|v: int| 0 <= v < 15 ==> c@[v] == count_rank(s.take(i as int), v),
        decreases s.len() - i,
    {
        let card = cards[i];
        let idx = rank_value_of(card.1);
        proof {
            lemma_count_rank_le(s.take(i as int), idx as int);
            assert(s.take(i as int).len() == i);
        }
        let cur = c[idx];
        c[idx] = cur + 1;
        proof {
            assert(s.take(i + 1).drop_last() =~= s.take(i as int));
            assert(s.take(i + 1).last() == s[i as int]);
        }
        i = i + 1;
    }
    proof {
        assert(s.take(s.len() as int) =~= s);
    }
    c
}

/// Tallies the cards by suit, indexed by the canonical suit order.
fn tally_suits(cards: &Vec<Card>) -> (c: Vec<usize>)
    ensures
        c@.len() == 4,
        forall|su: Suit| c@[crate::cards::suit_index(su)] == count_suit(cards@, su),
{
    let ghost s = cards@;
    let mut c: Vec<usize> = vec![0; 4];
    let mut i: usize = 0;
    while i < cards.len()
        invariant
            i <= s.len(),
            cards@ == s,
            c@.len() == 4,
            forall|su: Suit| c@[crate::cards::suit_index(su)] == count_suit(s.take(i as int), su),
        decreases s.len() - i,
    {
        let card = cards[i];
        let idx = suit_index_of(card.0);
        proof {
            lemma_count_suit_le(s.take(i as int), card.0);
            assert(s.take(i as int).len() == i);
            assert(c@[crate::cards::suit_index(card.0)] == count_suit(s.take(i as int), card.0));
        }
        let cur = c[idx];
        c[idx] = cur + 1;
        proof {
            assert(s.take(i + 1).drop_last() =~= s.take(i as int));
            assert(s.take(i + 1).last() == s[i as int]);
            assert forall|su: Suit| c@[crate::cards::suit_index(su)] == count_suit(
                s.take(i + 1),
                su,
            ) by {
                assert(s.take(i + 1).last() == card);
                assert(count_suit(s.take(i + 1), su) == count_suit(s.take(i as int), su)
                    + if card.0 == su {
                    1nat
                } else {
                    0nat
                });
                if su == card.0 {
                    assert(crate::cards::suit_index(su) == idx);
                    assert(c@[idx as int] == cur + 1);
                } else {
                    assert(crate::cards::suit_index(su) != idx);
                    assert(c@[crate::cards::suit_index(su)] == count_suit(s.take(i as int), su));
                }
            }
        }
        i = i + 1;
    }
    proof {
        assert(s.take(s.len() as int) =~= s);
    }
    c
}

/// Tallies the cards of one suit by rank value.
fn tally_suit_ranks(cards: &Vec<Card>, su: Suit) -> (c: Vec<usize>)
    ensures
        c@.len() == 15,
        forall|v: int| 0 <= v < 15 ==> c@[v] == count_rank_suit(cards@, v, su),
{
    let ghost s = cards@;
    let mut c: Vec<usize> = vec![0; 15];
    let mut i: usize = 0;
    while i < cards.len()
        invariant
            i <= s.len(),
            cards@ == s,
            c@.len() == 15,
            forall|v: int| 0 <= v < 15 ==> c@[v] == count_rank_suit(s.take(i as int), v, su),
        decreases s.len() - i,
    {
        let card = cards[i];
        proof {
            assert(s.take(i + 1).drop_last() =~= s.take(i as int));
            assert(s.take(i + 1).last() == s[i as int]);
        }
        if card.0 == su {
            let idx = rank_value_of(card.1);
            proof {
                lemma_count_rank_suit_le(s.take(i as int), idx as int, su);
                assert(s.take(i as int).len() == i);
            }
            let cur = c[idx];
            c[idx] = cur + 1;
        }
        i = i + 1;
    }
    proof {
        assert(s.take(s.len() as int) =~= s);
    }
    c
}

/// Scans downward for the highest qualifying rank value, mirroring
/// `top_rank`.
fn top_rank_exec(c: &Vec<usize>, gc: Ghost<Seq<nat>>, n: usize, below: usize, e1: usize, e2: usize) -> (r: usize)
    requires
        c@.len() == 15,
        gc@.len() == 15,
        forall|v: int| 0 <= v < 15 ==> c@[v] == gc@[v],
        below <= 15,
    ensures
        r == top_rank(gc@, n as nat, below as int, e1 as int, e2 as int),
        r <= 14,
{
    let mut v = below;
    while v > 2
        invariant
            v <= below <= 15,
            c@.len() == 15,
            gc@.len() == 15,
            forall|w: int| 0 <= w < 15 ==> c@[w] == gc@[w],
            top_rank(gc@, n as nat, below as int, e1 as int, e2 as int) == top_rank(
                gc@,
                n as nat,
                v as int,
                e1 as int,
                e2 as int,
            ),
        decreases v,
    {
        let w = v - 1;
        if w != e1 && w != e2 && c[w] >= n {
            proof {
                assert(top_rank(gc@, n as nat, v as int, e1 as int, e2 as int) == w);
            }
            return w;
        }
        v = w;
    }
    0
}

/// Whether a straight slot is filled, mirroring `slot_filled`.
fn slot_filled_exec(c: &Vec<usize>, gc: Ghost<Seq<nat>>, v: usize) -> (r: bool)
    requires
        c@.len() == 15,
        gc@.len() == 15,
        forall|w: int| 0 <= w < 15 ==> c@[w] == gc@[w],
        1 <= v <= 14,
    ensures
        r == slot_filled(gc@, v as int),
{
    if v == 1 {
        c[14] > 0
    } else {
        c[v] > 0
    }
}

/// Scans downward for the highest straight top, mirroring
/// `straight_high`.
fn straight_high_exec(c: &Vec<usize>, gc: Ghost<Seq<nat>>) -> (r: usize)
    requires
        c@.len() == 15,
        gc@.len() == 15,
        forall|w: int| 0 <= w < 15 ==> c@[w] == gc@[w],
    ensures
        r == straight_high(gc@, 15),
        r <= 14,
{
    let mut v: usize = 15;
    while v > 5
        invariant
            v <= 15,
            c@.len() == 15,
            gc@.len() == 15,
            forall|w: int| 0 <= w < 15 ==> c@[w] == gc@[w],
            straight_high(gc@, 15) == straight_high(gc@, v as int),
        decreases v,
    {
        let h = v - 1;
        let hit = slot_filled_exec(c, gc, h) && slot_filled_exec(c, gc, h - 1)
            && slot_filled_exec(c, gc, h - 2) && slot_filled_exec(c, gc, h - 3)
            && slot_filled_exec(c, gc, h - 4);
        if hit {
            proof {
                assert(straight_at(gc@, h as int));
                assert(straight_high(gc@, v as int) == h);
            }
            return h;
        }
        proof {
            assert(!straight_at(gc@, h as int));
        }
        v = h;
    }
    0
}

/// Evaluates a hand of five to seven cards to its strength. The result
/// is a pure function of the cards: the same cards always yield the
/// same strength and the same justifying ranks.
pub fn evaluate_cards(cards: &Vec<Card>) -> (r: HandValues)
    requires
        5 <= cards@.len() <= 7,
    ensures
        r == spec_evaluate(cards@),
{
    let ghost s = cards@;
    let rc = tally_ranks(cards);
    let ghost grc = spec_rank_counts(s);
    proof {
        assert(forall|v: int| 0 <= v < 15 ==> rc@[v] == grc[v]);
    }
    let st = tally_suits(cards);
    let fs: Option<Suit> = if st[0] >= 5 {
        Some(Suit::Diamond)
    } else if st[1] >= 5 {
        Some(Suit::Heart)
    } else if st[2] >= 5 {
        Some(Suit::Club)
    } else if st[3] >= 5 {
        Some(Suit::Spade)
    } else {
        None
    };
    proof {
        assert(st@[crate::cards::suit_index(Suit::Diamond)] == count_suit(s, Suit::Diamond));
        assert(st@[crate::cards::suit_index(Suit::Heart)] == count_suit(s, Suit::Heart));
        assert(st@[crate::cards::suit_index(Suit::Club)] == count_suit(s, Suit::Club));
        assert(st@[crate::cards::suit_index(Suit::Spade)] == count_suit(s, Suit::Spade));
        assert(fs == flush_suit(s));
    }
    let sfh: usize = match fs {
        Some(su) => {
            let scr = tally_suit_ranks(cards, su);
            proof {
                assert(forall|v: int|
                    0 <= v < 15 ==> scr@[v] == spec_suit_rank_counts(s, su)[v]);
            }
            straight_high_exec(&scr, Ghost(spec_suit_rank_counts(s, su)))
        },
        None => 0,
    };
    if sfh > 0 {
        return HandValues::StraightFlush(sfh as u8);
    }
    let quad = top_rank_exec(&rc, Ghost(grc), 4, 15, 0, 0);
    if quad > 0 {
        let k = top_rank_exec(&rc, Ghost(grc), 1, 15, quad, 0);
        return HandValues::FourOfAKind(quad as u8, k as u8);
    }
    let trip = top_rank_exec(&rc, Ghost(grc), 3, 15, 0, 0);
    let fh_pair = if trip > 0 {
        top_rank_exec(&rc, Ghost(grc), 2, 15, trip, 0)
    } else {
        0
    };
    if trip > 0 && fh_pair > 0 {
        return HandValues::FullHouse(trip as u8, fh_pair as u8);
    }
    match fs {
        Some(su) => {
            let scr = tally_suit_ranks(cards, su);
            let ghost gsc = spec_suit_rank_counts(s, su);
            proof {
                assert(forall|v: int| 0 <= v < 15 ==> scr@[v] == gsc[v]);
            }
            let f1 = top_rank_exec(&scr, Ghost(gsc), 1, 15, 0, 0);
            let f2 = top_rank_exec(&scr, Ghost(gsc), 1, f1, 0, 0);
            let f3 = top_rank_exec(&scr, Ghost(gsc), 1, f2, 0, 0);
            let f4 = top_rank_exec(&scr, Ghost(gsc), 1, f3, 0, 0);
            let f5 = top_rank_exec(&scr, Ghost(gsc), 1, f4, 0, 0);
            HandValues::Flush(f1 as u8, f2 as u8, f3 as u8, f4 as u8, f5 as u8)
        },
        None => {
            let sh = straight_high_exec(&rc, Ghost(grc));
            if sh > 0 {
                return HandValues::Straight(sh as u8);
            }
            if trip > 0 {
                let k1 = top_rank_exec(&rc, Ghost(grc), 1, 15, trip, 0);
                let k2 = top_rank_exec(&rc, Ghost(grc), 1, k1, trip, 0);
                return HandValues::ThreeOfAKind(trip as u8, k1 as u8, k2 as u8);
            }
            let p1 = top_rank_exec(&rc, Ghost(grc), 2, 15, 0, 0);
            if p1 > 0 {
                let p2 = top_rank_exec(&rc, Ghost(grc), 2, p1, 0, 0);
                if p2 > 0 {
                    let k = top_rank_exec(&rc, Ghost(grc), 1, 15, p1, p2);
                    return HandValues::TwoPairs(p1 as u8, p2 as u8, k as u8);
                }
                let k1 = top_rank_exec(&rc, Ghost(grc), 1, 15, p1, 0);
                let k2 = top_rank_exec(&rc, Ghost(grc), 1, k1, p1, 0);
                let k3 = top_rank_exec(&rc, Ghost(grc), 1, k2, p1, 0);
                return HandValues::Pair(p1 as u8, k1 as u8, k2 as u8, k3 as u8);
            }
            let h1 = top_rank_exec(&rc, Ghost(grc), 1, 15, 0, 0);
            let h2 = top_rank_exec(&rc, Ghost(grc), 1, h1, 0, 0);
            let h3 = top_rank_exec(&rc, Ghost(grc), 1, h2, 0, 0);
            let h4 = top_rank_exec(&rc, Ghost(grc), 1, h3, 0, 0);
            let h5 = top_rank_exec(&rc, Ghost(grc), 1, h4, 0, 0);
            HandValues::HighCard(h1 as u8, h2 as u8, h3 as u8, h4 as u8, h5 as u8)
        },
    }
}

/// Evaluates two hole cards together with the community cards.
pub fn evaluate(hole: &HoleCards, community: &Vec<Card>) -> (r: HandValues)
    requires
        3 <= community@.len() <= 5,
    ensures
        r == spec_evaluate(seq![hole.0, hole.1] + community@),
{
    let mut cards: Vec<Card> = Vec::new();
    cards.push(hole.0);
    cards.push(hole.1);
    let mut i: usize = 0;
    while i < community.len()
        invariant
            i <= community@.len(),
            cards@ == seq![hole.0, hole.1] + community@.take(i as int),
        decreases community@.len() - i,
    {
        cards.push(community[i]);
        proof {
            assert(seq![hole.0, hole.1] + community@.take(i as int) + seq![community@[i as int]]
                =~= seq![hole.0, hole.1] + community@.take(i + 1));
        }
        i = i + 1;
    }
    proof {
        assert(community@.take(community@.len() as int) =~= community@);
    }
    evaluate_cards(&cards)
}

/// The rank of a strength category: high card 0 up to straight flush 8.
pub open spec fn category(h: HandValues) -> int {
    match h {
        HandValues::HighCard(..) => 0,
        HandValues::Pair(..) => 1,
        HandValues::TwoPairs(..) => 2,
        HandValues::ThreeOfAKind(..) => 3,
        HandValues::Straight(..) => 4,
        HandValues::Flush(..) => 5,
        HandValues::FullHouse(..) => 6,
        HandValues::FourOfAKind(..) => 7,
        HandValues::StraightFlush(..) => 8,
    }
}

/// The carried tie-break ranks of a strength, padded with zeros to five
/// entries, highest-priority first.
pub open spec fn tiebreaks(h: HandValues) -> (int, int, int, int, int) {
    match h {
        HandValues::HighCard(a, b, c, d, e) => (a as int, b as int, c as int, d as int, e as int),
        HandValues::Pair(p, a, b, c) => (p as int, a as int, b as int, c as int, 0),
        HandValues::TwoPairs(p, q, k) => (p as int, q as int, k as int, 0, 0),
        HandValues::ThreeOfAKind(t, a, b) => (t as int, a as int, b as int, 0, 0),
        HandValues::Straight(top) => (top as int, 0, 0, 0, 0),
        HandValues::Flush(a, b, c, d, e) => (a as int, b as int, c as int, d as int, e as int),
        HandValues::FullHouse(t, p) => (t as int, p as int, 0, 0, 0),
        HandValues::FourOfAKind(q, k) => (q as int, k as int, 0, 0, 0),
        HandValues::StraightFlush(top) => (top as int, 0, 0, 0, 0),
    }
}

/// Lexicographic strict order on five-entry tie-break tuples.
pub open spec fn lex_gt(a: (int, int, int, int, int), b: (int, int, int, int, int)) -> bool {
    if a.0 != b.0 {
        a.0 > b.0
    } else if a.1 != b.1 {
        a.1 > b.1
    } else if a.2 != b.2 {
        a.2 > b.2
    } else if a.3 != b.3 {
        a.3 > b.3
    } else {
        a.4 > b.4
    }
}

/// The total strict order on hand strengths: a higher category always
/// wins; within a category the tie-break ranks decide, lexicographically,
/// descending.
pub open spec fn spec_beats(a: HandValues, b: HandValues) -> bool {
    category(a) > category(b) || (category(a) == category(b) && lex_gt(tiebreaks(a), tiebreaks(b)))
}

fn hand_parts(h: &HandValues) -> (r: (u8, u8, u8, u8, u8, u8))
    ensures
        r.0 == category(*h),
        (r.1 as int, r.2 as int, r.3 as int, r.4 as int, r.5 as int) == tiebreaks(*h),
{
    match *h {
        HandValues::HighCard(a, b, c, d, e) => (0, a, b, c, d, e),
        HandValues::Pair(p, a, b, c) => (1, p, a, b, c, 0),
        HandValues::TwoPairs(p, q, k) => (2, p, q, k, 0, 0),
        HandValues::ThreeOfAKind(t, a, b) => (3, t, a, b, 0, 0),
        HandValues::Straight(top) => (4, top, 0, 0, 0, 0),
        HandValues::Flush(a, b, c, d, e) => (5, a, b, c, d, e),
        HandValues::FullHouse(t, p) => (6, t, p, 0, 0, 0),
        HandValues::FourOfAKind(q, k) => (7, q, k, 0, 0, 0),
        HandValues::StraightFlush(top) => (8, top, 0, 0, 0, 0),
    }
}

/// Decides whether strength `a` beats strength `b`.
pub fn beats(a: &HandValues, b: &HandValues) -> (r: bool)
    ensures
        r == spec_beats(*a, *b),
{
    let pa = hand_parts(a);
    let pb = hand_parts(b);
    if pa.0 != pb.0 {
        pa.0 > pb.0
    } else if pa.1 != pb.1 {
        pa.1 > pb.1
    } else if pa.2 != pb.2 {
        pa.2 > pb.2
    } else if pa.3 != pb.3 {
        pa.3 > pb.3
    } else if pa.4 != pb.4 {
        pa.4 > pb.4
    } else {
        pa.5 > pb.5
    }
}

/// Evaluation is deterministic: strength is a function of the cards
/// alone, so two evaluations of the same cards agree.
pub proof fn lemma_evaluate_deterministic(s: Seq<Card>, r1: HandValues, r2: HandValues)
    requires
        r1 == spec_evaluate(s),
        r2 == spec_evaluate(s),
    ensures
        r1 == r2,
{
}

/// A strength of a higher category beats every strength of a lower
/// category, whatever ranks either carries: a straight flush beats any
/// four of a kind, which beats any full house, and so on down to high
/// card.
pub proof fn lemma_higher_category_beats(a: HandValues, b: HandValues)
    requires
        category(a) > category(b),
    ensures
        spec_beats(a, b),
{
}

/// The strength order is transitive.
pub proof fn lemma_beats_transitive(a: HandValues, b: HandValues, c: HandValues)
    requires
        spec_beats(a, b),
        spec_beats(b, c),
    ensures
        spec_beats(a, c),
{
}

/// No strength beats itself.
pub proof fn lemma_beats_irreflexive(a: HandValues)
    ensures
        !spec_beats(a, a),
{
}

/// The strength order is total: of two strengths, either one beats the
/// other or they are the very same strength.
pub proof fn lemma_beats_total(a: HandValues, b: HandValues)
    ensures
        spec_beats(a, b) || spec_beats(b, a) || a == b,
{
    if !spec_beats(a, b) && !spec_beats(b, a) {
        assert(category(a) == category(b));
        assert(tiebreaks(a) == tiebreaks(b));
    }
}

} // verus!
