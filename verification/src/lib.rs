//! A single hand of Texas-Hold'em-style poker: cards and decks, hole-card
//! dealing, betting rounds with turn order and closure detection, street
//! progression, and showdown hand evaluation.

pub mod cards;
pub mod evaluator;
pub mod hand;

use vstd::prelude::*;

verus! {

} // verus!
