//! Decision core of a four-player trick-taking card game: a bijective index
//! for the 120 play orders of a five-card hand, a deterministic trick and
//! round rules engine, an outcome store over all combinations of play orders,
//! a brute-force population engine for it, and a decision engine that picks
//! the card with the best win rate over the stored outcomes.

use core::ops::Range;
use rand::seq::SliceRandom;
use std::collections::HashMap;
use vstd::prelude::*;

pub mod database;
pub mod game;
pub mod perm;
pub mod player;

verus! {

broadcast use vstd::std_specs::hash::group_hash_axioms;

pub use crate::perm::{all_hand_orders, factorial, perm_from_index, perm_index, perm_prefix_range};

/// The four suits of the pack.
#[derive(Debug, Clone, Copy, PartialEq, Eq, Hash, Structural)]
pub enum Suit {
    Hearts,
    Bells,
    Leaves,
    Acorns,
}

/// The nine ranks of the pack. `Weli` is the single special card, the 6 of Bells.
#[derive(Debug, Clone, Copy, PartialEq, Eq, Hash, Structural)]
pub enum Rank {
    Seven,
    Eight,
    Nine,
    Ten,
    Unter,
    Ober,
    King,
    Ace,
    Weli,
}

/// A playing card: a suit paired with a rank. Equality is by value.
#[derive(Debug, Clone, Copy, PartialEq, Eq, Hash, Structural)]
pub struct Card {
    pub suit: Suit,
    pub rank: Rank,
}

impl Card {
    pub fn new(suit: Suit, rank: Rank) -> (c: Self)
        ensures
            c == (Card { suit, rank }),
    {
        Self { suit, rank }
    }
}

/// The suit dealt at slot `i` of the deck layout, for `0 <= i < 4`.
pub open spec fn suit_at(i: int) -> Suit {
    if i == 0 {
        Suit::Hearts
    } else if i == 1 {
        Suit::Bells
    } else if i == 2 {
        Suit::Leaves
    } else {
        Suit::Acorns
    }
}

/// The rank dealt at slot `i` of one suit's run, for `0 <= i < 8` (the Weli stands apart).
pub open spec fn rank_at(i: int) -> Rank {
    if i == 0 {
        Rank::Seven
    } else if i == 1 {
        Rank::Eight
    } else if i == 2 {
        Rank::Nine
    } else if i == 3 {
        Rank::Ten
    } else if i == 4 {
        Rank::Unter
    } else if i == 5 {
        Rank::Ober
    } else if i == 6 {
        Rank::King
    } else {
        Rank::Ace
    }
}

/// The card at position `k` of the full, unshuffled deck of 33 cards.
pub open spec fn deck_card(k: int) -> Card {
    if k == 32 {
        Card { suit: Suit::Bells, rank: Rank::Weli }
    } else {
        Card { suit: suit_at(k / 8), rank: rank_at(k % 8) }
    }
}

fn suit_of(i: usize) -> (s: Suit)
    requires
        i < 4,
    ensures
        s == suit_at(i as int),
{
    if i == 0 {
        Suit::Hearts
    } else if i == 1 {
        Suit::Bells
    } else if i == 2 {
        Suit::Leaves
    } else {
        Suit::Acorns
    }
}

fn rank_of(i: usize) -> (r: Rank)
    requires
        i < 8,
    ensures
        r == rank_at(i as int),
{
    if i == 0 {
        Rank::Seven
    } else if i == 1 {
        Rank::Eight
    } else if i == 2 {
        Rank::Nine
    } else if i == 3 {
        Rank::Ten
    } else if i == 4 {
        Rank::Unter
    } else if i == 5 {
        Rank::Ober
    } else if i == 6 {
        Rank::King
    } else {
        Rank::Ace
    }
}

/// No two positions of the unshuffled deck hold the same card.
pub proof fn lemma_deck_cards_distinct()
    ensures
        forall|i: int, j: int| 0 <= i < j < 33 ==> deck_card(i) != deck_card(j),
{
    assert forall|i: int, j: int| 0 <= i < j < 33 implies deck_card(i) != deck_card(j) by {
        if j == 32 {
            assert(deck_card(i).rank != Rank::Weli);
        } else {
            if i / 8 == j / 8 {
                assert(i % 8 != j % 8);
                assert(rank_at(i % 8) != rank_at(j % 8));
            } else {
                assert(suit_at(i / 8) != suit_at(j / 8));
            }
        }
    }
}

/// Return a deck containing all 33 cards.
pub fn deck() -> (d: Vec<Card>)
    ensures
        d@.len() == 33,
        forall|k: int| 0 <= k < 33 ==> d@[k] == deck_card(k),
{
    let mut cards: Vec<Card> = Vec::new();
    for i in 0..4
        invariant
            cards@.len() == 8 * (i as int),
            forall|k: int| 0 <= k < cards@.len() ==> cards@[k] == deck_card(k),
    {
        for j in 0..8
            invariant
                i < 4,
                cards@.len() == 8 * (i as int) + j,
                forall|k: int| 0 <= k < cards@.len() ==> cards@[k] == deck_card(k),
        {
            let c = Card::new(suit_of(i), rank_of(j));
            assert((8 * (i as int) + j) / 8 == i as int && (8 * (i as int) + j) % 8 == j as int) by (nonlinear_arith)
                requires
                    i < 4 && j < 8,
            ;
            cards.push(c);
        }
    }
    cards.push(Card::new(Suit::Bells, Rank::Weli));
    cards
}

/// Shuffle a deck of cards in place.
///
/// Relies on rand's `SliceRandom::shuffle`: a Fisher-Yates shuffle that only
/// swaps elements within the slice, so the cards are rearranged and none is
/// added, dropped or changed.
#[verifier::external_body]
pub fn shuffle(deck: &mut Vec<Card>)
    ensures
        final(deck)@.to_multiset() == old(deck)@.to_multiset(),
        final(deck)@.len() == old(deck)@.len(),
{
    deck.shuffle(&mut rand::thread_rng());
}

/// Number of ways a hand of five cards can be ordered (5!).
pub const HAND_PERMUTATIONS: usize = 120;

/// The outcome recorded for one fully simulated round.
/// `RuleViolation` is reserved: the rules as written never produce it.
#[derive(Debug, Clone, Copy, PartialEq, Eq, Structural)]
pub enum GameResult {
    NotPlayed,
    Team1Win,
    Team2Win,
    RuleViolation,
}

/// The position of each outcome kind in a table of counts.
pub open spec fn slot_of(r: GameResult) -> int {
    match r {
        GameResult::NotPlayed => 0,
        GameResult::Team1Win => 1,
        GameResult::Team2Win => 2,
        GameResult::RuleViolation => 3,
    }
}

/// Table position of an outcome kind, for indexing count tables.
pub fn result_slot(r: GameResult) -> (s: usize)
    ensures
        s == slot_of(r),
{
    match r {
        GameResult::NotPlayed => 0,
        GameResult::Team1Win => 1,
        GameResult::Team2Win => 2,
        GameResult::RuleViolation => 3,
    }
}

/// Store of evaluated round outcomes keyed by four permutation indices.
pub struct GameDatabase {
    results: HashMap<u32, GameResult>,
}

impl GameDatabase {
    /// The recorded outcomes, keyed by packed index key.
    pub closed spec fn stored(&self) -> Map<u32, GameResult> {
        self.results@
    }

    pub fn new() -> (db: Self)
        ensures
            db.stored() == Map::<u32, GameResult>::empty(),
    {
        Self { results: HashMap::new() }
    }

    /// Pack four permutation indices into one store key.
    pub fn make_index(p1: usize, p2: usize, p3: usize, p4: usize) -> (k: u32)
        requires
            p1 < 120 && p2 < 120 && p3 < 120 && p4 < 120,
        ensures
            k == crate::database::combo_key(p1, p2, p3, p4) as u32,
    {
        crate::database::pack_key(p1, p2, p3, p4)
    }

    /// Record the outcome for one combination of permutation indices.
    pub fn set(&mut self, p1: usize, p2: usize, p3: usize, p4: usize, result: GameResult)
        requires
            p1 < 120 && p2 < 120 && p3 < 120 && p4 < 120,
        ensures
            final(self).stored() == old(self).stored().insert(
                crate::database::combo_key(p1, p2, p3, p4) as u32,
                result,
            ),
    {
        let idx = Self::make_index(p1, p2, p3, p4);
        self.results.insert(idx, result);
    }

    /// Read the outcome recorded for one combination; `NotPlayed` if none.
    pub fn get(&self, p1: usize, p2: usize, p3: usize, p4: usize) -> (r: GameResult)
        requires
            p1 < 120 && p2 < 120 && p3 < 120 && p4 < 120,
        ensures
            r == crate::database::entry_for(self.stored(), p1, p2, p3, p4),
    {
        let idx = Self::make_index(p1, p2, p3, p4);
        match self.results.get(&idx) {
            Some(r) => *r,
            None => GameResult::NotPlayed,
        }
    }

    /// Count the recorded outcomes of every kind over all index combinations
    /// within the provided ranges.
    pub fn counts_in_ranges(
        &self,
        p1: Range<usize>,
        p2: Range<usize>,
        p3: Range<usize>,
        p4: Range<usize>,
    ) -> (counts: [u32; 4])
        requires
            p1.end <= 120 && p2.end <= 120 && p3.end <= 120 && p4.end <= 120,
        ensures
            forall|r: GameResult| #[trigger]
                counts@[slot_of(r)] == crate::database::count4(
                    self.stored(),
                    crate::database::range_seq(p1.start, p1.end),
                    crate::database::range_seq(p2.start, p2.end),
                    crate::database::range_seq(p3.start, p3.end),
                    crate::database::range_seq(p4.start, p4.end),
                    r,
                ),
    {
        let l1 = crate::database::range_to_vec(p1.start, p1.end);
        let l2 = crate::database::range_to_vec(p2.start, p2.end);
        let l3 = crate::database::range_to_vec(p3.start, p3.end);
        let l4 = crate::database::range_to_vec(p4.start, p4.end);
        crate::database::count_in_lists_map(
            &self.results,
            l1.as_slice(),
            l2.as_slice(),
            l3.as_slice(),
            l4.as_slice(),
        )
    }
}

} // verus!
