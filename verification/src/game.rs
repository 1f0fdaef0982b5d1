//! The rules engine and the round state machine: card strength, trick
//! resolution, whole-round simulation, brute-force population of the outcome
//! store, and the decision engine that picks a card by win rate.

use vstd::prelude::*;

use crate::database::{GameDatabase, InMemoryGameDatabase};
use crate::player::Player;
use crate::{Card, GameResult, Rank, Suit};

verus! {

use vstd::arithmetic::div_mod::{
    lemma_div_denominator, lemma_div_pos_is_pos, lemma_fundamental_div_mod,
    lemma_fundamental_div_mod_converse, lemma_mod_bound, lemma_small_mod,
};

/// A team wins the game when its cumulative score reaches this many points.
pub const WINNING_POINTS: usize = 13;

/// The point value of a round before any raise.
pub const ROUND_POINTS: usize = 2;

/// Tricks per round: one per card of a dealt hand.
pub const TRICKS_PER_ROUND: usize = 5;

/// The rank ladder used inside one strength tier.
pub open spec fn rank_val(r: Rank) -> int {
    match r {
        Rank::Seven => 1,
        Rank::Eight => 2,
        Rank::Nine => 3,
        Rank::Ten => 4,
        Rank::Unter => 5,
        Rank::Ober => 6,
        Rank::King => 7,
        Rank::Ace => 8,
        Rank::Weli => 9,
    }
}

/// Numeric value of a rank within its strength tier.
pub fn rank_value(r: Rank) -> (v: u8)
    ensures
        v as int == rank_val(r),
{
    match r {
        Rank::Seven => 1,
        Rank::Eight => 2,
        Rank::Nine => 3,
        Rank::Ten => 4,
        Rank::Unter => 5,
        Rank::Ober => 6,
        Rank::King => 7,
        Rank::Ace => 8,
        Rank::Weli => 9,
    }
}

/// The tier value of a card within one trick: the rechte itself on top, then
/// the Weli, then other striker-rank cards, then trump, then the lead suit,
/// then the rest; ranks order cards within a tier.
pub open spec fn strength_base(card: Card, lead: Suit, rechte: Card) -> int {
    if card == rechte {
        200
    } else if card.rank == Rank::Weli {
        180
    } else if card.rank == rechte.rank {
        190
    } else if card.suit == rechte.suit {
        100 + rank_val(card.rank)
    } else if card.suit == lead {
        50 + rank_val(card.rank)
    } else {
        rank_val(card.rank)
    }
}

/// The full strength of a card played at position `pos` of a trick: the tier
/// value scaled so that subtracting the position breaks exact ties in favour
/// of the earlier play without ever crossing tiers.
pub open spec fn strength_spec(card: Card, lead: Suit, rechte: Card, pos: int) -> int {
    strength_base(card, lead, rechte) * 10 - pos
}

/// Rank a card within one trick, given the suit that led the trick, the
/// rechte, and the position at which the card was played.
pub fn card_strength(card: &Card, lead: Suit, rechte: Card, position: usize) -> (s: i16)
    requires
        position < 4,
    ensures
        s as int == strength_spec(*card, lead, rechte, position as int),
{
    let base: i16 = if *card == rechte {
        200
    } else if card.rank == Rank::Weli {
        180
    } else if card.rank == rechte.rank {
        190
    } else if card.suit == rechte.suit {
        100 + rank_value(card.rank) as i16
    } else if card.suit == lead {
        50 + rank_value(card.rank) as i16
    } else {
        rank_value(card.rank) as i16
    };
    base * 10 - position as i16
}

/// The rechte beats a striker-rank card of another suit, wherever in the
/// trick each is played.
pub proof fn lemma_rechte_beats_striker(striker: Card, rechte: Card, lead: Suit, p1: int, p2: int)
    requires
        striker.rank == rechte.rank,
        striker != rechte,
        0 <= p1 < 4,
        0 <= p2 < 4,
    ensures
        strength_spec(rechte, lead, rechte, p1) > strength_spec(striker, lead, rechte, p2),
{
}

/// A striker-rank card beats any trump-suit card that is not of striker rank,
/// wherever in the trick each is played.
pub proof fn lemma_striker_beats_trump(striker: Card, trump: Card, rechte: Card, lead: Suit, p1: int, p2: int)
    requires
        striker.rank == rechte.rank,
        striker != rechte,
        trump.suit == rechte.suit,
        trump.rank != rechte.rank,
        0 <= p1 < 4,
        0 <= p2 < 4,
    ensures
        strength_spec(striker, lead, rechte, p1) > strength_spec(trump, lead, rechte, p2),
{
}

/// Of two striker-rank cards, neither the rechte, the one played first wins
/// the tie.
pub proof fn lemma_first_striker_wins(s1: Card, s2: Card, rechte: Card, lead: Suit, p1: int, p2: int)
    requires
        s1.rank == rechte.rank,
        s2.rank == rechte.rank,
        s1 != rechte,
        s2 != rechte,
        0 <= p1 < p2 < 4,
    ensures
        strength_spec(s1, lead, rechte, p1) > strength_spec(s2, lead, rechte, p2),
{
}

/// The strength of the play at position `k` of one trick; the first play's
/// suit is the lead suit.
pub open spec fn play_strength(plays: Seq<(usize, Card)>, rechte: Card, k: int) -> int {
    strength_spec(plays[k].1, plays[0].1.suit, rechte, k)
}

/// Position of the winning play among the first `n` plays of a trick: the
/// earliest play of maximal strength.
pub open spec fn best_play_up_to(plays: Seq<(usize, Card)>, rechte: Card, n: int) -> int
    decreases n,
{
    if n <= 1 {
        0
    } else {
        let b = best_play_up_to(plays, rechte, n - 1);
        if play_strength(plays, rechte, n - 1) > play_strength(plays, rechte, b) {
            n - 1
        } else {
            b
        }
    }
}

/// The seat that wins a completed trick.
pub open spec fn trick_winner(plays: Seq<(usize, Card)>, rechte: Card) -> usize {
    plays[best_play_up_to(plays, rechte, plays.len() as int)].0
}

proof fn lemma_best_play_in_range(plays: Seq<(usize, Card)>, rechte: Card, n: int)
    requires
        n >= 1,
    ensures
        0 <= best_play_up_to(plays, rechte, n) < n,
    decreases n,
{
    if n > 1 {
        lemma_best_play_in_range(plays, rechte, n - 1);
    }
}

/// The card that seat `s` plays in trick `t` under fixed play orders: the
/// hand slot named by position `t` of that seat's order.
pub open spec fn sim_card(hands: Seq<Seq<Card>>, orders: Seq<Seq<usize>>, s: int, t: int) -> Card {
    hands[s][orders[s][t] as int]
}

/// The four plays of trick `t`, in seat order starting from `lead`.
pub open spec fn sim_plays(hands: Seq<Seq<Card>>, orders: Seq<Seq<usize>>, lead: int, t: int) -> Seq<
    (usize, Card),
> {
    Seq::new(
        4,
        |k: int| ((((lead + k) % 4) as usize), sim_card(hands, orders, (lead + k) % 4, t)),
    )
}

/// The seat that leads trick `t`: the seat after the dealer for the first
/// trick, afterwards the winner of the previous trick.
pub open spec fn sim_lead(
    hands: Seq<Seq<Card>>,
    orders: Seq<Seq<usize>>,
    dealer: int,
    rechte: Card,
    t: int,
) -> int
    decreases t,
{
    if t <= 0 {
        (dealer + 1) % 4
    } else {
        trick_winner(
            sim_plays(hands, orders, sim_lead(hands, orders, dealer, rechte, t - 1), t - 1),
            rechte,
        ) as int
    }
}

/// How many of the first `t` tricks the given team (0 or 1) wins.
pub open spec fn sim_team_tricks(
    hands: Seq<Seq<Card>>,
    orders: Seq<Seq<usize>>,
    dealer: int,
    rechte: Card,
    t: int,
    team: int,
) -> int
    decreases t,
{
    if t <= 0 {
        0
    } else {
        sim_team_tricks(hands, orders, dealer, rechte, t - 1, team) + if trick_winner(
            sim_plays(hands, orders, sim_lead(hands, orders, dealer, rechte, t - 1), t - 1),
            rechte,
        ) % 2 == team {
            1int
        } else {
            0int
        }
    }
}

/// The outcome of playing out the whole round under fixed play orders: the
/// team that takes more of the five tricks wins.
pub open spec fn sim_outcome(
    hands: Seq<Seq<Card>>,
    orders: Seq<Seq<usize>>,
    dealer: int,
    rechte: Card,
) -> GameResult {
    if sim_team_tricks(hands, orders, dealer, rechte, 5, 0) > sim_team_tricks(
        hands,
        orders,
        dealer,
        rechte,
        5,
        1,
    ) {
        GameResult::Team1Win
    } else {
        GameResult::Team2Win
    }
}

/// The four rows of a block of dealt hands, as sequences.
pub open spec fn hand_rows(hands: [[Card; 5]; 4]) -> Seq<Seq<Card>> {
    seq![hands@[0]@, hands@[1]@, hands@[2]@, hands@[3]@]
}

/// The four rows of a block of play orders, as sequences.
pub open spec fn order_rows(orders: [[usize; 5]; 4]) -> Seq<Seq<usize>> {
    seq![orders@[0]@, orders@[1]@, orders@[2]@, orders@[3]@]
}

/// Play out one full round with a fixed play order per player and report
/// which team takes the majority of tricks.
pub fn simulate_game(
    hands: &[[Card; 5]; 4],
    orders: [[usize; 5]; 4],
    dealer: usize,
    rechte: Card,
) -> (res: GameResult)
    requires
        dealer < 4,
        forall|s: int, k: int| 0 <= s < 4 && 0 <= k < 5 ==> orders@[s]@[k] < 5,
    ensures
        res == sim_outcome(hand_rows(*hands), order_rows(orders), dealer as int, rechte),
{
    let ghost hv = hand_rows(*hands);
    let ghost ov = order_rows(orders);
    proof {
        assert(forall|s: int| 0 <= s < 4 ==> hv[s] == hands@[s]@ && ov[s] == orders@[s]@);
    }
    let mut lead: usize = (dealer + 1) % 4;
    let mut t0: usize = 0;
    let mut t1: usize = 0;
    for t in 0..5
        invariant
            lead < 4,
            dealer < 4,
            forall|s: int, k: int| 0 <= s < 4 && 0 <= k < 5 ==> orders@[s]@[k] < 5,
            hv == hand_rows(*hands),
            ov == order_rows(orders),
            forall|s: int| 0 <= s < 4 ==> hv[s] == hands@[s]@ && ov[s] == orders@[s]@,
            lead == sim_lead(hv, ov, dealer as int, rechte, t as int),
            t0 == sim_team_tricks(hv, ov, dealer as int, rechte, t as int, 0),
            t1 == sim_team_tricks(hv, ov, dealer as int, rechte, t as int, 1),
            t0 + t1 == t,
    {
        let mut played: Vec<(usize, Card)> = Vec::new();
        for off in 0..4
            invariant
                lead < 4,
                forall|s: int, k: int| 0 <= s < 4 && 0 <= k < 5 ==> orders@[s]@[k] < 5,
                forall|s: int| 0 <= s < 4 ==> hv[s] == hands@[s]@ && ov[s] == orders@[s]@,
                t < 5,
                played@.len() == off,
                forall|k: int|
                    0 <= k < off ==> played@[k] == sim_plays(hv, ov, lead as int, t as int)[k],
        {
            let s = (lead + off) % 4;
            let card = hands[s][orders[s][t]];
            proof {
                assert(card == sim_card(hv, ov, s as int, t as int));
            }
            played.push((s, card));
        }
        proof {
            assert(played@ =~= sim_plays(hv, ov, lead as int, t as int));
        }
        let lead_suit = played[0].1.suit;
        let mut best: usize = 0;
        let mut best_score = card_strength(&played[0].1, lead_suit, rechte, 0);
        for p in 1..4
            invariant
                played@ == sim_plays(hv, ov, lead as int, t as int),
                played@.len() == 4,
                lead_suit == played@[0].1.suit,
                1 <= p,
                best < p,
                best as int == best_play_up_to(played@, rechte, p as int),
                best_score as int == play_strength(played@, rechte, best as int),
        {
            let val = card_strength(&played[p].1, lead_suit, rechte, p);
            if val > best_score {
                best = p;
                best_score = val;
            }
        }
        let winner = played[best].0;
        proof {
            lemma_best_play_in_range(played@, rechte, 4);
            assert(winner == trick_winner(played@, rechte));
            assert(winner < 4);
        }
        if winner % 2 == 0 {
            t0 = t0 + 1;
        } else {
            t1 = t1 + 1;
        }
        lead = winner;
    }
    if t0 > t1 {
        GameResult::Team1Win
    } else {
        GameResult::Team2Win
    }
}

/// Play a round using specific play-order indices for each player, resolved
/// against a table of play orders.
pub fn play_hand(
    hands: &[[Card; 5]; 4],
    hand_ids: [usize; 4],
    dealer: usize,
    rechte: Card,
    perms: &[[usize; 5]],
) -> (res: GameResult)
    requires
        dealer < 4,
        forall|k: int| 0 <= k < 4 ==> hand_ids@[k] < perms@.len(),
        forall|j: int, k: int| 0 <= j < perms@.len() && 0 <= k < 5 ==> perms@[j]@[k] < 5,
    ensures
        res == sim_outcome(
            hand_rows(*hands),
            seq![
                perms@[hand_ids@[0] as int]@,
                perms@[hand_ids@[1] as int]@,
                perms@[hand_ids@[2] as int]@,
                perms@[hand_ids@[3] as int]@,
            ],
            dealer as int,
            rechte,
        ),
{
    let orders = [perms[hand_ids[0]], perms[hand_ids[1]], perms[hand_ids[2]], perms[hand_ids[3]]];
    proof {
        assert(order_rows(orders) =~= seq![
            perms@[hand_ids@[0] as int]@,
            perms@[hand_ids@[1] as int]@,
            perms@[hand_ids@[2] as int]@,
            perms@[hand_ids@[3] as int]@,
        ]);
    }
    simulate_game(hands, orders, dealer, rechte)
}

/// One step of a round, recorded for replay: who played, the hand they held,
/// the positions they were allowed to play, and the card they chose.
#[derive(Clone)]
pub struct RoundStep {
    pub player: usize,
    pub hand: Vec<Card>,
    pub allowed: Vec<usize>,
    pub played: Card,
}

/// The hand positions `0, 1, ..., n - 1`.
pub open spec fn identity_idxs(n: nat) -> Seq<usize> {
    Seq::new(n, |i: int| i as usize)
}

/// The hand positions holding a trump-suit or striker-rank card.
pub open spec fn matching_idxs(hand: Seq<Card>, rechte: Card) -> Seq<usize> {
    identity_idxs(hand.len()).filter(
        |i: usize| hand[i as int].suit == rechte.suit || hand[i as int].rank == rechte.rank,
    )
}

/// Whether the seat is a seeing player: the dealer or the seat after the
/// dealer, the two who observed the rechte during the deal.
pub open spec fn is_seeing(dealer: int, idx: int) -> bool {
    idx == dealer || idx == (dealer + 1) % 4
}

/// The hand positions a player may play: all of them, unless the trick was
/// led with trump, the player is a seeing player, and the hand holds a trump
/// or striker card, in which case exactly those positions.
pub open spec fn allowed_idxs_spec(
    hand: Seq<Card>,
    rechte_opt: Option<Card>,
    seeing: bool,
    lead: Card,
) -> Seq<usize> {
    match rechte_opt {
        Some(rechte) => if lead.suit == rechte.suit && seeing && matching_idxs(hand, rechte).len()
            > 0 {
            matching_idxs(hand, rechte)
        } else {
            identity_idxs(hand.len())
        },
        None => identity_idxs(hand.len()),
    }
}

/// Whether a row of five original cards holds the cards the seat at `p` is
/// dealt: the `k`-th packet's card at offset `j` for that seat.
pub open spec fn seat_row_ok(cards: Seq<Card>, dealer: int, p: int, row: Seq<Card>) -> bool {
    let j = (p + 4 - (dealer + 1) % 4) % 4;
    forall|k: int| 0 <= k < 5 ==> #[trigger] row[k] == cards[4 * k + j]
}

/// The original hand slot that position `j` of the live hand stands for: the
/// slot with exactly `j` unplayed slots below it.
pub open spec fn slot_for(played: Seq<usize>, j: int) -> int {
    choose|v: int|
        0 <= v < 5 && !crate::perm::marks_of(played, played.len() as int)[v]
            && #[trigger] crate::perm::count_free_below(
            crate::perm::marks_of(played, played.len() as int),
            v,
        ) == j
}

/// The live hand holds exactly the unplayed cards of the original hand, in
/// original slot order.
pub open spec fn hand_matches(orig: Seq<Card>, played: Seq<usize>, hand: Seq<Card>) -> bool {
    &&& hand.len() + played.len() == 5
    &&& forall|j: int| 0 <= j < hand.len() ==> #[trigger] hand[j] == orig[slot_for(played, j)]
}

/// The slot that a hand position stands for is an unplayed slot in range.
pub proof fn lemma_slot_for_props(played: Seq<usize>, j: int)
    requires
        crate::perm::valid_prefix(played),
        0 <= j < 5 - played.len(),
    ensures
        ({
            let m = crate::perm::marks_of(played, played.len() as int);
            let v = slot_for(played, j);
            0 <= v < 5 && !m[v] && crate::perm::count_free_below(m, v) == j
        }),
{
    let m = crate::perm::marks_of(played, played.len() as int);
    crate::perm::lemma_count_free_total(played, played.len() as int);
    crate::perm::lemma_marks_of(played, played.len() as int);
    crate::perm::lemma_nth_free_exists(m, j, 5);
}

/// Only one unplayed slot has a given number of unplayed slots below it.
pub proof fn lemma_slot_for_unique(played: Seq<usize>, j: int, v: int)
    requires
        crate::perm::valid_prefix(played),
        0 <= j < 5 - played.len(),
        0 <= v < 5,
        !crate::perm::marks_of(played, played.len() as int)[v],
        crate::perm::count_free_below(crate::perm::marks_of(played, played.len() as int), v) == j,
    ensures
        slot_for(played, j) == v,
{
    let m = crate::perm::marks_of(played, played.len() as int);
    lemma_slot_for_props(played, j);
    crate::perm::lemma_marks_of(played, played.len() as int);
    let v2 = slot_for(played, j);
    if v2 < v {
        crate::perm::lemma_count_free_strict(m, v2, v);
    } else if v < v2 {
        crate::perm::lemma_count_free_strict(m, v, v2);
    }
}

/// Committing the slot that live position `idx` stands for renumbers the
/// remaining live positions: earlier positions keep their slots, later ones
/// shift down by one.
pub proof fn lemma_slot_for_play(played: Seq<usize>, idx: int, hand_len: int)
    requires
        crate::perm::valid_prefix(played),
        played.len() + hand_len == 5,
        0 <= idx < hand_len,
    ensures
        ({
            let v = slot_for(played, idx);
            let played2 = played.push(v as usize);
            &&& crate::perm::valid_prefix(played2)
            &&& forall|j: int| 0 <= j < idx ==> slot_for(played2, j) == slot_for(played, j)
            &&& forall|j: int|
                idx <= j < hand_len - 1 ==> slot_for(played2, j) == slot_for(played, j + 1)
        }),
{
    let m = crate::perm::marks_of(played, played.len() as int);
    lemma_slot_for_props(played, idx);
    crate::perm::lemma_marks_of(played, played.len() as int);
    let v = slot_for(played, idx);
    let played2 = played.push(v as usize);
    assert(crate::perm::valid_prefix(played2)) by {
        assert(forall|k: int| 0 <= k < played.len() ==> played2[k] == played[k]);
        assert(forall|k: int| 0 <= k < played.len() ==> played[k] as int != v);
    }
    let m2 = crate::perm::marks_of(played2, played2.len() as int);
    assert(m2 == m.update(v, true)) by {
        crate::perm::lemma_lehmer_agree(played2, played, played.len() as int);
    }
    assert forall|j: int| 0 <= j < idx implies slot_for(played2, j) == slot_for(played, j) by {
        lemma_slot_for_props(played, j);
        let vj = slot_for(played, j);
        assert(vj < v) by {
            if vj == v {
            } else if v < vj {
                crate::perm::lemma_count_free_strict(m, v, vj);
            }
        }
        crate::perm::lemma_count_free_update(m, v, vj);
        lemma_slot_for_unique(played2, j, vj);
    }
    assert forall|j: int| idx <= j < hand_len - 1 implies slot_for(played2, j) == slot_for(
        played,
        j + 1,
    ) by {
        lemma_slot_for_props(played, j + 1);
        let vj = slot_for(played, j + 1);
        assert(v < vj) by {
            if vj == v {
            } else if vj < v {
                crate::perm::lemma_count_free_strict(m, vj, v);
            }
        }
        crate::perm::lemma_count_free_update(m, v, vj);
        lemma_slot_for_unique(played2, j, vj);
    }
}

/// Distinct trick offsets name distinct seats.
proof fn lemma_mod4_offsets(lead: int, off1: int, off2: int)
    requires
        0 <= lead < 4,
        0 <= off1 < 4,
        0 <= off2 < 4,
        off1 != off2,
    ensures
        (lead + off1) % 4 != (lead + off2) % 4,
{
}

/// With nothing played yet, hand position `j` stands for slot `j`.
pub proof fn lemma_slot_for_empty(j: int)
    requires
        0 <= j < 5,
    ensures
        slot_for(Seq::<usize>::empty(), j) == j,
{
    let e = Seq::<usize>::empty();
    assert(crate::perm::valid_prefix(e));
    assert(crate::perm::marks_of(e, 0) == crate::perm::empty_marks());
    assert(crate::perm::count_free_below(crate::perm::empty_marks(), j) == j) by {
        reveal_with_fuel(crate::perm::count_free_below, 6);
    }
    lemma_slot_for_unique(e, j, j);
}

/// The play orders named by four permutation indices, one per seat.
pub open spec fn orders_for(a: usize, b: usize, c: usize, d: usize) -> Seq<Seq<usize>> {
    seq![
        crate::perm::perm_with_index(a as int),
        crate::perm::perm_with_index(b as int),
        crate::perm::perm_with_index(c as int),
        crate::perm::perm_with_index(d as int),
    ]
}

/// The simulated outcome of the round for one combination of permutation
/// indices: each seat plays its original hand in the order the index names.
pub open spec fn sim_for_ids(
    hands: [[Card; 5]; 4],
    a: usize, b: usize, c: usize, d: usize,
    dealer: int,
    rechte: Card,
) -> GameResult {
    sim_outcome(hand_rows(hands), orders_for(a, b, c, d), dealer, rechte)
}

/// The permutation indices that population covers: the restricted subset if
/// one is set, else all 120.
pub open spec fn effective_indices(r: Option<Vec<usize>>) -> Seq<usize> {
    match r {
        Some(v) => v@,
        None => crate::database::range_seq(0, 120),
    }
}

/// The outcome store a population run must produce: every combination of
/// covered indices maps to its simulated outcome, and nothing else is there.
pub open spec fn populated_map(
    hands: [[Card; 5]; 4],
    dealer: int,
    rechte: Card,
    idxs: Seq<usize>,
) -> Map<u32, GameResult> {
    Map::new(
        |key: u32|
            exists|a: usize, b: usize, c: usize, d: usize|
                #![trigger crate::database::combo_key(a, b, c, d)]
                idxs.contains(a) && idxs.contains(b) && idxs.contains(c) && idxs.contains(d)
                    && key == crate::database::combo_key(a, b, c, d) as u32,
        |key: u32|
            {
                let t = choose|t: (usize, usize, usize, usize)|
                    idxs.contains(t.0) && idxs.contains(t.1) && idxs.contains(t.2) && idxs.contains(
                        t.3,
                    ) && key == crate::database::combo_key(t.0, t.1, t.2, t.3) as u32;
                sim_for_ids(hands, t.0, t.1, t.2, t.3, dealer, rechte)
            },
    )
}

/// The populated store holds, at the key of any covered index combination,
/// exactly the simulated outcome of that combination.
pub proof fn lemma_populated_at(
    hands: [[Card; 5]; 4],
    dealer: int,
    rechte: Card,
    idxs: Seq<usize>,
    a: usize, b: usize, c: usize, d: usize,
)
    requires
        forall|k: int| 0 <= k < idxs.len() ==> idxs[k] < 120,
        idxs.contains(a) && idxs.contains(b) && idxs.contains(c) && idxs.contains(d),
    ensures
        populated_map(hands, dealer, rechte, idxs).contains_key(
            crate::database::combo_key(a, b, c, d) as u32,
        ),
        populated_map(hands, dealer, rechte, idxs)[crate::database::combo_key(a, b, c, d) as u32]
            == sim_for_ids(hands, a, b, c, d, dealer, rechte),
{
    let key = crate::database::combo_key(a, b, c, d) as u32;
    let m = populated_map(hands, dealer, rechte, idxs);
    lemma_idx_bound(idxs, a);
    lemma_idx_bound(idxs, b);
    lemma_idx_bound(idxs, c);
    lemma_idx_bound(idxs, d);
    assert(m.contains_key(key));
    let w = (a, b, c, d);
    assert(idxs.contains(w.0) && idxs.contains(w.1) && idxs.contains(w.2) && idxs.contains(w.3)
        && key == crate::database::combo_key(w.0, w.1, w.2, w.3) as u32);
    let t = choose|t: (usize, usize, usize, usize)|
        idxs.contains(t.0) && idxs.contains(t.1) && idxs.contains(t.2) && idxs.contains(t.3) && key
            == crate::database::combo_key(t.0, t.1, t.2, t.3) as u32;
    lemma_idx_bound(idxs, t.0);
    lemma_idx_bound(idxs, t.1);
    lemma_idx_bound(idxs, t.2);
    lemma_idx_bound(idxs, t.3);
    assert(0 <= crate::database::combo_key(t.0, t.1, t.2, t.3) < 0x100000000);
    assert(0 <= crate::database::combo_key(a, b, c, d) < 0x100000000);
    assert(crate::database::combo_key(t.0, t.1, t.2, t.3) == crate::database::combo_key(
        a, b, c, d,
    ));
    crate::database::lemma_combo_key_injective(t.0, t.1, t.2, t.3, a, b, c, d);
}

/// A value drawn from a list of in-range permutation indices is in range.
proof fn lemma_idx_bound(idxs: Seq<usize>, x: usize)
    requires
        forall|k: int| 0 <= k < idxs.len() ==> idxs[k] < 120,
        idxs.contains(x),
    ensures
        x < 120,
{
    let k = choose|k: int| 0 <= k < idxs.len() && idxs[k] == x;
}

/// Splitting a flattened combination number into its four digits, base `n`,
/// and putting it back together.
proof fn lemma_flat_split(n: int, ia: int, ib: int, ic: int, id: int)
    requires
        1 <= n,
        0 <= ia < n,
        0 <= ib < n,
        0 <= ic < n,
        0 <= id < n,
    ensures
        ({
            let mm = ((ia * n + ib) * n + ic) * n + id;
            &&& 0 <= mm < n * n * n * n
            &&& mm / (n * n * n) == ia
            &&& (mm / (n * n)) % n == ib
            &&& (mm / n) % n == ic
            &&& mm % n == id
        }),
{
    let mm = ((ia * n + ib) * n + ic) * n + id;
    assert(mm == ia * (n * n * n) + (ib * (n * n) + (ic * n + id))) by (nonlinear_arith)
        requires
            mm == ((ia * n + ib) * n + ic) * n + id,
    ;
    assert(0 <= ib * (n * n) + (ic * n + id) < n * n * n) by (nonlinear_arith)
        requires
            1 <= n && 0 <= ib < n && 0 <= ic < n && 0 <= id < n,
    ;
    assert(mm == (ia * n + ib) * (n * n) + (ic * n + id)) by (nonlinear_arith)
        requires
            mm == ((ia * n + ib) * n + ic) * n + id,
    ;
    assert(0 <= ic * n + id < n * n) by (nonlinear_arith)
        requires
            1 <= n && 0 <= ic < n && 0 <= id < n,
    ;
    assert(0 <= mm < n * n * n * n) by (nonlinear_arith)
        requires
            mm == ((ia * n + ib) * n + ic) * n + id && 1 <= n && 0 <= ia < n && 0 <= ib < n && 0
                <= ic < n && 0 <= id < n,
    ;
    lemma_fundamental_div_mod_converse(mm, n * n * n, ia, ib * (n * n) + (ic * n + id));
    lemma_fundamental_div_mod_converse(mm, n * n, ia * n + ib, ic * n + id);
    lemma_fundamental_div_mod_converse(ia * n + ib, n, ia, ib);
    lemma_fundamental_div_mod_converse(mm, n, (ia * n + ib) * n + ic, id);
    lemma_fundamental_div_mod_converse((ia * n + ib) * n + ic, n, ia * n + ib, ic);
}

/// The four digits, base `n`, of a flattened combination number, and that
/// they put the number back together.
proof fn lemma_flat_decode(n: int, mm: int)
    requires
        1 <= n,
        0 <= mm < n * n * n * n,
    ensures
        ({
            let ia = mm / (n * n * n);
            let ib = (mm / (n * n)) % n;
            let ic = (mm / n) % n;
            let id = mm % n;
            &&& 0 <= ia < n && 0 <= ib < n && 0 <= ic < n && 0 <= id < n
            &&& ((ia * n + ib) * n + ic) * n + id == mm
        }),
{
    let q1 = mm / n;
    let q2 = mm / (n * n);
    let q3 = mm / (n * n * n);
    assert(0 < n * n && 0 < n * n * n) by (nonlinear_arith)
        requires
            1 <= n,
    ;
    lemma_fundamental_div_mod(mm, n);
    lemma_fundamental_div_mod(q1, n);
    lemma_fundamental_div_mod(q2, n);
    lemma_div_denominator(mm, n, n);
    assert(q1 / n == q2);
    lemma_div_denominator(mm, n * n, n);
    assert((n * n) * n == n * n * n) by (nonlinear_arith);
    assert(q2 / n == q3);
    // bounds
    lemma_div_pos_is_pos(mm, n);
    lemma_div_pos_is_pos(q1, n);
    lemma_div_pos_is_pos(q2, n);
    assert(q3 < n) by {
        if q3 >= n {
            // then mm >= (n*n*n) * n, contradicting the bound
            lemma_fundamental_div_mod(mm, n * n * n);
            assert(mm >= (n * n * n) * n) by (nonlinear_arith)
                requires
                    1 <= n && mm / (n * n * n) >= n && mm == (n * n * n) * (mm / (n * n * n)) + mm
                        % (n * n * n) && mm % (n * n * n) >= 0,
            ;
            assert((n * n * n) * n == n * n * n * n) by (nonlinear_arith);
        }
    }
    // reassemble
    let ia = q3;
    let ib = q2 % n;
    let ic = q1 % n;
    let id = mm % n;
    assert(q2 == ia * n + ib) by {
        assert(q2 == n * (q2 / n) + q2 % n);
        assert(n * ia == ia * n) by (nonlinear_arith);
    }
    assert(q1 == q2 * n + ic) by {
        assert(q1 == n * (q1 / n) + q1 % n);
        assert(n * q2 == q2 * n) by (nonlinear_arith);
    }
    assert(mm == q1 * n + id) by {
        assert(mm == n * (mm / n) + mm % n);
        assert(n * q1 == q1 * n) by (nonlinear_arith);
    }
    assert(((ia * n + ib) * n + ic) * n + id == mm);
}

/// The elements of a list that fall in the half-open range `[s, e)`, kept in
/// list order.
pub open spec fn restrict_range(r: Seq<usize>, s: int, e: int) -> Seq<usize> {
    r.filter(|v: usize| s <= v < e)
}

proof fn lemma_restrict_push(r: Seq<usize>, s: int, e: int)
    requires
        r.len() > 0,
    ensures
        restrict_range(r, s, e) == if s <= r.last() < e {
            restrict_range(r.drop_last(), s, e).push(r.last())
        } else {
            restrict_range(r.drop_last(), s, e)
        },
{
    reveal(Seq::filter);
}

proof fn lemma_restrict_props(r: Seq<usize>, s: int, e: int)
    ensures
        restrict_range(r, s, e).len() <= r.len(),
        forall|k: int|
            0 <= k < restrict_range(r, s, e).len() ==> s <= #[trigger] restrict_range(r, s, e)[k]
                < e,
    decreases r.len(),
{
    reveal(Seq::filter);
    if r.len() > 0 {
        lemma_restrict_props(r.drop_last(), s, e);
        lemma_restrict_push(r, s, e);
        let prev = restrict_range(r.drop_last(), s, e);
        if s <= r.last() < e {
            assert forall|k: int|
                0 <= k < restrict_range(r, s, e).len() implies s <= #[trigger] restrict_range(
                r, s, e,
            )[k] < e by {
                if k < prev.len() {
                    assert(restrict_range(r, s, e)[k] == prev[k]);
                } else {
                    assert(restrict_range(r, s, e)[k] == r.last());
                }
            }
        }
    }
}

/// A rate as an exact rational: wins over decided completions, or zero when
/// nothing is decided.
pub open spec fn rate_of(w: nat, l: nat) -> (nat, nat) {
    if w + l == 0 {
        (0nat, 1nat)
    } else {
        (w, (w + l) as nat)
    }
}

/// Strict comparison of two rates given as numerator-denominator pairs.
pub open spec fn rate_lt(x: (nat, nat), y: (nat, nat)) -> bool {
    x.0 * y.1 < y.0 * x.1
}

/// A recorded step names a card the player was allowed to play: the card at
/// one of the allowed positions of the hand it held.
pub open spec fn step_is_legal_play(s: RoundStep) -> bool {
    exists|j: int|
        0 <= j < s.allowed@.len() && #[trigger] s.allowed@[j] < s.hand@.len() && s.played
            == s.hand@[s.allowed@[j] as int]
}

/// Copy the cards of a live hand, for the play-by-play record.
fn copy_cards(v: &Vec<Card>) -> (r: Vec<Card>)
    ensures
        r@ == v@,
{
    let n = v.len();
    let mut r: Vec<Card> = Vec::new();
    for i in 0..n
        invariant
            n == v@.len(),
            r@.len() == i,
            forall|k: int| 0 <= k < i ==> #[trigger] r@[k] == v@[k],
    {
        r.push(v[i]);
    }
    proof {
        assert(r@ =~= v@);
    }
    r
}

/// Whether a list of hand slots holds the given value.
fn contains_value(v: &Vec<usize>, x: usize) -> (b: bool)
    ensures
        b == v@.contains(x),
{
    let n = v.len();
    let mut k: usize = 0;
    while k < n
        invariant
            k <= n,
            n == v@.len(),
            forall|t: int| 0 <= t < k ==> v@[t] != x,
        decreases n - k,
    {
        if v[k] == x {
            return true;
        }
        k = k + 1;
    }
    proof {
        if v@.contains(x) {
            let t = choose|t: int| 0 <= t < v@.len() && v@[t] == x;
        }
    }
    false
}

/// The numerator and denominator of a win rate, as machine integers.
fn rate_parts(w: u32, l: u32) -> (r: (u128, u128))
    ensures
        r.0 as nat == rate_of(w as nat, l as nat).0,
        r.1 as nat == rate_of(w as nat, l as nat).1,
        r.0 <= 0xFFFFFFFF,
        r.1 <= 0x1FFFFFFFE,
{
    if w == 0 && l == 0 {
        (0, 1)
    } else {
        (w as u128, w as u128 + l as u128)
    }
}

/// Whether the rate `cn / cd` is strictly greater than `bn / bd`.
fn rate_gt(cn: u128, cd: u128, bn: u128, bd: u128) -> (b: bool)
    requires
        cn <= 0xFFFFFFFF,
        cd <= 0x1FFFFFFFE,
        bn <= 0xFFFFFFFF,
        bd <= 0x1FFFFFFFE,
    ensures
        b == rate_lt((bn as nat, bd as nat), (cn as nat, cd as nat)),
{
    proof {
        assert(cn * bd <= 0xFFFFFFFF * 0x1FFFFFFFE && bn * cd <= 0xFFFFFFFF * 0x1FFFFFFFE)
            by (nonlinear_arith)
            requires
                cn <= 0xFFFFFFFF && cd <= 0x1FFFFFFFE && bn <= 0xFFFFFFFF && bd <= 0x1FFFFFFFE,
        ;
    }
    cn * bd > bn * cd
}

/// Rational order is transitive: a rate at most `b` stays strictly below any
/// rate strictly above `b`.
proof fn lemma_rate_le_lt_trans(a: (nat, nat), b: (nat, nat), c: (nat, nat))
    requires
        a.1 >= 1,
        b.1 >= 1,
        c.1 >= 1,
        !rate_lt(b, a),
        rate_lt(b, c),
    ensures
        rate_lt(a, c),
        !rate_lt(c, a),
{
    assert(a.0 * c.1 < c.0 * a.1 && !(c.0 * a.1 < a.0 * c.1)) by (nonlinear_arith)
        requires
            a.1 >= 1 && b.1 >= 1 && c.1 >= 1 && !(b.0 * a.1 < a.0 * b.1) && b.0 * c.1 < c.0 * b.1,
    ;
}

/// The full, mutable state of a game in progress, generic over the outcome
/// store implementation it queries.
pub struct GameState<D: GameDatabase> {
    pub players: [Player; 4],
    pub dealer: usize,
    pub rechte: Option<Card>,
    pub scores: [usize; 2],
    pub round_points: usize,
    /// Which team last raised the round points.
    pub last_raiser: Option<usize>,
    pub db: D,
    pub orig_hands: [[Card; 5]; 4],
    pub played: [Vec<usize>; 4],
    /// Optional subset of permutation indices for populating the store.
    pub perm_range: Option<Vec<usize>>,
    /// Number of workers used to partition store population.
    pub workers: usize,
    // interactive round state
    pub playing_round: bool,
    pub trick_lead: usize,
    pub trick_pos: usize,
    pub tricks_won: [usize; 2],
    pub current_trick: Vec<(usize, Card)>,
}

/// Number of worker shares to use by default, twice the processor count.
///
/// Relies on num_cpus::get: the number of logical processors available,
/// documented to always be at least 1.
#[verifier::external_body]
fn detected_cpus() -> (n: usize)
    ensures
        n >= 1,
{
    num_cpus::get()
}

impl<D: GameDatabase> GameState<D> {
    /// Basic well-formedness of the bookkeeping fields.
    pub open spec fn wf(&self) -> bool {
        &&& self.dealer < 4
        &&& self.trick_lead < 4
        &&& self.current_trick@.len() == self.trick_pos
        &&& self.trick_pos < 4
        &&& self.tricks_won@[0] + self.tricks_won@[1] <= 5
        &&& forall|p: int| 0 <= p < 4 ==> crate::perm::valid_prefix(#[trigger] self.played@[p]@)
        &&& match self.perm_range {
            Some(r) => r@.len() <= 120 && forall|k: int| 0 <= k < r@.len() ==> r@[k] < 120,
            None => true,
        }
        &&& self.workers >= 1
        &&& forall|p: int| 0 <= p < 4 ==> (#[trigger] self.players@[p]).hand@.len() <= 5
    }

    /// The dealt state: each seat's live hand holds exactly its original
    /// cards not yet played, in original order, and the original cards of a
    /// seat are pairwise distinct.
    pub open spec fn round_dealt(&self) -> bool {
        &&& forall|p: int|
            0 <= p < 4 ==> hand_matches(
                self.orig_hands@[p]@,
                self.played@[p]@,
                (#[trigger] self.players@[p]).hand@,
            )
        &&& forall|p: int, i: int, j: int|
            0 <= p < 4 && 0 <= i < j < 5 ==> (#[trigger] self.orig_hands@[p]@[i]) != (
            #[trigger] self.orig_hands@[p]@[j])
    }

    /// Build a game over the given outcome store implementation, with the
    /// first `human_players` seats played by humans.
    pub fn new_with_db(db: D, human_players: usize) -> (g: GameState<D>)
        ensures
            g.wf(),
            g.scores@ == seq![0usize, 0usize],
            g.round_points == ROUND_POINTS,
            g.last_raiser is None,
            g.dealer == 0,
            g.rechte is None,
            g.perm_range is None,
            g.db == db,
            g.playing_round == false,
            forall|p: int| 0 <= p < 4 ==> ((#[trigger] g.players@[p]).human <==> p < human_players),
            forall|p: int| 0 <= p < 4 ==> (#[trigger] g.players@[p]).hand@.len() == 0,
            forall|p: int| 0 <= p < 4 ==> (#[trigger] g.played@[p]@).len() == 0,
    {
        let cpus = detected_cpus();
        let workers = if cpus <= usize::MAX / 2 {
            cpus * 2
        } else {
            usize::MAX
        };
        let dummy = Card { suit: Suit::Hearts, rank: Rank::Seven };
        let g = GameState {
            players: [
                Player::new(human_players >= 1),
                Player::new(human_players >= 2),
                Player::new(human_players >= 3),
                Player::new(human_players >= 4),
            ],
            dealer: 0,
            rechte: None,
            scores: [0, 0],
            round_points: ROUND_POINTS,
            last_raiser: None,
            db,
            orig_hands: [[dummy; 5]; 4],
            played: [Vec::new(), Vec::new(), Vec::new(), Vec::new()],
            perm_range: None,
            workers,
            playing_round: false,
            trick_lead: 0,
            trick_pos: 0,
            tricks_won: [0, 0],
            current_trick: Vec::new(),
        };
        proof {
            assert(g.scores@ =~= seq![0usize, 0usize]);
            assert forall|p: int| 0 <= p < 4 implies crate::perm::valid_prefix(
                #[trigger] g.played@[p]@,
            ) by {
                assert(g.played@[p]@.len() == 0);
            }
        }
        g
    }

    /// Limit the permutation indices used when populating the store to one
    /// index. A single permutation dramatically speeds up tests.
    pub fn set_perm_range_single(&mut self, idx: usize)
        requires
            idx < 120,
        ensures
            *final(self) == (GameState { perm_range: final(self).perm_range, ..*old(self) }),
            final(self).perm_range matches Some(r) && r@ == seq![idx],
    {
        let mut v: Vec<usize> = Vec::new();
        v.push(idx);
        proof {
            assert(v@ =~= seq![idx]);
        }
        self.perm_range = Some(v);
    }

    /// Clear any permutation restriction so that all 120 permutations are
    /// used again when populating the store.
    pub fn clear_perm_range(&mut self)
        ensures
            *final(self) == (GameState { perm_range: None, ..*old(self) }),
    {
        self.perm_range = None;
    }

    /// Set the number of workers used when populating the store; at least one
    /// is always kept.
    pub fn set_workers(&mut self, workers: usize)
        ensures
            *final(self) == (GameState { workers: final(self).workers, ..*old(self) }),
            final(self).workers == if workers >= 1 {
                workers
            } else {
                1usize
            },
    {
        self.workers = if workers >= 1 {
            workers
        } else {
            1
        };
    }

    /// The trump suit of the current round, once the rechte is drawn.
    pub fn trump_suit(&self) -> (s: Option<Suit>)
        ensures
            s == match self.rechte {
                Some(c) => Some(c.suit),
                None => None::<Suit>,
            },
    {
        match &self.rechte {
            Some(c) => Some(c.suit),
            None => None,
        }
    }

    /// The striker rank of the current round, once the rechte is drawn.
    pub fn striker_rank(&self) -> (r: Option<Rank>)
        ensures
            r == match self.rechte {
                Some(c) => Some(c.rank),
                None => None::<Rank>,
            },
    {
        match &self.rechte {
            Some(c) => Some(c.rank),
            None => None,
        }
    }

    /// Increase the value of the current round by one point on behalf of the
    /// given team (0 for team 1, 1 for team 2). A team other than 0 or 1 is
    /// rejected, and the same team may not raise twice in a row; a rejected
    /// raise changes nothing. Returns `Ok(())` exactly when the raise was
    /// accepted.
    pub fn raise_round(&mut self, team: usize) -> (r: Result<(), &'static str>)
        requires
            old(self).round_points < usize::MAX,
        ensures
            team > 1 ==> r is Err && *final(self) == *old(self),
            team <= 1 && old(self).last_raiser == Some(team) ==> r is Err && *final(self) == *old(self),
            team <= 1 && old(self).last_raiser != Some(team) ==> r is Ok && *final(self) == (
            GameState {
                round_points: (old(self).round_points + 1) as usize,
                last_raiser: Some(team),
                ..*old(self)
            }),
    {
        if team > 1 {
            return Err("invalid team");
        }
        if let Some(t) = self.last_raiser {
            if t == team {
                return Err("team already raised");
            }
        }
        self.round_points = self.round_points + 1;
        self.last_raiser = Some(team);
        Ok(())
    }

    /// Whether the seat is a seeing player for the current dealer.
    fn is_seeing_player(&self, idx: usize) -> (b: bool)
        requires
            self.dealer < 4,
        ensures
            b == is_seeing(self.dealer as int, idx as int),
    {
        idx == self.dealer || idx == (self.dealer + 1) % 4
    }

    /// Return the hand positions that the given player is allowed to play
    /// when `lead_card` was led: all of them, unless the player is a seeing
    /// player, the trick was led with trump, and the hand can follow with
    /// trump or striker.
    pub fn allowed_indices(&self, p_idx: usize, lead_card: Card) -> (allowed: Vec<usize>)
        requires
            p_idx < 4,
            self.dealer < 4,
        ensures
            allowed@ == allowed_idxs_spec(
                self.players@[p_idx as int].hand@,
                self.rechte,
                is_seeing(self.dealer as int, p_idx as int),
                lead_card,
            ),
            forall|k: int|
                0 <= k < allowed@.len() ==> #[trigger] allowed@[k]
                    < self.players@[p_idx as int].hand@.len(),
            forall|a: int, b: int| 0 <= a < b < allowed@.len() ==> allowed@[a] < allowed@[b],
            allowed@.no_duplicates(),
            self.players@[p_idx as int].hand@.len() > 0 ==> allowed@.len() > 0,
    {
        let ghost hand = self.players@[p_idx as int].hand@;
        let n = self.players[p_idx].hand.len();
        let mut all: Vec<usize> = Vec::new();
        proof {
            assert(identity_idxs(0) =~= Seq::<usize>::empty());
        }
        for i in 0..n
            invariant
                n == hand.len(),
                hand == self.players@[p_idx as int].hand@,
                p_idx < 4,
                all@ == identity_idxs(i as nat),
        {
            all.push(i);
            proof {
                assert(all@ =~= identity_idxs((i + 1) as nat));
            }
        }
        let mut result = all;
        if let Some(rechte) = self.rechte {
            if lead_card.suit == rechte.suit && self.is_seeing_player(p_idx) {
                let mut subset: Vec<usize> = Vec::new();
                proof {
                    assert(identity_idxs(0).filter(
                        |i: usize| hand[i as int].suit == rechte.suit || hand[i as int].rank
                            == rechte.rank,
                    ) =~= Seq::<usize>::empty());
                }
                for i in 0..n
                    invariant
                        n == hand.len(),
                        hand == self.players@[p_idx as int].hand@,
                        p_idx < 4,
                        self.rechte == Some(rechte),
                        subset@ == identity_idxs(i as nat).filter(
                            |i: usize| hand[i as int].suit == rechte.suit || hand[i as int].rank
                                == rechte.rank,
                        ),
                        forall|k: int| 0 <= k < subset@.len() ==> #[trigger] subset@[k] < i,
                        forall|a: int, b: int|
                            0 <= a < b < subset@.len() ==> subset@[a] < subset@[b],
                {
                    let ghost pred = |i: usize|
                        hand[i as int].suit == rechte.suit || hand[i as int].rank == rechte.rank;
                    let c = self.players[p_idx].hand[i];
                    proof {
                        assert(identity_idxs((i + 1) as nat).drop_last() =~= identity_idxs(
                            i as nat,
                        ));
                        assert(identity_idxs((i + 1) as nat).last() == i as usize);
                        reveal(Seq::filter);
                        assert(identity_idxs((i + 1) as nat).filter(pred) == if pred(i as usize) {
                            identity_idxs(i as nat).filter(pred).push(i as usize)
                        } else {
                            identity_idxs(i as nat).filter(pred)
                        });
                    }
                    if c.suit == rechte.suit || c.rank == rechte.rank {
                        subset.push(i);
                    }
                }
                proof {
                    assert(subset@ == matching_idxs(hand, rechte));
                }
                if subset.len() > 0 {
                    result = subset;
                }
            }
        }
        proof {
            assert forall|a: int, b: int|
                0 <= a < b < identity_idxs(hand.len()).len() implies identity_idxs(hand.len())[a]
                < identity_idxs(hand.len())[b] by {}
        }
        result
    }

    /// The play prefix that a candidate implies for seat `i`: the seat's own
    /// committed plays, extended by the candidate's original slot when the
    /// seat is the acting player.
    pub open spec fn hypo_prefix(self, i: int, p_idx: int, orig: usize) -> Seq<usize> {
        if i == p_idx {
            self.played@[i]@.push(orig)
        } else {
            self.played@[i]@
        }
    }

    /// The permutation indices that stay possible for seat `i` under the
    /// hypothetical prefix: the indices of the prefix's block, restricted to
    /// the covered subset if one is set.
    pub open spec fn candidate_list(self, i: int, p_idx: int, orig: usize) -> Seq<usize> {
        let pre = self.hypo_prefix(i, p_idx, orig);
        let s = crate::perm::prefix_start(pre);
        let e = s + crate::perm::fact((5 - pre.len()) as nat);
        match self.perm_range {
            Some(r) => restrict_range(r@, s, e),
            None => crate::database::range_seq(s as usize, e as usize),
        }
    }

    /// How many recorded outcomes of kind `r` remain possible if the acting
    /// player commits the card at original slot `orig`.
    pub open spec fn hypo_count(self, p_idx: int, orig: usize, r: GameResult) -> nat {
        crate::database::count4(
            self.db.stored(),
            self.candidate_list(0, p_idx, orig),
            self.candidate_list(1, p_idx, orig),
            self.candidate_list(2, p_idx, orig),
            self.candidate_list(3, p_idx, orig),
            r,
        )
    }

    /// The wins and losses, for the acting player's team, among the recorded
    /// outcomes that remain possible after committing original slot `orig`.
    pub open spec fn win_counts(self, p_idx: int, orig: usize) -> (nat, nat) {
        if p_idx % 2 == 0 {
            (
                self.hypo_count(p_idx, orig, GameResult::Team1Win),
                self.hypo_count(p_idx, orig, GameResult::Team2Win),
            )
        } else {
            (
                self.hypo_count(p_idx, orig, GameResult::Team2Win),
                self.hypo_count(p_idx, orig, GameResult::Team1Win),
            )
        }
    }

    /// The win rate of playing the card at live-hand position `hand_idx`.
    pub open spec fn card_rate(self, p_idx: int, hand_idx: int) -> (nat, nat) {
        let orig = slot_for(self.played@[p_idx]@, hand_idx) as usize;
        let wl = self.win_counts(p_idx, orig);
        rate_of(wl.0, wl.1)
    }

    /// Find the original hand slot that holds the given card and has not been
    /// played yet: the earliest such slot.
    fn find_orig_index(&self, p_idx: usize, card: Card) -> (r: usize)
        requires
            p_idx < 4,
            exists|i: int|
                0 <= i < 5 && self.orig_hands@[p_idx as int]@[i] == card && !self.played@[p_idx
                    as int]@.contains(i as usize),
        ensures
            r < 5,
            self.orig_hands@[p_idx as int]@[r as int] == card,
            !self.played@[p_idx as int]@.contains(r),
            forall|i: int|
                0 <= i < r ==> !(self.orig_hands@[p_idx as int]@[i] == card && !self.played@[p_idx
                    as int]@.contains(i as usize)),
    {
        let mut i: usize = 0;
        while i < 5
            invariant
                p_idx < 4,
                i <= 5,
                exists|w: int|
                    0 <= w < 5 && self.orig_hands@[p_idx as int]@[w] == card && !self.played@[p_idx
                        as int]@.contains(w as usize),
                forall|w: int|
                    0 <= w < i ==> !(self.orig_hands@[p_idx as int]@[w] == card
                        && !self.played@[p_idx as int]@.contains(w as usize)),
            decreases 5 - i,
        {
            let c = self.orig_hands[p_idx][i];
            if c == card && !contains_value(&self.played[p_idx], i) {
                return i;
            }
            i = i + 1;
        }
        proof {
            assert(false);
        }
        vstd::pervasive::unreached()
    }

    /// The list of permutation indices that stay possible for seat `i` if the
    /// acting player commits original slot `orig`.
    fn candidate_list_for(&self, i: usize, p_idx: usize, orig: usize) -> (list: Vec<usize>)
        requires
            i < 4,
            p_idx < 4,
            orig < 5,
            self.wf(),
            crate::perm::valid_prefix(self.hypo_prefix(i as int, p_idx as int, orig)),
        ensures
            list@ == self.candidate_list(i as int, p_idx as int, orig),
            list@.len() <= 120,
            forall|k: int| 0 <= k < list@.len() ==> #[trigger] list@[k] < 120,
    {
        let mut prefix: Vec<usize> = self.played[i].clone();
        if i == p_idx {
            prefix.push(orig);
        }
        proof {
            assert(prefix@ == self.hypo_prefix(i as int, p_idx as int, orig));
        }
        let ghost pre = prefix@;
        let se = crate::perm::perm_prefix_range(prefix.as_slice());
        let s = se.0;
        let e = se.1;
        match &self.perm_range {
            Some(r) => {
                let mut out: Vec<usize> = Vec::new();
                let n = r.len();
                proof {
                    assert(r@.subrange(0, 0) =~= Seq::<usize>::empty());
                    assert(restrict_range(Seq::<usize>::empty(), s as int, e as int)
                        =~= Seq::<usize>::empty()) by {
                        reveal(Seq::filter);
                    }
                }
                for k in 0..n
                    invariant
                        n == r@.len(),
                        self.perm_range matches Some(rr) && rr@ == r@,
                        r@.len() <= 120,
                        forall|t: int| 0 <= t < r@.len() ==> r@[t] < 120,
                        out@ == restrict_range(r@.subrange(0, k as int), s as int, e as int),
                        out@.len() <= k,
                        forall|t: int| 0 <= t < out@.len() ==> #[trigger] out@[t] < 120,
                {
                    let v = r[k];
                    proof {
                        let sub2 = r@.subrange(0, k + 1);
                        assert(sub2.drop_last() =~= r@.subrange(0, k as int));
                        assert(sub2.last() == r@[k as int]);
                        lemma_restrict_push(sub2, s as int, e as int);
                    }
                    if s <= v && v < e {
                        out.push(v);
                    }
                }
                proof {
                    assert(r@.subrange(0, r@.len() as int) =~= r@);
                    assert(out@ == self.candidate_list(i as int, p_idx as int, orig));
                }
                out
            },
            None => {
                let out = crate::database::range_to_vec(s, e);
                proof {
                    assert(out@ == self.candidate_list(i as int, p_idx as int, orig));
                }
                out
            },
        }
    }

    /// Count the wins and losses for the acting player's team among the
    /// recorded outcomes that remain possible if that player now plays the
    /// card at live-hand position `hand_idx`.
    pub fn card_win_counts(&self, p_idx: usize, hand_idx: usize) -> (wl: (u32, u32))
        requires
            self.wf(),
            self.round_dealt(),
            p_idx < 4,
            hand_idx < self.players@[p_idx as int].hand@.len(),
        ensures
            (wl.0 as nat, wl.1 as nat) == self.win_counts(
                p_idx as int,
                slot_for(self.played@[p_idx as int]@, hand_idx as int) as usize,
            ),
    {
        let card = self.players[p_idx].hand[hand_idx];
        let ghost played = self.played@[p_idx as int]@;
        proof {
            lemma_slot_for_props(played, hand_idx as int);
            crate::perm::lemma_marks_of(played, played.len() as int);
            let v = slot_for(played, hand_idx as int);
            assert(self.orig_hands@[p_idx as int]@[v] == card);
            assert(!played.contains(v as usize)) by {
                if played.contains(v as usize) {
                    let w = choose|w: int| 0 <= w < played.len() && played[w] == v as usize;
                    assert(crate::perm::marks_of(played, played.len() as int)[v]);
                }
            }
        }
        let orig = self.find_orig_index(p_idx, card);
        proof {
            let v = slot_for(played, hand_idx as int);
            assert(orig == v as usize) by {
                if orig != v {
                    assert(self.orig_hands@[p_idx as int]@[orig as int] == self.orig_hands@[p_idx
                        as int]@[v]);
                }
            }
            // the hypothetical prefixes stay valid
            assert forall|i: int| 0 <= i < 4 implies crate::perm::valid_prefix(
                self.hypo_prefix(i, p_idx as int, orig),
            ) by {
                if i == p_idx {
                    let pl = self.played@[i]@;
                    let pre = pl.push(orig);
                    assert(pl.len() + self.players@[i].hand@.len() == 5);
                    assert(forall|a: int| 0 <= a < pl.len() ==> pre[a] == pl[a]);
                    assert(pre.no_duplicates()) by {
                        assert forall|a: int, b: int|
                            0 <= a < pre.len() && 0 <= b < pre.len() && a != b implies pre[a]
                            != pre[b] by {
                            if b == pre.len() - 1 && a < b {
                                if pre[a] == pre[b] {
                                    assert(played.contains(orig)) by {
                                        assert(played[a] == orig);
                                    }
                                }
                            } else if a == pre.len() - 1 && b < a {
                                if pre[a] == pre[b] {
                                    assert(played.contains(orig)) by {
                                        assert(played[b] == orig);
                                    }
                                }
                            }
                        }
                    }
                }
            }
        }
        let l0 = self.candidate_list_for(0, p_idx, orig);
        let l1 = self.candidate_list_for(1, p_idx, orig);
        let l2 = self.candidate_list_for(2, p_idx, orig);
        let l3 = self.candidate_list_for(3, p_idx, orig);
        let counts = self.db.counts_in_lists(
            l0.as_slice(),
            l1.as_slice(),
            l2.as_slice(),
            l3.as_slice(),
        );
        let team = p_idx % 2;
        let wins = if team == 0 {
            counts[1]
        } else {
            counts[2]
        };
        let losses = if team == 0 {
            counts[2]
        } else {
            counts[1]
        };
        proof {
            assert(counts@[crate::slot_of(GameResult::Team1Win)] == self.hypo_count(
                p_idx as int,
                orig,
                GameResult::Team1Win,
            ));
            assert(counts@[crate::slot_of(GameResult::Team2Win)] == self.hypo_count(
                p_idx as int,
                orig,
                GameResult::Team2Win,
            ));
        }
        (wins, losses)
    }

    /// Among the allowed hand positions, pick the one whose card gives the
    /// acting player's team the best win rate over the recorded outcomes;
    /// the earliest position wins a tie.
    pub fn best_card_index(&self, p_idx: usize, allowed: &[usize]) -> (best: usize)
        requires
            self.wf(),
            self.round_dealt(),
            p_idx < 4,
            allowed@.len() > 0,
            forall|k: int|
                0 <= k < allowed@.len() ==> #[trigger] allowed@[k] < self.players@[p_idx
                    as int].hand@.len(),
        ensures
            exists|k: int|
                0 <= k < allowed@.len() && #[trigger] allowed@[k] == best && (forall|j: int|
                    0 <= j < allowed@.len() ==> !rate_lt(
                        self.card_rate(p_idx as int, allowed@[k] as int),
                        self.card_rate(p_idx as int, allowed@[j] as int),
                    )) && (forall|j: int|
                    0 <= j < k ==> rate_lt(
                        self.card_rate(p_idx as int, allowed@[j] as int),
                        self.card_rate(p_idx as int, allowed@[k] as int),
                    )),
    {
        let first = self.card_win_counts(p_idx, allowed[0]);
        let mut best_idx = allowed[0];
        let mut best_k: usize = 0;
        let mut bw = first.0;
        let mut bl = first.1;
        let n = allowed.len();
        let mut k: usize = 1;
        while k < n
            invariant
                self.wf(),
                self.round_dealt(),
                p_idx < 4,
                n == allowed@.len(),
                forall|t: int|
                    0 <= t < allowed@.len() ==> #[trigger] allowed@[t] < self.players@[p_idx
                        as int].hand@.len(),
                1 <= k <= n,
                best_k < k,
                allowed@[best_k as int] == best_idx,
                (bw as nat, bl as nat) == self.win_counts(
                    p_idx as int,
                    slot_for(self.played@[p_idx as int]@, allowed@[best_k as int] as int) as usize,
                ),
                forall|j: int|
                    0 <= j < k ==> !rate_lt(
                        self.card_rate(p_idx as int, allowed@[best_k as int] as int),
                        #[trigger] self.card_rate(p_idx as int, allowed@[j] as int),
                    ),
                forall|j: int|
                    0 <= j < best_k ==> rate_lt(
                        #[trigger] self.card_rate(p_idx as int, allowed@[j] as int),
                        self.card_rate(p_idx as int, allowed@[best_k as int] as int),
                    ),
            decreases n - k,
        {
            let cur = self.card_win_counts(p_idx, allowed[k]);
            let w = cur.0;
            let l = cur.1;
            let cp = rate_parts(w, l);
            let bp = rate_parts(bw, bl);
            let ghost new_rate = self.card_rate(p_idx as int, allowed@[k as int] as int);
            let ghost best_rate = self.card_rate(p_idx as int, allowed@[best_k as int] as int);
            proof {
                assert(new_rate == rate_of(w as nat, l as nat));
                assert(best_rate == rate_of(bw as nat, bl as nat));
            }
            if rate_gt(cp.0, cp.1, bp.0, bp.1) {
                proof {
                    assert(rate_lt(best_rate, new_rate));
                    assert forall|j: int| 0 <= j < k + 1 implies !rate_lt(
                        new_rate,
                        #[trigger] self.card_rate(p_idx as int, allowed@[j] as int),
                    ) by {
                        if j < k {
                            lemma_rate_le_lt_trans(
                                self.card_rate(p_idx as int, allowed@[j] as int),
                                best_rate,
                                new_rate,
                            );
                        }
                    }
                    assert forall|j: int| 0 <= j < k implies rate_lt(
                        #[trigger] self.card_rate(p_idx as int, allowed@[j] as int),
                        new_rate,
                    ) by {
                        lemma_rate_le_lt_trans(
                            self.card_rate(p_idx as int, allowed@[j] as int),
                            best_rate,
                            new_rate,
                        );
                    }
                }
                best_idx = allowed[k];
                best_k = k;
                bw = w;
                bl = l;
            }
            k = k + 1;
        }
        proof {
            assert(0 <= best_k < allowed@.len() && allowed@[best_k as int] == best_idx);
        }
        best_idx
    }

    /// The seat whose turn it is within the current trick.
    pub open spec fn current_player_spec(self) -> int {
        (self.trick_lead + self.trick_pos) % 4
    }

    /// How many tricks of the round have been resolved.
    pub open spec fn tricks_done(self) -> int {
        self.tricks_won@[0] + self.tricks_won@[1]
    }

    /// The trick bookkeeping agrees with the hands: each seat still holds
    /// five cards minus one per resolved trick, minus one more if it already
    /// played in the current trick, and the plays on the table name seats in
    /// order from the trick's lead.
    pub open spec fn round_in_sync(self) -> bool {
        &&& forall|off: int|
            0 <= off < 4 ==> (#[trigger] self.players@[(self.trick_lead + off) % 4]).hand@.len()
                == 5 - self.tricks_done() - if off < self.trick_pos {
                1int
            } else {
                0int
            }
        &&& forall|k: int|
            0 <= k < self.current_trick@.len() ==> (#[trigger] self.current_trick@[k]).0 == (
            (self.trick_lead + k) % 4) as usize
        &&& self.tricks_done() <= 4
        &&& self.rechte is Some
    }

    /// Start a round to be played step by step: deal and populate, then open
    /// the first trick at the seat after the dealer.
    pub fn start_round_interactive(&mut self)
        requires
            old(self).wf(),
        ensures
            final(self).wf(),
            final(self).round_dealt(),
            final(self).playing_round,
            final(self).round_in_sync(),
            final(self).trick_lead == (final(self).dealer + 1) % 4,
            final(self).trick_pos == 0,
            final(self).tricks_won@ == seq![0usize, 0usize],
            final(self).current_trick@.len() == 0,
            final(self).dealer == old(self).dealer,
            final(self).round_points == ROUND_POINTS,
            final(self).last_raiser is None,
            final(self).scores == old(self).scores,
            final(self).perm_range == old(self).perm_range,
            forall|p: int|
                0 <= p < 4 ==> (#[trigger] final(self).players@[p]).human
                    == old(self).players@[p].human,
            forall|p: int| 0 <= p < 4 ==> (#[trigger] final(self).played@[p]@).len() == 0,
            forall|p: int| 0 <= p < 4 ==> (#[trigger] final(self).players@[p]).hand@.len() == 5,
            ({
                let g = *final(self);
                g.rechte matches Some(c) && c.suit == g.orig_hands@[g.dealer as int]@[0].suit
                    && c.rank == g.orig_hands@[((g.dealer + 1) % 4) as int]@[0].rank
            }),
            final(self).db.stored() == populated_map(
                final(self).orig_hands,
                old(self).dealer as int,
                final(self).rechte.unwrap(),
                effective_indices(old(self).perm_range),
            ),
    {
        self.start_round();
        self.playing_round = true;
        self.trick_lead = (self.dealer + 1) % 4;
        self.trick_pos = 0;
        self.tricks_won = [0, 0];
        self.current_trick = Vec::new();
        proof {
            assert(self.tricks_won@ =~= seq![0usize, 0usize]);
            assert forall|off: int| 0 <= off < 4 implies (#[trigger] self.players@[(self.trick_lead
                + off) % 4]).hand@.len() == 5 - self.tricks_done() - if off < self.trick_pos {
                1int
            } else {
                0int
            } by {
                assert(0 <= (self.trick_lead + off) % 4 < 4);
            }
        }
    }

    /// The hand positions the seat whose turn it is may play: its whole hand
    /// when it leads, otherwise what `allowed_indices` admits against the
    /// trick's lead card.
    pub open spec fn current_allowed_spec(self) -> Seq<usize> {
        let p = self.current_player_spec();
        if self.trick_pos == 0 {
            identity_idxs(self.players@[p].hand@.len())
        } else {
            allowed_idxs_spec(
                self.players@[p].hand@,
                self.rechte,
                is_seeing(self.dealer as int, p),
                self.current_trick@[0].1,
            )
        }
    }

    fn current_player(&self) -> (p: usize)
        requires
            self.wf(),
        ensures
            p as int == self.current_player_spec(),
            p < 4,
    {
        (self.trick_lead + self.trick_pos) % 4
    }

    fn current_allowed(&self) -> (allowed: Vec<usize>)
        requires
            self.wf(),
        ensures
            allowed@ == self.current_allowed_spec(),
            forall|k: int|
                0 <= k < allowed@.len() ==> #[trigger] allowed@[k] < self.players@[(
                self.current_player_spec())].hand@.len(),
            allowed@.no_duplicates(),
            self.players@[self.current_player_spec()].hand@.len() > 0 ==> allowed@.len() > 0,
    {
        let p = self.current_player();
        if self.trick_pos == 0 {
            let n = self.players[p].hand.len();
            let mut all: Vec<usize> = Vec::new();
            proof {
                assert(identity_idxs(0) =~= Seq::<usize>::empty());
            }
            for i in 0..n
                invariant
                    n == self.players@[p as int].hand@.len(),
                    all@ == identity_idxs(i as nat),
            {
                all.push(i);
                proof {
                    assert(all@ =~= identity_idxs((i + 1) as nat));
                }
            }
            proof {
                assert forall|a: int, b: int| 0 <= a < b < all@.len() implies all@[a] != all@[b]
                    by {}
            }
            all
        } else {
            let lead_card = self.current_trick[0].1;
            self.allowed_indices(p, lead_card)
        }
    }

    /// Return the hand positions that the seat whose turn it is may play.
    pub fn human_allowed_indices(&self) -> (allowed: Vec<usize>)
        requires
            self.wf(),
        ensures
            allowed@ == self.current_allowed_spec(),
    {
        self.current_allowed()
    }

    /// Apply one play for the seat whose turn it is: take the card at live
    /// position `idx` out of its hand, commit its original slot, and put it
    /// on the trick; the fourth card resolves the trick, and the fifth
    /// resolved trick scores the round and rotates the dealer.
    fn play_internal(&mut self, p_idx: usize, idx: usize, record: &mut Vec<RoundStep>)
        requires
            old(self).wf(),
            old(self).round_dealt(),
            old(self).playing_round,
            old(self).round_in_sync(),
            p_idx as int == old(self).current_player_spec(),
            idx < old(self).players@[p_idx as int].hand@.len(),
            old(self).scores@[0] + old(self).round_points <= usize::MAX,
            old(self).scores@[1] + old(self).round_points <= usize::MAX,
        ensures
            final(self).wf(),
            final(self).round_dealt(),
            final(self).playing_round ==> final(self).round_in_sync(),
            final(record)@.len() == old(record)@.len() + 1,
            final(record)@.drop_last() == old(record)@,
            final(record)@.last().player == p_idx,
            final(record)@.last().played == old(self).players@[p_idx as int].hand@[idx as int],
            final(record)@.last().hand@ == old(self).players@[p_idx as int].hand@,
            final(record)@.last().allowed@ == old(self).current_allowed_spec(),
            !final(self).playing_round ==> final(self).cards_left() == 0
                && final(self).tricks_done() == 5,
            final(self).players@[p_idx as int].hand@ == old(self).players@[p_idx
                as int].hand@.remove(idx as int),
            final(self).players@[p_idx as int].human == old(self).players@[p_idx as int].human,
            final(self).played@[p_idx as int]@ == old(self).played@[p_idx as int]@.push(
                slot_for(old(self).played@[p_idx as int]@, idx as int) as usize,
            ),
            forall|q: int|
                0 <= q < 4 && q != p_idx ==> (#[trigger] final(self).players@[q]) == old(
                    self,
                ).players@[q],
            forall|q: int|
                0 <= q < 4 && q != p_idx ==> (#[trigger] final(self).played@[q]) == old(
                    self,
                ).played@[q],
            final(self).dealer == if final(self).playing_round {
                old(self).dealer
            } else {
                ((old(self).dealer + 1) % 4) as usize
            },
            final(self).rechte == old(self).rechte,
            final(self).perm_range == old(self).perm_range,
            final(self).db == old(self).db,
            final(self).round_points == old(self).round_points,
            old(self).trick_pos < 3 ==> ({
                let g = *final(self);
                let o = *old(self);
                &&& g.playing_round
                &&& g.trick_pos == o.trick_pos + 1
                &&& g.trick_lead == o.trick_lead
                &&& g.tricks_won == o.tricks_won
                &&& g.scores == o.scores
                &&& g.current_trick@ == o.current_trick@.push(
                    (p_idx, o.players@[p_idx as int].hand@[idx as int]),
                )
            }),
            old(self).trick_pos == 3 ==> ({
                let plays = old(self).current_trick@.push(
                    (p_idx, old(self).players@[p_idx as int].hand@[idx as int]),
                );
                let winner = trick_winner(plays, old(self).rechte.unwrap());
                let team = (winner % 2) as int;
                &&& final(self).trick_pos == 0
                &&& final(self).current_trick@.len() == 0
                &&& final(self).trick_lead == winner
                &&& final(self).tricks_won@ == old(self).tricks_won@.update(
                    team,
                    (old(self).tricks_won@[team] + 1) as usize,
                )
                &&& (final(self).playing_round <==> old(self).tricks_done() < 4)
                &&& (old(self).tricks_done() == 4 ==> ({
                    let g = *final(self);
                    let o = *old(self);
                    g.scores@ == if g.tricks_won@[0] > g.tricks_won@[1] {
                        o.scores@.update(0, (o.scores@[0] + o.round_points) as usize)
                    } else {
                        o.scores@.update(1, (o.scores@[1] + o.round_points) as usize)
                    }
                }))
                &&& (old(self).tricks_done() < 4 ==> final(self).scores == old(self).scores)
            }),
    {
        let ghost played0 = self.played@[p_idx as int]@;
        let hand_before = copy_cards(&self.players[p_idx].hand);
        let allowed = self.current_allowed();
        let card = self.players[p_idx].hand.remove(idx);
        proof {
            lemma_slot_for_props(played0, idx as int);
            crate::perm::lemma_marks_of(played0, played0.len() as int);
            let v = slot_for(played0, idx as int);
            assert(self.orig_hands@[p_idx as int]@[v] == card);
            assert(!played0.contains(v as usize)) by {
                if played0.contains(v as usize) {
                    let w = choose|w: int| 0 <= w < played0.len() && played0[w] == v as usize;
                    assert(crate::perm::marks_of(played0, played0.len() as int)[v]);
                }
            }
        }
        let orig = self.find_orig_index(p_idx, card);
        proof {
            let v = slot_for(played0, idx as int);
            assert(orig == v as usize) by {
                if orig != v {
                    assert(self.orig_hands@[p_idx as int]@[orig as int] == self.orig_hands@[p_idx
                        as int]@[v]);
                }
            }
        }
        self.played[p_idx].push(orig);
        proof {
            lemma_slot_for_play(played0, idx as int, 5 - played0.len() as int);
        }
        record.push(
            RoundStep { player: p_idx, hand: hand_before, allowed, played: card },
        );
        proof {
            assert(record@.drop_last() =~= old(record)@);
        }
        self.current_trick.push((p_idx, card));
        self.trick_pos = self.trick_pos + 1;
        proof {
            // the hand bookkeeping still matches for every seat
            assert forall|q: int| 0 <= q < 4 implies hand_matches(
                self.orig_hands@[q]@,
                self.played@[q]@,
                (#[trigger] self.players@[q]).hand@,
            ) by {
                if q == p_idx {
                    let v = slot_for(played0, idx as int);
                    let played2 = self.played@[q]@;
                    assert(played2 == played0.push(v as usize));
                    let hand2 = self.players@[q].hand@;
                    assert forall|j: int| 0 <= j < hand2.len() implies #[trigger] hand2[j]
                        == self.orig_hands@[q]@[slot_for(played2, j)] by {
                        if j < idx {
                            assert(slot_for(played2, j) == slot_for(played0, j));
                        } else {
                            assert(slot_for(played2, j) == slot_for(played0, j + 1));
                        }
                    }
                }
            }
            assert forall|q: int| 0 <= q < 4 implies crate::perm::valid_prefix(
                #[trigger] self.played@[q]@,
            ) by {
                if q == p_idx {
                    lemma_slot_for_play(played0, idx as int, 5 - played0.len() as int);
                }
            }
        }
        if self.trick_pos == 4 {
            let ghost pre = *self;
            self.finish_trick();
            proof {
                if !self.playing_round {
                    assert forall|q: int| 0 <= q < 4 implies (
                    #[trigger] self.players@[q]).hand@.len() == 0 by {
                        let off0 = (q - old(self).trick_lead + 4) % 4;
                        assert(0 <= off0 < 4);
                        assert((old(self).trick_lead + off0) % 4 == q);
                        assert(pre.players@[q].hand@.len() == 0);
                    }
                    assert(self.cards_left() == 0) by {
                        assert(self.players@[0].hand@.len() == 0);
                        assert(self.players@[1].hand@.len() == 0);
                        assert(self.players@[2].hand@.len() == 0);
                        assert(self.players@[3].hand@.len() == 0);
                    }
                }
                if self.playing_round {
                    assert forall|off: int| 0 <= off < 4 implies (#[trigger] self.players@[(
                    self.trick_lead + off) % 4]).hand@.len() == 5 - self.tricks_done() - if off
                        < self.trick_pos {
                        1int
                    } else {
                        0int
                    } by {
                        let q = (self.trick_lead + off) % 4;
                        let off0 = (q - old(self).trick_lead + 4) % 4;
                        assert(0 <= off0 < 4);
                        assert((old(self).trick_lead + off0) % 4 == q);
                    }
                }
            }
        } else {
            proof {
                assert forall|off: int| 0 <= off < 4 implies (#[trigger] self.players@[(
                self.trick_lead + off) % 4]).hand@.len() == 5 - self.tricks_done() - if off
                    < self.trick_pos {
                    1int
                } else {
                    0int
                } by {
                    let q = (self.trick_lead + off) % 4;
                    if q == p_idx {
                        assert(off == old(self).trick_pos) by {
                            if off != old(self).trick_pos {
                                lemma_mod4_offsets(self.trick_lead as int, off, old(
                                    self,
                                ).trick_pos as int);
                            }
                        }
                    }
                }
            }
        }
    }

    /// How many cards remain in all four live hands together.
    pub open spec fn cards_left(self) -> int {
        self.players@[0].hand@.len() + self.players@[1].hand@.len() + self.players@[2].hand@.len()
            + self.players@[3].hand@.len() as int
    }

    /// Let every bot whose turn it is play its best card, until a human's
    /// turn arrives or the round completes. Returns the round outcome once
    /// the round is over, `None` while a human still has to move.
    #[verifier::rlimit(100)]
    #[verifier::spinoff_prover]
    fn advance_bots_internal(&mut self, record: &mut Vec<RoundStep>) -> (r: Option<GameResult>)
        requires
            old(self).wf(),
            old(self).round_dealt(),
            old(self).playing_round ==> old(self).round_in_sync(),
            old(self).scores@[0] + old(self).round_points <= usize::MAX,
            old(self).scores@[1] + old(self).round_points <= usize::MAX,
        ensures
            final(self).wf(),
            final(self).round_dealt(),
            final(self).playing_round ==> final(self).round_in_sync(),
            r is None <==> final(self).playing_round,
            r is None ==> final(self).players@[final(self).current_player_spec()].human,
            r is Some ==> r == Some(
                if final(self).tricks_won@[0] > final(self).tricks_won@[1] {
                    GameResult::Team1Win
                } else {
                    GameResult::Team2Win
                },
            ),
            old(self).playing_round && r is Some ==> ({
                let g = *final(self);
                let o = *old(self);
                g.scores@ == if g.tricks_won@[0] > g.tricks_won@[1] {
                    o.scores@.update(0, (o.scores@[0] + o.round_points) as usize)
                } else {
                    o.scores@.update(1, (o.scores@[1] + o.round_points) as usize)
                }
            }),
            old(self).playing_round && r is Some ==> final(self).tricks_done() == 5
                && final(self).cards_left() == 0 && final(self).dealer == ((old(self).dealer + 1)
                % 4) as usize,
            !old(self).playing_round ==> *final(self) == *old(self),
            final(self).rechte == old(self).rechte,
            final(self).round_points == old(self).round_points,
            final(self).db == old(self).db,
            forall|q: int|
                0 <= q < 4 ==> (#[trigger] final(self).players@[q]).human == old(
                    self,
                ).players@[q].human,
            forall|q: int|
                0 <= q < 4 ==> (#[trigger] final(self).played@[q]@).len() >= old(
                    self,
                ).played@[q]@.len() && final(self).played@[q]@.subrange(
                    0,
                    old(self).played@[q]@.len() as int,
                ) == old(self).played@[q]@,
            final(record)@.len() == old(record)@.len() + old(self).cards_left()
                - final(self).cards_left(),
            final(record)@.subrange(0, old(record)@.len() as int) == old(record)@,
            forall|k: int|
                old(record)@.len() <= k < final(record)@.len() ==> ({
                    let s = (#[trigger] final(record)@[k]);
                    s.player < 4 && !old(self).players@[s.player as int].human
                        && step_is_legal_play(s)
                }),
    {
        while self.playing_round
            invariant
                self.wf(),
                self.round_dealt(),
                self.playing_round ==> self.round_in_sync(),
                self.playing_round ==> self.scores == old(self).scores,
                old(self).scores@[0] + old(self).round_points <= usize::MAX,
                old(self).scores@[1] + old(self).round_points <= usize::MAX,
                self.rechte == old(self).rechte,
                self.round_points == old(self).round_points,
                self.db == old(self).db,
                old(self).playing_round ==> self.playing_round || ({
                    let g = *self;
                    let o = *old(self);
                    g.scores@ == if g.tricks_won@[0] > g.tricks_won@[1] {
                        o.scores@.update(0, (o.scores@[0] + o.round_points) as usize)
                    } else {
                        o.scores@.update(1, (o.scores@[1] + o.round_points) as usize)
                    }
                }),
                !old(self).playing_round ==> *self == *old(self),
                self.playing_round ==> self.dealer == old(self).dealer,
                old(self).playing_round && !self.playing_round ==> self.tricks_done() == 5
                    && self.cards_left() == 0 && self.dealer == ((old(self).dealer + 1)
                    % 4) as usize,
                forall|q: int|
                    0 <= q < 4 ==> (#[trigger] self.players@[q]).human == old(
                        self,
                    ).players@[q].human,
                forall|q: int|
                    0 <= q < 4 ==> (#[trigger] self.played@[q]@).len() >= old(
                        self,
                    ).played@[q]@.len() && self.played@[q]@.subrange(
                        0,
                        old(self).played@[q]@.len() as int,
                    ) == old(self).played@[q]@,
                self.cards_left() <= old(self).cards_left(),
                record@.len() == old(record)@.len() + old(self).cards_left() - self.cards_left(),
                record@.subrange(0, old(record)@.len() as int) == old(record)@,
                forall|k: int|
                    old(record)@.len() <= k < record@.len() ==> (#[trigger] record@[k]).player < 4
                        && !old(self).players@[record@[k].player as int].human
                        && step_is_legal_play(record@[k]),
            decreases self.cards_left(),
        {
            proof {
                assert(old(self).playing_round);
            }
            let p = self.current_player();
            if self.players[p].human {
                return None;
            }
            let allowed = self.current_allowed();
            proof {
                assert(self.players@[p as int].hand@.len() >= 1) by {
                    assert(self.players@[(self.trick_lead + self.trick_pos as int) % 4].hand@.len()
                        == 5 - self.tricks_done());
                }
            }
            let idx = self.best_card_index(p, allowed.as_slice());
            let ghost kwit = choose|k: int|
                0 <= k < allowed@.len() && #[trigger] allowed@[k] == idx && (forall|j: int|
                    0 <= j < allowed@.len() ==> !rate_lt(
                        self.card_rate(p as int, allowed@[k] as int),
                        self.card_rate(p as int, allowed@[j] as int),
                    )) && (forall|j: int|
                    0 <= j < k ==> rate_lt(
                        self.card_rate(p as int, allowed@[j] as int),
                        self.card_rate(p as int, allowed@[k] as int),
                    ));
            proof {
                assert(allowed@[kwit] == idx);
                assert(idx < self.players@[p as int].hand@.len());
            }
            let ghost mid = *self;
            let ghost rec_mid = record@;
            self.play_internal(p, idx, record);
            proof {
                let s = record@.last();
                assert(record@.drop_last() == rec_mid);
                assert(s.player == p && s.hand@ == mid.players@[p as int].hand@ && s.allowed@
                    == mid.current_allowed_spec());
                assert(s.allowed@ == allowed@);
                assert(step_is_legal_play(s)) by {
                    assert(0 <= kwit < s.allowed@.len() && s.allowed@[kwit] == idx);
                    assert(s.allowed@[kwit] < s.hand@.len());
                    assert(s.played == s.hand@[s.allowed@[kwit] as int]);
                }
                assert(record@.subrange(0, old(record)@.len() as int) =~= old(record)@) by {
                    assert(rec_mid.len() >= old(record)@.len());
                    assert(forall|t: int| 0 <= t < rec_mid.len() ==> record@[t] == rec_mid[t]);
                    assert(rec_mid.subrange(0, old(record)@.len() as int) == old(record)@);
                    assert(forall|t: int|
                        0 <= t < old(record)@.len() ==> rec_mid[t] == old(record)@[t]);
                }
                assert forall|k: int|
                    old(record)@.len() <= k < record@.len() implies (#[trigger] record@[k]).player
                    < 4 && !old(self).players@[record@[k].player as int].human
                    && step_is_legal_play(record@[k]) by {
                    if k < rec_mid.len() {
                        assert(record@[k] == rec_mid[k]);
                    } else {
                        assert(record@[k] == s);
                        assert(!old(self).players@[p as int].human) by {
                            assert(!mid.players@[p as int].human);
                        }
                    }
                }
                assert forall|q: int|
                    0 <= q < 4 implies (#[trigger] self.played@[q]@).len() >= old(
                    self,
                ).played@[q]@.len() && self.played@[q]@.subrange(
                    0,
                    old(self).played@[q]@.len() as int,
                ) == old(self).played@[q]@ by {
                    if q == p {
                        assert(self.played@[q]@ == mid.played@[q]@.push(
                            slot_for(mid.played@[q]@, idx as int) as usize,
                        ));
                        assert(forall|t: int|
                            0 <= t < mid.played@[q]@.len() ==> self.played@[q]@[t]
                                == mid.played@[q]@[t]);
                        assert(self.played@[q]@.subrange(0, old(self).played@[q]@.len() as int)
                            =~= mid.played@[q]@.subrange(0, old(self).played@[q]@.len() as int));
                    } else {
                        assert(self.played@[q] == mid.played@[q]);
                    }
                }
                if !self.playing_round {
                    assert(mid.trick_pos == 3);
                    assert(mid.tricks_done() == 4);
                    assert(self.scores@ == if self.tricks_won@[0] > self.tricks_won@[1] {
                        mid.scores@.update(0, (mid.scores@[0] + mid.round_points) as usize)
                    } else {
                        mid.scores@.update(1, (mid.scores@[1] + mid.round_points) as usize)
                    });
                    assert(mid.scores@ == old(self).scores@);
                    assert(mid.round_points == old(self).round_points);
                }
            }
        }
        Some(
            if self.tricks_won[0] > self.tricks_won[1] {
                GameResult::Team1Win
            } else {
                GameResult::Team2Win
            },
        )
    }

    /// Let every bot whose turn it is play its best card, until a human's
    /// turn arrives or the round completes, and report the plays made.
    pub fn advance_bots(&mut self) -> (res: (Option<GameResult>, Vec<RoundStep>))
        requires
            old(self).wf(),
            old(self).round_dealt(),
            old(self).playing_round ==> old(self).round_in_sync(),
            old(self).scores@[0] + old(self).round_points <= usize::MAX,
            old(self).scores@[1] + old(self).round_points <= usize::MAX,
        ensures
            final(self).wf(),
            final(self).round_dealt(),
            final(self).playing_round ==> final(self).round_in_sync(),
            res.0 is None <==> final(self).playing_round,
            res.0 is None ==> final(self).players@[final(self).current_player_spec()].human,
            res.0 is Some ==> res.0 == Some(
                if final(self).tricks_won@[0] > final(self).tricks_won@[1] {
                    GameResult::Team1Win
                } else {
                    GameResult::Team2Win
                },
            ),
            old(self).playing_round && res.0 is Some ==> ({
                let g = *final(self);
                let o = *old(self);
                &&& g.tricks_done() == 5
                &&& g.cards_left() == 0
                &&& g.dealer == ((o.dealer + 1) % 4) as usize
                &&& g.scores@ == if g.tricks_won@[0] > g.tricks_won@[1] {
                    o.scores@.update(0, (o.scores@[0] + o.round_points) as usize)
                } else {
                    o.scores@.update(1, (o.scores@[1] + o.round_points) as usize)
                }
            }),
            !old(self).playing_round ==> *final(self) == *old(self),
            final(self).round_points == old(self).round_points,
            res.1@.len() == old(self).cards_left() - final(self).cards_left(),
            forall|k: int|
                0 <= k < res.1@.len() ==> ({
                    let s = (#[trigger] res.1@[k]);
                    s.player < 4 && !old(self).players@[s.player as int].human
                        && step_is_legal_play(s)
                }),
    {
        let mut log: Vec<RoundStep> = Vec::new();
        let result = self.advance_bots_internal(&mut log);
        (result, log)
    }

    /// Apply a human's chosen play for the seat whose turn it is, then let
    /// the bots play on until the next human turn or the end of the round.
    pub fn human_play(&mut self, idx: usize) -> (res: (Option<GameResult>, Vec<RoundStep>))
        requires
            old(self).wf(),
            old(self).round_dealt(),
            old(self).playing_round,
            old(self).round_in_sync(),
            idx < old(self).players@[old(self).current_player_spec()].hand@.len(),
            old(self).scores@[0] + old(self).round_points <= usize::MAX,
            old(self).scores@[1] + old(self).round_points <= usize::MAX,
        ensures
            final(self).wf(),
            final(self).round_dealt(),
            final(self).playing_round ==> final(self).round_in_sync(),
            res.0 is None <==> final(self).playing_round,
            res.0 is None ==> final(self).players@[final(self).current_player_spec()].human,
            res.0 is Some ==> res.0 == Some(
                if final(self).tricks_won@[0] > final(self).tricks_won@[1] {
                    GameResult::Team1Win
                } else {
                    GameResult::Team2Win
                },
            ),
            res.1@.len() >= 1,
            res.1@.len() == old(self).cards_left() - final(self).cards_left(),
            ({
                let s = res.1@[0];
                let o = *old(self);
                let p0 = o.current_player_spec();
                &&& s.player as int == p0
                &&& s.hand@ == o.players@[p0].hand@
                &&& s.allowed@ == o.current_allowed_spec()
                &&& s.played == o.players@[p0].hand@[idx as int]
            }),
            forall|k: int|
                1 <= k < res.1@.len() ==> ({
                    let s = (#[trigger] res.1@[k]);
                    s.player < 4 && !old(self).players@[s.player as int].human
                        && step_is_legal_play(s)
                }),
            ({
                let o = *old(self);
                let p0 = o.current_player_spec();
                let committed = o.played@[p0]@.push(
                    slot_for(o.played@[p0]@, idx as int) as usize,
                );
                final(self).played@[p0]@.len() >= committed.len()
                    && final(self).played@[p0]@.subrange(0, committed.len() as int) == committed
            }),
    {
        let mut log: Vec<RoundStep> = Vec::new();
        let p = self.current_player();
        self.play_internal(p, idx, &mut log);
        let ghost mid = *self;
        let ghost log_mid = log@;
        proof {
            assert(log@.len() == 1);
            assert(log@.drop_last() =~= Seq::<RoundStep>::empty());
            assert(log@[0] == log@.last());
        }
        if self.playing_round {
            let result = self.advance_bots_internal(&mut log);
            proof {
                assert(log@.subrange(0, 1) == log_mid);
                assert(log@[0] == log_mid[0]);
                assert forall|q: int|
                    0 <= q < 4 implies (#[trigger] self.played@[q]@).len()
                    >= mid.played@[q]@.len() && self.played@[q]@.subrange(
                    0,
                    mid.played@[q]@.len() as int,
                ) == mid.played@[q]@ by {}
                assert(self.played@[p as int]@.subrange(0, mid.played@[p as int]@.len() as int)
                    == mid.played@[p as int]@);
            }
            (result, log)
        } else {
            let result = if self.tricks_won[0] > self.tricks_won[1] {
                GameResult::Team1Win
            } else {
                GameResult::Team2Win
            };
            proof {
                assert(self.played@[p as int]@.subrange(
                    0,
                    self.played@[p as int]@.len() as int,
                ) =~= self.played@[p as int]@);
            }
            (Some(result), log)
        }
    }

    /// Play one whole round among bots: deal, populate the store, let each
    /// seat play its best card through all five tricks, score the round, and
    /// report the outcome and the full play-by-play log.
    pub fn play_round_logged(&mut self) -> (res: (GameResult, Vec<RoundStep>))
        requires
            old(self).wf(),
            forall|p: int| 0 <= p < 4 ==> !(#[trigger] old(self).players@[p]).human,
            old(self).scores@[0] + ROUND_POINTS <= usize::MAX,
            old(self).scores@[1] + ROUND_POINTS <= usize::MAX,
        ensures
            final(self).wf(),
            !final(self).playing_round,
            res.0 == if final(self).tricks_won@[0] > final(self).tricks_won@[1] {
                GameResult::Team1Win
            } else {
                GameResult::Team2Win
            },
            final(self).scores@ == if final(self).tricks_won@[0] > final(self).tricks_won@[1] {
                old(self).scores@.update(0, (old(self).scores@[0] + ROUND_POINTS) as usize)
            } else {
                old(self).scores@.update(1, (old(self).scores@[1] + ROUND_POINTS) as usize)
            },
            final(self).tricks_done() == 5,
            final(self).cards_left() == 0,
            final(self).dealer == ((old(self).dealer + 1) % 4) as usize,
            final(self).round_points == ROUND_POINTS,
            res.1@.len() == 20,
            forall|k: int|
                0 <= k < res.1@.len() ==> ({
                    let s = (#[trigger] res.1@[k]);
                    s.player < 4 && step_is_legal_play(s)
                }),
    {
        self.start_round_interactive();
        proof {
            assert(self.cards_left() == 20) by {
                assert(self.players@[0].hand@.len() == 5);
                assert(self.players@[1].hand@.len() == 5);
                assert(self.players@[2].hand@.len() == 5);
                assert(self.players@[3].hand@.len() == 5);
            }
        }
        let mut log: Vec<RoundStep> = Vec::new();
        let result = self.advance_bots_internal(&mut log);
        match result {
            Some(r) => (r, log),
            None => {
                proof {
                    assert(false);
                }
                vstd::pervasive::unreached()
            },
        }
    }

    /// Resolve the completed trick on the table: the strongest play wins, the
    /// winner's team takes the trick and leads next; the fifth trick ends the
    /// round.
    fn finish_trick(&mut self)
        requires
            old(self).dealer < 4,
            old(self).trick_lead < 4,
            old(self).playing_round,
            old(self).rechte is Some,
            old(self).trick_pos == 4,
            old(self).current_trick@.len() == 4,
            forall|k: int|
                0 <= k < 4 ==> ((#[trigger] old(self).current_trick@[k]).0) == ((old(
                    self,
                ).trick_lead + k) % 4) as usize,
            old(self).tricks_done() <= 4,
            forall|off: int|
                0 <= off < 4 ==> (#[trigger] old(self).players@[(old(self).trick_lead + off)
                    % 4]).hand@.len() == 5 - old(self).tricks_done() - 1,
            old(self).scores@[0] + old(self).round_points <= usize::MAX,
            old(self).scores@[1] + old(self).round_points <= usize::MAX,
        ensures
            ({
                let winner = trick_winner(old(self).current_trick@, old(self).rechte.unwrap());
                let team = (winner % 2) as int;
                &&& final(self).trick_lead == winner
                &&& final(self).trick_lead < 4
                &&& final(self).trick_pos == 0
                &&& final(self).current_trick@.len() == 0
                &&& final(self).tricks_won@ == old(self).tricks_won@.update(
                    team,
                    (old(self).tricks_won@[team] + 1) as usize,
                )
                &&& (final(self).playing_round <==> old(self).tricks_done() < 4)
                &&& final(self).tricks_done() == old(self).tricks_done() + 1
                &&& final(self).dealer == if old(self).tricks_done() < 4 {
                    old(self).dealer
                } else {
                    ((old(self).dealer + 1) % 4) as usize
                }
                &&& (old(self).tricks_done() == 4 ==> ({
                    let g = *final(self);
                    let o = *old(self);
                    g.scores@ == if g.tricks_won@[0] > g.tricks_won@[1] {
                        o.scores@.update(0, (o.scores@[0] + o.round_points) as usize)
                    } else {
                        o.scores@.update(1, (o.scores@[1] + o.round_points) as usize)
                    }
                }))
                &&& (old(self).tricks_done() < 4 ==> final(self).scores == old(self).scores)
                &&& final(self).players == old(self).players
                &&& final(self).played == old(self).played
                &&& final(self).orig_hands == old(self).orig_hands
                &&& final(self).rechte == old(self).rechte
                &&& final(self).db == old(self).db
                &&& final(self).perm_range == old(self).perm_range
                &&& final(self).round_points == old(self).round_points
                &&& final(self).workers == old(self).workers
                &&& final(self).last_raiser == old(self).last_raiser
            }),
    {
        let rechte = self.rechte.unwrap();
        let ghost plays = self.current_trick@;
        let lead_suit = self.current_trick[0].1.suit;
        let mut best: usize = 0;
        let first_card = self.current_trick[0].1;
        let mut best_score = card_strength(&first_card, lead_suit, rechte, 0);
        for p in 1..4
            invariant
                plays == self.current_trick@,
                plays.len() == 4,
                lead_suit == plays[0].1.suit,
                rechte == old(self).rechte.unwrap(),
                1 <= p,
                best < p,
                best as int == best_play_up_to(plays, rechte, p as int),
                best_score as int == play_strength(plays, rechte, best as int),
        {
            let entry = self.current_trick[p];
            let val = card_strength(&entry.1, lead_suit, rechte, p);
            if val > best_score {
                best = p;
                best_score = val;
            }
        }
        let winner_idx = self.current_trick[best].0;
        proof {
            lemma_best_play_in_range(plays, rechte, 4);
            assert(winner_idx == trick_winner(plays, rechte));
            assert(winner_idx == ((self.trick_lead + best) % 4) as usize);
            assert(winner_idx < 4);
        }
        let team = winner_idx % 2;
        self.tricks_won[team] = self.tricks_won[team] + 1;
        self.trick_lead = winner_idx;
        self.trick_pos = 0;
        self.current_trick = Vec::new();
        proof {
            assert(self.tricks_won@ =~= old(self).tricks_won@.update(
                team as int,
                (old(self).tricks_won@[team as int] + 1) as usize,
            ));
        }
        if self.tricks_won[0] + self.tricks_won[1] == TRICKS_PER_ROUND {
            self.finish_round();
        }
    }

    /// Score the finished round: the team with the trick majority receives
    /// the round's point value, and the deal rotates one seat.
    fn finish_round(&mut self)
        requires
            old(self).dealer < 4,
            old(self).scores@[0] + old(self).round_points <= usize::MAX,
            old(self).scores@[1] + old(self).round_points <= usize::MAX,
        ensures
            !final(self).playing_round,
            final(self).dealer == ((old(self).dealer + 1) % 4) as usize,
            final(self).scores@ == if old(self).tricks_won@[0] > old(self).tricks_won@[1] {
                old(self).scores@.update(0, (old(self).scores@[0] + old(self).round_points) as usize)
            } else {
                old(self).scores@.update(1, (old(self).scores@[1] + old(self).round_points) as usize)
            },
            *final(self) == (GameState {
                playing_round: false,
                dealer: final(self).dealer,
                scores: final(self).scores,
                ..*old(self)
            }),
    {
        self.playing_round = false;
        self.dealer = (self.dealer + 1) % 4;
        if self.tricks_won[0] > self.tricks_won[1] {
            self.scores[0] = self.scores[0] + self.round_points;
        } else {
            self.scores[1] = self.scores[1] + self.round_points;
        }
        proof {
            if old(self).tricks_won@[0] > old(self).tricks_won@[1] {
                assert(self.scores@ =~= old(self).scores@.update(
                    0,
                    (old(self).scores@[0] + old(self).round_points) as usize,
                ));
            } else {
                assert(self.scores@ =~= old(self).scores@.update(
                    1,
                    (old(self).scores@[1] + old(self).round_points) as usize,
                ));
            }
        }
    }

    /// Deal a fresh round: reset the round's point value, shuffle and deal
    /// five cards to each seat, draw the rechte from the dealer's and the
    /// next seat's first cards, and fill the outcome store for the deal.
    pub fn start_round(&mut self)
        requires
            old(self).wf(),
        ensures
            final(self).wf(),
            final(self).round_dealt(),
            final(self).round_points == ROUND_POINTS,
            final(self).last_raiser is None,
            forall|p: int| 0 <= p < 4 ==> (#[trigger] final(self).played@[p]@).len() == 0,
            forall|p: int| 0 <= p < 4 ==> (#[trigger] final(self).players@[p]).hand@.len() == 5,
            forall|p: int|
                0 <= p < 4 ==> (#[trigger] final(self).players@[p]).human
                    == old(self).players@[p].human,
            ({
                let g = *final(self);
                g.rechte matches Some(c) && c.suit == g.orig_hands@[g.dealer as int]@[0].suit
                    && c.rank == g.orig_hands@[((g.dealer + 1) % 4) as int]@[0].rank
            }),
            final(self).db.stored() == populated_map(
                final(self).orig_hands,
                old(self).dealer as int,
                final(self).rechte.unwrap(),
                effective_indices(old(self).perm_range),
            ),
            final(self).dealer == old(self).dealer,
            final(self).scores == old(self).scores,
            final(self).perm_range == old(self).perm_range,
            final(self).workers == old(self).workers,
            final(self).playing_round == old(self).playing_round,
            final(self).trick_lead == old(self).trick_lead,
            final(self).trick_pos == old(self).trick_pos,
            final(self).tricks_won == old(self).tricks_won,
            final(self).current_trick == old(self).current_trick,
            forall|p1: int, i1: int, p2: int, i2: int|
                #![trigger final(self).orig_hands@[p1]@[i1], final(self).orig_hands@[p2]@[i2]]
                0 <= p1 < 4 && 0 <= i1 < 5 && 0 <= p2 < 4 && 0 <= i2 < 5 && (p1 != p2 || i1 != i2)
                    ==> final(self).orig_hands@[p1]@[i1] != final(self).orig_hands@[p2]@[i2],
            forall|p: int, i: int|
                0 <= p < 4 && 0 <= i < 5 ==> exists|k: int|
                    0 <= k < 33 && #[trigger] final(self).orig_hands@[p]@[i] == crate::deck_card(k),
    {
        self.round_points = ROUND_POINTS;
        self.last_raiser = None;
        let mut cards = crate::deck();
        proof {
            crate::lemma_deck_cards_distinct();
            assert(cards@.no_duplicates()) by {
                assert forall|i: int, j: int|
                    0 <= i < cards@.len() && 0 <= j < cards@.len() && i != j implies cards@[i]
                    != cards@[j] by {
                    assert(cards@[i] == crate::deck_card(i) && cards@[j] == crate::deck_card(j));
                }
            }
            cards@.lemma_multiset_has_no_duplicates();
        }
        let ghost before = cards@;
        crate::shuffle(&mut cards);
        proof {
            assert(cards@.no_duplicates()) by {
                assert(forall|x: Card|
                    cards@.to_multiset().contains(x) ==> #[trigger] cards@.to_multiset().count(x)
                        == 1);
                cards@.lemma_multiset_has_no_duplicates_conv();
            }
            broadcast use vstd::seq_lib::group_to_multiset_ensures;

            assert(cards@.len() == 33);
        }
        let dummy = Card { suit: Suit::Hearts, rank: Rank::Seven };
        let dealer = self.dealer;
        for s in 0..4
            invariant
                cards@.len() == 33,
                cards@.no_duplicates(),
                dealer == self.dealer && dealer < 4,
                self.rechte == old(self).rechte,
                self.round_points == ROUND_POINTS,
                self.last_raiser is None,
                self.scores == old(self).scores,
                self.perm_range == old(self).perm_range,
                self.workers == old(self).workers,
                self.playing_round == old(self).playing_round,
                self.trick_lead == old(self).trick_lead,
                self.trick_pos == old(self).trick_pos,
                self.tricks_won == old(self).tricks_won,
                self.current_trick == old(self).current_trick,
                self.db == old(self).db,
                old(self).wf(),
                forall|p: int|
                    0 <= p < 4 ==> (#[trigger] self.players@[p]).human == old(
                        self,
                    ).players@[p].human,
                forall|p: int| s <= p < 4 ==> (#[trigger] self.players@[p]).hand@.len() <= 5,
                forall|p: int| s <= p < 4 ==> #[trigger] self.played@[p] == old(self).played@[p],
                forall|p: int| 0 <= p < s ==> (#[trigger] self.played@[p]@).len() == 0,
                forall|p: int| 0 <= p < s ==> (#[trigger] self.players@[p]).hand@.len() == 5,
                forall|p: int|
                    0 <= p < s ==> (#[trigger] self.players@[p]).hand@ == self.orig_hands@[p]@,
                forall|p: int|
                    0 <= p < s ==> seat_row_ok(
                        cards@,
                        dealer as int,
                        p,
                        #[trigger] self.orig_hands@[p]@,
                    ),
        {
            let j = (s + 4 - (dealer + 1) % 4) % 4;
            let human = self.players[s].human;
            let mut hand: Vec<Card> = Vec::new();
            let mut row = [dummy, dummy, dummy, dummy, dummy];
            for i in 0..5
                invariant
                    j < 4,
                    cards@.len() == 33,
                    hand@.len() == i,
                    row@.len() == 5,
                    forall|k: int| 0 <= k < i ==> #[trigger] hand@[k] == cards@[4 * k + j],
                    forall|k: int| 0 <= k < i ==> #[trigger] row@[k] == cards@[4 * k + j],
            {
                let c = cards[i * 4 + j];
                proof {
                    assert(4 * (i as int) + j == i * 4 + j);
                }
                let ghost hand0 = hand@;
                let ghost row0 = row@;
                hand.push(c);
                row[i] = c;
                proof {
                    assert forall|k: int| 0 <= k < i + 1 implies #[trigger] hand@[k] == cards@[4
                        * k + j] by {
                        if k == i {
                            assert(hand@[k] == c);
                        } else {
                            assert(hand@[k] == hand0[k]);
                        }
                    }
                    assert forall|k: int| 0 <= k < i + 1 implies #[trigger] row@[k] == cards@[4 * k
                        + j] by {
                        if k == i {
                            assert(row@[k] == c);
                        } else {
                            assert(row@[k] == row0[k]);
                        }
                    }
                }
            }
            self.players[s] = Player { hand, human };
            self.orig_hands[s] = row;
            self.played[s] = Vec::new();
            proof {
                assert(self.players@[s as int].hand@ =~= self.orig_hands@[s as int]@);
                assert(seat_row_ok(cards@, dealer as int, s as int, self.orig_hands@[s as int]@))
                    by {
                    assert(j == (s as int + 4 - (dealer as int + 1) % 4) % 4);
                }
            }
        }
        proof {
            assert forall|p: int, i: int, j2: int|
                0 <= p < 4 && 0 <= i < j2 < 5 implies (#[trigger] self.orig_hands@[p]@[i]) != (
            #[trigger] self.orig_hands@[p]@[j2]) by {
                let jj = (p + 4 - (dealer as int + 1) % 4) % 4;
                assert(self.orig_hands@[p]@[i] == cards@[4 * i + jj]);
                assert(self.orig_hands@[p]@[j2] == cards@[4 * j2 + jj]);
                assert(4 * i + jj != 4 * j2 + jj);
            }
        }
        let dealer_card = self.players[dealer].hand[0];
        let next_idx = (dealer + 1) % 4;
        let next_card = self.players[next_idx].hand[0];
        self.rechte = Some(Card::new(dealer_card.suit, next_card.rank));
        proof {
            assert forall|p: int| 0 <= p < 4 implies hand_matches(
                self.orig_hands@[p]@,
                self.played@[p]@,
                (#[trigger] self.players@[p]).hand@,
            ) by {
                assert(self.played@[p]@ =~= Seq::<usize>::empty());
                assert forall|jx: int| 0 <= jx < 5 implies #[trigger] self.players@[p].hand@[jx]
                    == self.orig_hands@[p]@[slot_for(self.played@[p]@, jx)] by {
                    lemma_slot_for_empty(jx);
                }
            }
            assert forall|p: int| 0 <= p < 4 implies crate::perm::valid_prefix(
                #[trigger] self.played@[p]@,
            ) by {
                assert(self.played@[p]@.len() == 0);
            }
            // the twenty dealt cards are pairwise distinct across the seats
            assert forall|p1: int, i1: int, p2: int, i2: int|
                #![trigger self.orig_hands@[p1]@[i1], self.orig_hands@[p2]@[i2]]
                0 <= p1 < 4 && 0 <= i1 < 5 && 0 <= p2 < 4 && 0 <= i2 < 5 && (p1 != p2 || i1 != i2)
                    implies self.orig_hands@[p1]@[i1] != self.orig_hands@[p2]@[i2] by {
                let j1 = (p1 + 4 - (dealer as int + 1) % 4) % 4;
                let j2x = (p2 + 4 - (dealer as int + 1) % 4) % 4;
                assert(self.orig_hands@[p1]@[i1] == cards@[4 * i1 + j1]);
                assert(self.orig_hands@[p2]@[i2] == cards@[4 * i2 + j2x]);
                assert(p1 != p2 ==> j1 != j2x);
                assert(4 * i1 + j1 != 4 * i2 + j2x);
            }
            // and every dealt card came out of the full deck
            assert forall|p: int, i: int| 0 <= p < 4 && 0 <= i < 5 implies exists|k: int|
                0 <= k < 33 && #[trigger] self.orig_hands@[p]@[i] == crate::deck_card(k) by {
                broadcast use vstd::seq_lib::group_to_multiset_ensures;

                let jj = (p + 4 - (dealer as int + 1) % 4) % 4;
                let c = self.orig_hands@[p]@[i];
                assert(c == cards@[4 * i + jj]);
                assert(cards@.contains(c));
                assert(cards@.to_multiset().count(c) > 0);
                assert(before.to_multiset().count(c) > 0);
                assert(before.contains(c));
                let k = choose|k: int| 0 <= k < before.len() && before[k] == c;
                assert(0 <= k < 33 && c == crate::deck_card(k));
            }
        }
        self.populate_database();
    }

    /// Rebuild the outcome store for the current deal: simulate every
    /// combination of covered permutation indices across the four seats and
    /// record each outcome. The flattened combination space is partitioned
    /// among worker shares by stride; the recorded contents are a function of
    /// the deal and covered indices alone, independent of the partitioning.
    #[verifier::rlimit(50)]
    fn populate_database(&mut self)
        requires
            old(self).wf(),
            old(self).rechte is Some,
        ensures
            final(self).db.stored() == populated_map(
                old(self).orig_hands,
                old(self).dealer as int,
                old(self).rechte.unwrap(),
                effective_indices(old(self).perm_range),
            ),
            *final(self) == (GameState { db: final(self).db, ..*old(self) }),
    {
        let ghost idxs = effective_indices(old(self).perm_range);
        let ghost target = populated_map(
            old(self).orig_hands,
            old(self).dealer as int,
            old(self).rechte.unwrap(),
            idxs,
        );
        self.db.clear();
        let perms = crate::perm::all_hand_orders();
        let rechte = self.rechte.unwrap();
        let indices: Vec<usize> = match &self.perm_range {
            Some(r) => r.clone(),
            None => crate::database::range_to_vec(0, 120),
        };
        proof {
            assert(indices@ == idxs);
        }
        let n = indices.len();
        if n == 0 {
            proof {
                assert(forall|x: usize| !(#[trigger] idxs.contains(x)));
                assert forall|key: u32| !target.contains_key(key) by {}
                assert(self.db.stored() =~= target);
            }
            return ;
        }
        proof {
            assert(n * n <= 14400) by (nonlinear_arith)
                requires
                    n <= 120,
            ;
        }
        let n2 = n * n;
        proof {
            assert(n2 * n <= 1728000) by (nonlinear_arith)
                requires
                    n <= 120 && n2 <= 14400,
            ;
        }
        let n3 = n2 * n;
        proof {
            assert(n3 * n <= 207360000) by (nonlinear_arith)
                requires
                    n <= 120 && n3 <= 1728000,
            ;
        }
        let total = n3 * n;
        proof {
            assert(n2 >= 1 && n3 >= 1) by (nonlinear_arith)
                requires
                    n >= 1 && n2 == n * n && n3 == n2 * n,
            ;
            assert(total >= 1) by (nonlinear_arith)
                requires
                    n3 >= 1 && n >= 1 && total == n3 * n,
            ;
        }
        let stride = if self.workers <= total {
            self.workers
        } else {
            total
        };
        let ghost hands0 = old(self).orig_hands;
        let ghost dealer0 = old(self).dealer;
        for worker in 0..stride
            invariant
                n == idxs.len() && 1 <= n <= 120 && indices@ == idxs,
                forall|k: int| 0 <= k < idxs.len() ==> idxs[k] < 120,
                n2 == n * n && n3 == n2 * n && total == n3 * n && total <= 207360000,
                1 <= stride <= total,
                perms@.len() == 120,
                forall|k: int|
                    0 <= k < 120 ==> crate::perm::is_permutation5(#[trigger] perms@[k]@)
                        && crate::perm::perm_index_of(perms@[k]@) == k,
                hands0 == old(self).orig_hands && dealer0 == old(self).dealer && dealer0 < 4,
                old(self).rechte == Some(rechte),
                *self == (GameState { db: self.db, ..*old(self) }),
                target == populated_map(hands0, dealer0 as int, rechte, idxs),
                forall|key: u32|
                    #[trigger] self.db.stored().contains_key(key) ==> target.contains_key(key)
                        && self.db.stored()[key] == target[key],
                forall|mm: int|
                    0 <= mm < total && mm % (stride as int) < worker
                        ==> self.db.stored().contains_key(#[trigger] flat_key(idxs, n as int, mm)),
        {
            proof {
                assert(forall|key: u32|
                    #[trigger] self.db.stored().contains_key(key) ==> target.contains_key(key)
                        && self.db.stored()[key] == target[key]);
                lemma_small_mod(worker as nat, stride as nat);
                assert forall|mm: int|
                    0 <= mm < total && (mm % (stride as int) < worker || (mm % (stride as int)
                        == worker && mm < worker)) implies self.db.stored().contains_key(
                    #[trigger] flat_key(idxs, n as int, mm),
                ) by {
                    if !(mm % (stride as int) < worker) {
                        lemma_small_mod(mm as nat, stride as nat);
                    }
                }
            }
            let mut m = worker;
            while m < total
                invariant
                    n == idxs.len() && 1 <= n <= 120 && indices@ == idxs,
                    forall|k: int| 0 <= k < idxs.len() ==> idxs[k] < 120,
                    n2 == n * n && n3 == n2 * n && total == n3 * n && total <= 207360000,
                    1 <= stride <= total,
                    worker < stride,
                    m % stride == worker,
                    perms@.len() == 120,
                    forall|k: int|
                        0 <= k < 120 ==> crate::perm::is_permutation5(#[trigger] perms@[k]@)
                            && crate::perm::perm_index_of(perms@[k]@) == k,
                    hands0 == old(self).orig_hands && dealer0 == old(self).dealer && dealer0 < 4,
                    old(self).rechte == Some(rechte),
                    *self == (GameState { db: self.db, ..*old(self) }),
                    target == populated_map(hands0, dealer0 as int, rechte, idxs),
                    forall|key: u32|
                        #[trigger] self.db.stored().contains_key(key) ==> target.contains_key(key)
                            && self.db.stored()[key] == target[key],
                    forall|mm: int|
                        0 <= mm < total && (mm % (stride as int) < worker || (mm % (stride as int)
                            == worker && mm < m)) ==> self.db.stored().contains_key(
                            #[trigger] flat_key(idxs, n as int, mm),
                        ),
                decreases total + stride - m,
            {
                let ghost stored_before = self.db.stored();
                record_combo(&mut self.db, &self.orig_hands, self.dealer, rechte, &perms, &indices, m, n2, n3);
                proof {
                    lemma_flat_entry(hands0, dealer0 as int, rechte, idxs, n as int, m as int);
                    let key = flat_key(idxs, n as int, m as int);
                    assert(self.db.stored() == stored_before.insert(
                        key,
                        flat_val(hands0, dealer0 as int, rechte, idxs, n as int, m as int),
                    ));
                    assert forall|mm: int|
                        0 <= mm < total && (mm % (stride as int) < worker || (mm % (stride as int)
                            == worker && mm < m + stride)) implies self.db.stored().contains_key(
                        #[trigger] flat_key(idxs, n as int, mm),
                    ) by {
                        if mm % (stride as int) == worker && m <= mm < m + stride {
                            assert(mm == m) by {
                                if mm != m {
                                    assert(m < mm < m + stride);
                                    lemma_mod_same_window(m as int, mm, stride as int);
                                }
                            }
                        } else {
                            assert(stored_before.contains_key(flat_key(idxs, n as int, mm)));
                        }
                    }
                    let keyx = flat_key(idxs, n as int, m as int);
                    assert forall|key2: u32| #[trigger] self.db.stored().contains_key(
                        key2,
                    ) implies target.contains_key(key2) && self.db.stored()[key2] == target[key2] by {
                        if key2 == keyx {
                            assert(target.contains_key(keyx));
                            assert(self.db.stored()[keyx] == flat_val(
                                hands0,
                                dealer0 as int,
                                rechte,
                                idxs,
                                n as int,
                                m as int,
                            ));
                            assert(target[keyx] == flat_val(
                                hands0,
                                dealer0 as int,
                                rechte,
                                idxs,
                                n as int,
                                m as int,
                            ));
                        } else {
                            assert(stored_before.contains_key(key2));
                        }
                    }
                    lemma_mod_step(m as int, stride as int);
                }
                m = m + stride;
            }
        }
        proof {
            assert forall|key: u32| target.contains_key(key) implies self.db.stored().contains_key(
                key,
            ) by {
                let (a, b, c, d) = choose|a: usize, b: usize, c: usize, d: usize|
                    #![trigger crate::database::combo_key(a, b, c, d)]
                    idxs.contains(a) && idxs.contains(b) && idxs.contains(c) && idxs.contains(d)
                        && key == crate::database::combo_key(a, b, c, d) as u32;
                let ia = choose|k: int| 0 <= k < idxs.len() && idxs[k] == a;
                let ib = choose|k: int| 0 <= k < idxs.len() && idxs[k] == b;
                let ic = choose|k: int| 0 <= k < idxs.len() && idxs[k] == c;
                let id = choose|k: int| 0 <= k < idxs.len() && idxs[k] == d;
                lemma_flat_split(n as int, ia, ib, ic, id);
                let mm = ((ia * (n as int) + ib) * (n as int) + ic) * (n as int) + id;
                assert(0 <= mm < total);
                lemma_mod_bound(mm, stride as int);
                assert(self.db.stored().contains_key(flat_key(idxs, n as int, mm)));
                assert(mm / ((n as int) * (n as int) * (n as int)) == ia);
                assert(idxs[ia] == a && idxs[ib] == b && idxs[ic] == c && idxs[id] == d);
                assert(flat_key(idxs, n as int, mm) == key);
            }
            assert(self.db.stored() =~= target);
        }
    }
}

/// Simulate the `m`-th combination of the flattened population space and
/// record its outcome in the store.
#[verifier::rlimit(50)]
fn record_combo<D: GameDatabase>(
    db: &mut D,
    hands: &[[Card; 5]; 4],
    dealer: usize,
    rechte: Card,
    perms: &Vec<[usize; 5]>,
    indices: &Vec<usize>,
    m: usize,
    n2: usize,
    n3: usize,
)
    requires
        dealer < 4,
        perms@.len() == 120,
        forall|k: int|
            0 <= k < 120 ==> crate::perm::is_permutation5(#[trigger] perms@[k]@)
                && crate::perm::perm_index_of(perms@[k]@) == k,
        1 <= indices@.len() <= 120,
        forall|k: int| 0 <= k < indices@.len() ==> indices@[k] < 120,
        n2 == indices@.len() * indices@.len(),
        n3 == n2 * indices@.len(),
        m < n3 * indices@.len(),
    ensures
        final(db).stored() == old(db).stored().insert(
            flat_key(indices@, indices@.len() as int, m as int),
            flat_val(*hands, dealer as int, rechte, indices@, indices@.len() as int, m as int),
        ),
{
    let ghost idxs = indices@;
    let n = indices.len();
    let i1 = m / n3;
    let i2 = (m / n2) % n;
    let i3 = (m / n) % n;
    let i4 = m % n;
    proof {
        lemma_flat_decode(n as int, m as int);
    }
    let a = indices[i1];
    let b = indices[i2];
    let c = indices[i3];
    let d = indices[i4];
    proof {
        assert(forall|j: int, k: int|
            0 <= j < perms@.len() && 0 <= k < 5 ==> #[trigger] perms@[j]@[k] < 5) by {
            assert forall|j: int, k: int|
                0 <= j < perms@.len() && 0 <= k < 5 implies #[trigger] perms@[j]@[k] < 5 by {
                assert(crate::perm::is_permutation5(perms@[j]@));
            }
        }
    }
    let result = play_hand(hands, [a, b, c, d], dealer, rechte, perms.as_slice());
    proof {
        crate::perm::lemma_perm_with_index_unique(perms@[a as int]@);
        crate::perm::lemma_perm_with_index_unique(perms@[b as int]@);
        crate::perm::lemma_perm_with_index_unique(perms@[c as int]@);
        crate::perm::lemma_perm_with_index_unique(perms@[d as int]@);
        assert(orders_for(a, b, c, d) =~= seq![
            perms@[a as int]@,
            perms@[b as int]@,
            perms@[c as int]@,
            perms@[d as int]@,
        ]);
        assert(result == sim_for_ids(*hands, a, b, c, d, dealer as int, rechte));
        assert(result == flat_val(*hands, dealer as int, rechte, idxs, n as int, m as int));
        assert(crate::database::combo_key(a, b, c, d) as u32 == flat_key(
            idxs,
            n as int,
            m as int,
        ));
    }
    db.set(a, b, c, d, result);
}

/// The simulated outcome of the `mm`-th combination of a flattened
/// population space over `n` covered indices.
pub open spec fn flat_val(
    hands: [[Card; 5]; 4],
    dealer: int,
    rechte: Card,
    idxs: Seq<usize>,
    n: int,
    mm: int,
) -> GameResult {
    sim_for_ids(
        hands,
        idxs[mm / (n * n * n)],
        idxs[(mm / (n * n)) % n],
        idxs[(mm / n) % n],
        idxs[mm % n],
        dealer,
        rechte,
    )
}

/// The populated store holds, at the key of the `mm`-th flattened
/// combination, exactly that combination's simulated outcome.
proof fn lemma_flat_entry(
    hands: [[Card; 5]; 4],
    dealer: int,
    rechte: Card,
    idxs: Seq<usize>,
    n: int,
    mm: int,
)
    requires
        n == idxs.len(),
        1 <= n,
        forall|k: int| 0 <= k < idxs.len() ==> idxs[k] < 120,
        0 <= mm < n * n * n * n,
    ensures
        populated_map(hands, dealer, rechte, idxs).contains_key(flat_key(idxs, n, mm)),
        populated_map(hands, dealer, rechte, idxs)[flat_key(idxs, n, mm)] == flat_val(
            hands, dealer, rechte, idxs, n, mm,
        ),
{
    lemma_flat_decode(n, mm);
    let a = idxs[mm / (n * n * n)];
    let b = idxs[(mm / (n * n)) % n];
    let c = idxs[(mm / n) % n];
    let d = idxs[mm % n];
    assert(idxs.contains(a)) by {
        assert(idxs[mm / (n * n * n)] == a);
    }
    assert(idxs.contains(b)) by {
        assert(idxs[(mm / (n * n)) % n] == b);
    }
    assert(idxs.contains(c)) by {
        assert(idxs[(mm / n) % n] == c);
    }
    assert(idxs.contains(d)) by {
        assert(idxs[mm % n] == d);
    }
    lemma_populated_at(hands, dealer, rechte, idxs, a, b, c, d);
}

/// Two distinct numbers less than one stride apart have distinct remainders.
proof fn lemma_mod_same_window(m: int, mm: int, s: int)
    requires
        s >= 1,
        0 <= m < mm < m + s,
    ensures
        m % s != mm % s,
{
    lemma_fundamental_div_mod(m, s);
    lemma_mod_bound(m, s);
    assert(mm == (m / s) * s + (m % s + mm - m)) by (nonlinear_arith)
        requires
            m == s * (m / s) + m % s,
    ;
    if m % s + mm - m < s {
        lemma_fundamental_div_mod_converse(mm, s, m / s, m % s + mm - m);
    } else {
        assert(mm == (m / s + 1) * s + (m % s + mm - m - s)) by (nonlinear_arith)
            requires
                m == s * (m / s) + m % s,
        ;
        lemma_fundamental_div_mod_converse(mm, s, m / s + 1, m % s + mm - m - s);
    }
}

/// Stepping by the stride keeps the remainder.
proof fn lemma_mod_step(m: int, s: int)
    requires
        s >= 1,
        m >= 0,
    ensures
        (m + s) % s == m % s,
{
    lemma_fundamental_div_mod(m, s);
    lemma_mod_bound(m, s);
    assert(m + s == (m / s + 1) * s + m % s) by (nonlinear_arith)
        requires
            m == s * (m / s) + m % s,
    ;
    lemma_fundamental_div_mod_converse(m + s, s, m / s + 1, m % s);
}

/// Population fills the store as a function of the deal and the covered
/// indices alone: two games over the same deal hold identical store contents
/// after population, whatever their worker counts or scheduling.
pub proof fn lemma_population_worker_independent<D1: GameDatabase, D2: GameDatabase>(
    g1: GameState<D1>,
    g2: GameState<D2>,
    hands: [[Card; 5]; 4],
    dealer: int,
    rechte: Card,
    idxs: Seq<usize>,
)
    requires
        g1.db.stored() == populated_map(hands, dealer, rechte, idxs),
        g2.db.stored() == populated_map(hands, dealer, rechte, idxs),
    ensures
        g1.db.stored() == g2.db.stored(),
{
}

/// The rules engine always hands back one of the two win outcomes.
proof fn lemma_sim_never_notplayed(
    hands: [[Card; 5]; 4],
    a: usize, b: usize, c: usize, d: usize,
    dealer: int,
    rechte: Card,
)
    ensures
        sim_for_ids(hands, a, b, c, d, dealer, rechte) == GameResult::Team1Win || sim_for_ids(
            hands, a, b, c, d, dealer, rechte,
        ) == GameResult::Team2Win,
{
}

/// Over the full index space, every entry of the populated store is a win
/// for one of the two teams.
#[verifier::rlimit(100)]
#[verifier::spinoff_prover]
proof fn lemma_full_population_no_gap(hands: [[Card; 5]; 4], dealer: int, rechte: Card)
    ensures
        ({
            let full = crate::database::range_seq(0, 120);
            let m = populated_map(hands, dealer, rechte, full);
            forall|ka: int, kb: int, kc: int, kd: int|
                #![trigger full[ka], full[kb], full[kc], full[kd]]
                0 <= ka < full.len() && 0 <= kb < full.len() && 0 <= kc < full.len() && 0 <= kd
                    < full.len() ==> crate::database::entry_for(
                    m,
                    full[ka],
                    full[kb],
                    full[kc],
                    full[kd],
                ) != GameResult::NotPlayed
        }),
{
    let full = crate::database::range_seq(0, 120);
    let m = populated_map(hands, dealer, rechte, full);
    assert forall|ka: int, kb: int, kc: int, kd: int|
        #![trigger full[ka], full[kb], full[kc], full[kd]]
        0 <= ka < full.len() && 0 <= kb < full.len() && 0 <= kc < full.len() && 0 <= kd
            < full.len() implies crate::database::entry_for(
        m,
        full[ka],
        full[kb],
        full[kc],
        full[kd],
    ) != GameResult::NotPlayed by {
        let a = full[ka];
        let b = full[kb];
        let c = full[kc];
        let d = full[kd];
        assert(full.contains(a));
        assert(full.contains(b));
        assert(full.contains(c));
        assert(full.contains(d));
        lemma_populated_at(hands, dealer, rechte, full, a, b, c, d);
        lemma_sim_never_notplayed(hands, a, b, c, d, dealer, rechte);
    }
}

/// Counting over the full unrestricted space of a populated deal: nothing is
/// in the `NotPlayed` bucket, and the four buckets together hold the full
/// combination count.
#[verifier::rlimit(100)]
#[verifier::spinoff_prover]
pub proof fn lemma_full_population_counts(hands: [[Card; 5]; 4], dealer: int, rechte: Card)
    ensures
        ({
            let full = crate::database::range_seq(0, 120);
            let m = populated_map(hands, dealer, rechte, full);
            &&& crate::database::count4(m, full, full, full, full, GameResult::NotPlayed) == 0
            &&& crate::database::count4(m, full, full, full, full, GameResult::NotPlayed)
                + crate::database::count4(m, full, full, full, full, GameResult::Team1Win)
                + crate::database::count4(m, full, full, full, full, GameResult::Team2Win)
                + crate::database::count4(m, full, full, full, full, GameResult::RuleViolation)
                == 207360000
        }),
{
    let full = crate::database::range_seq(0, 120);
    let m = populated_map(hands, dealer, rechte, full);
    lemma_full_population_no_gap(hands, dealer, rechte);
    lemma_counts_full_space(m);
}

/// Counting over the full index space of any store with no `NotPlayed`
/// entries there: that bucket is empty and the four buckets sum to the full
/// combination count.
proof fn lemma_counts_full_space(m: Map<u32, GameResult>)
    requires
        ({
            let full = crate::database::range_seq(0, 120);
            forall|ka: int, kb: int, kc: int, kd: int|
                #![trigger full[ka], full[kb], full[kc], full[kd]]
                0 <= ka < full.len() && 0 <= kb < full.len() && 0 <= kc < full.len() && 0 <= kd
                    < full.len() ==> crate::database::entry_for(
                    m,
                    full[ka],
                    full[kb],
                    full[kc],
                    full[kd],
                ) != GameResult::NotPlayed
        }),
    ensures
        ({
            let full = crate::database::range_seq(0, 120);
            &&& crate::database::count4(m, full, full, full, full, GameResult::NotPlayed) == 0
            &&& crate::database::count4(m, full, full, full, full, GameResult::NotPlayed)
                + crate::database::count4(m, full, full, full, full, GameResult::Team1Win)
                + crate::database::count4(m, full, full, full, full, GameResult::Team2Win)
                + crate::database::count4(m, full, full, full, full, GameResult::RuleViolation)
                == 207360000
        }),
{
    let full = crate::database::range_seq(0, 120);
    crate::database::lemma_count_zero(m, full, full, full, full, GameResult::NotPlayed);
    crate::database::lemma_counts_total(m, full, full, full, full);
    assert(full.len() == 120);
    assert(full.len() * full.len() * full.len() * full.len() == 207360000) by (nonlinear_arith)
        requires
            full.len() == 120,
    ;
}

/// The store key of the `mm`-th combination of a flattened population space
/// over `n` covered indices.
pub open spec fn flat_key(idxs: Seq<usize>, n: int, mm: int) -> u32 {
    crate::database::combo_key(
        idxs[mm / (n * n * n)],
        idxs[(mm / (n * n)) % n],
        idxs[(mm / n) % n],
        idxs[mm % n],
    ) as u32
}

impl GameState<InMemoryGameDatabase> {
    /// Build a game over a fresh in-memory outcome store, with the first
    /// `human_players` seats played by humans.
    pub fn new(human_players: usize) -> (g: GameState<InMemoryGameDatabase>)
        ensures
            g.wf(),
            g.scores@ == seq![0usize, 0usize],
            g.round_points == ROUND_POINTS,
            g.last_raiser is None,
            g.dealer == 0,
            g.rechte is None,
            g.perm_range is None,
            g.playing_round == false,
            g.db.stored() == Map::<u32, GameResult>::empty(),
            forall|p: int| 0 <= p < 4 ==> ((#[trigger] g.players@[p]).human <==> p < human_players),
            forall|p: int| 0 <= p < 4 ==> (#[trigger] g.players@[p]).hand@.len() == 0,
            forall|p: int| 0 <= p < 4 ==> (#[trigger] g.played@[p]@).len() == 0,
    {
        Self::new_with_db(InMemoryGameDatabase::new(), human_players)
    }
}

} // verus!
