use std::cell::RefCell;
use std::rc::Rc;

use watten::database::GameDatabase;
use watten::game::{card_strength, play_hand, GameState, ROUND_POINTS, TRICKS_PER_ROUND};
use watten::Rank::{Ace, King, Nine, Ober, Seven, Ten, Unter};
use watten::Suit::{Acorns, Bells, Hearts, Leaves};
use watten::{all_hand_orders, result_slot, Card, GameResult, Rank, Suit};

#[test]
fn new_game_has_zero_scores() {
    let g = GameState::new(0);
    assert_eq!(g.scores, [0, 0]);
    assert_eq!(g.round_points, ROUND_POINTS);
}

#[test]
fn teams_can_raise_alternating() {
    let mut g = GameState::new(0);
    assert_eq!(g.round_points, ROUND_POINTS);
    assert!(g.raise_round(0).is_ok());
    assert_eq!(g.round_points, ROUND_POINTS + 1);
    assert!(g.raise_round(0).is_err());
    assert!(g.raise_round(1).is_ok());
    assert_eq!(g.round_points, ROUND_POINTS + 2);
    assert!(g.raise_round(1).is_err());
    assert!(g.raise_round(0).is_ok());
    assert_eq!(g.round_points, ROUND_POINTS + 3);
}

#[test]
fn raise_rejects_an_unknown_team() {
    let mut g = GameState::new(0);
    assert!(g.raise_round(2).is_err());
    assert_eq!(g.round_points, ROUND_POINTS);
    assert!(g.raise_round(0).is_ok());
    assert_eq!(g.round_points, ROUND_POINTS + 1);
}

#[test]
fn allowed_indices_for_seeing_players() {
    let mut g = GameState::new(0);
    g.dealer = 0;
    g.rechte = Some(Card::new(Hearts, Unter));

    g.players[0].hand = vec![Card::new(Hearts, Ace), Card::new(Bells, Ober)];
    g.players[1].hand = vec![Card::new(Leaves, Unter), Card::new(Acorns, Seven)];
    g.players[2].hand = vec![Card::new(Hearts, Ten)];
    g.players[3].hand = vec![Card::new(Bells, Ace)];

    let lead = Card::new(Hearts, Ten);
    let a0 = g.allowed_indices(0, lead.clone());
    assert_eq!(a0, vec![0]);
    let a1 = g.allowed_indices(1, lead);
    assert_eq!(a1, vec![0]);
}

#[test]
fn start_round_populates_database() {
    let mut g = GameState::new(0);
    g.set_perm_range_single(0);
    g.start_round();
    // the store should hold at least the entry for all-identity play orders
    assert!(g.db.get(0, 0, 0, 0) != GameResult::NotPlayed);
}

#[test]
fn population_matches_direct_simulation() {
    // whatever the worker count, the recorded outcome for a combination is
    // the direct simulation of that combination
    for workers in [1usize, 3] {
        let mut g = GameState::new(0);
        g.set_workers(workers);
        g.set_perm_range_single(0);
        g.start_round();
        let perms = all_hand_orders();
        let rechte = g.rechte.unwrap();
        let direct = play_hand(&g.orig_hands, [0, 0, 0, 0], g.dealer, rechte, &perms);
        assert_eq!(g.db.get(0, 0, 0, 0), direct);
    }
}

#[test]
fn populated_counts_sum_over_restricted_space() {
    let mut g = GameState::new(0);
    g.set_perm_range_single(0);
    g.start_round();
    let counts = g.db.counts_in_ranges(0..1, 0..1, 0..1, 0..1);
    let total: u32 = counts.iter().sum();
    assert_eq!(total, 1);
    assert_eq!(counts[result_slot(GameResult::NotPlayed)], 0);
    assert_eq!(counts[result_slot(GameResult::RuleViolation)], 0);
}

struct DummyDb {
    calls: Rc<RefCell<u32>>,
}

impl GameDatabase for DummyDb {
    fn stored(&self) -> vstd::map::Map<u32, GameResult> {
        unreachable!()
    }

    fn clear(&mut self) {
    }

    fn set(&mut self, _p1: usize, _p2: usize, _p3: usize, _p4: usize, _r: GameResult) {
    }

    fn get(&self, _p1: usize, _p2: usize, _p3: usize, _p4: usize) -> GameResult {
        GameResult::NotPlayed
    }

    fn counts_in_ranges(
        &self,
        _p1: std::ops::Range<usize>,
        _p2: std::ops::Range<usize>,
        _p3: std::ops::Range<usize>,
        _p4: std::ops::Range<usize>,
    ) -> [u32; 4] {
        let mut c = self.calls.borrow_mut();
        let result = if *c == 0 { [0, 10, 0, 0] } else { [0, 0, 10, 0] };
        *c += 1;
        result
    }

    fn counts_in_lists(&self, _p1: &[usize], _p2: &[usize], _p3: &[usize], _p4: &[usize]) -> [u32;
        4] {
        self.counts_in_ranges(0..0, 0..0, 0..0, 0..0)
    }
}

#[test]
fn best_card_uses_database() {
    let counter = Rc::new(RefCell::new(0));
    let mut g = GameState::new_with_db(DummyDb { calls: counter.clone() }, 0);

    g.players[0].hand = vec![
        Card::new(Suit::Hearts, Rank::Seven),
        Card::new(Suit::Bells, Rank::Ace),
    ];
    g.orig_hands[0][0] = g.players[0].hand[0];
    g.orig_hands[0][1] = g.players[0].hand[1];

    let idx = g.best_card_index(0, &[0, 1]);
    assert_eq!(idx, 0);
    assert!(*counter.borrow() >= 2);
}

struct FixedDb {
    calls: Rc<RefCell<u32>>,
}

impl GameDatabase for FixedDb {
    fn stored(&self) -> vstd::map::Map<u32, GameResult> {
        unreachable!()
    }

    fn clear(&mut self) {
    }

    fn set(&mut self, _p1: usize, _p2: usize, _p3: usize, _p4: usize, _r: GameResult) {
    }

    fn get(&self, _p1: usize, _p2: usize, _p3: usize, _p4: usize) -> GameResult {
        GameResult::NotPlayed
    }

    fn counts_in_ranges(
        &self,
        _p1: std::ops::Range<usize>,
        _p2: std::ops::Range<usize>,
        _p3: std::ops::Range<usize>,
        _p4: std::ops::Range<usize>,
    ) -> [u32; 4] {
        *self.calls.borrow_mut() += 1;
        [0, 5, 10, 0]
    }

    fn counts_in_lists(&self, _p1: &[usize], _p2: &[usize], _p3: &[usize], _p4: &[usize]) -> [u32;
        4] {
        self.counts_in_ranges(0..0, 0..0, 0..0, 0..0)
    }
}

#[test]
fn card_win_rate_uses_database() {
    let counter = Rc::new(RefCell::new(0));
    let mut g = GameState::new_with_db(FixedDb { calls: counter.clone() }, 0);

    g.players[0].hand = vec![Card::new(Suit::Hearts, Rank::Seven)];
    g.orig_hands[0][0] = g.players[0].hand[0];

    let (wins, losses) = g.card_win_counts(0, 0);
    let rate = wins as f64 / (wins + losses) as f64;
    assert!(*counter.borrow() > 0);
    assert!((rate - 0.3333).abs() < 1e-4);
}

fn manual_round(
    hands: &mut [Vec<Card>; 4],
    dealer: usize,
    rechte: Card,
) -> (Vec<usize>, [usize; 2]) {
    let mut lead = (dealer + 1) % 4;
    let mut winners = Vec::new();
    let mut tricks = [0usize; 2];
    for _ in 0..TRICKS_PER_ROUND {
        let lead_card = hands[lead].remove(0);
        let lead_suit = lead_card.suit;
        let mut played = vec![(lead, lead_card)];
        for off in 1..4 {
            let idx = (lead + off) % 4;
            let card = hands[idx].remove(0);
            played.push((idx, card));
        }
        let mut best = (played[0].0, played[0].1, 0usize);
        let mut best_score = card_strength(&best.1, lead_suit, rechte, 0);
        for (pos, &(idx, ref card)) in played.iter().enumerate().skip(1) {
            let val = card_strength(card, lead_suit, rechte, pos);
            if val > best_score {
                best = (idx, *card, pos);
                best_score = val;
            }
        }
        let (winner_idx, _, _) = best;
        winners.push(winner_idx);
        tricks[winner_idx % 2] += 1;
        lead = winner_idx;
    }
    (winners, tricks)
}

fn fixed_hands() -> [Vec<Card>; 4] {
    [
        vec![
            Card::new(Hearts, Unter),
            Card::new(Bells, Ace),
            Card::new(Leaves, King),
            Card::new(Hearts, Ace),
            Card::new(Acorns, Ten),
        ],
        vec![
            Card::new(Hearts, Ten),
            Card::new(Bells, King),
            Card::new(Leaves, Ace),
            Card::new(Bells, Seven),
            Card::new(Acorns, Nine),
        ],
        vec![
            Card::new(Hearts, King),
            Card::new(Leaves, Ober),
            Card::new(Bells, Nine),
            Card::new(Hearts, Nine),
            Card::new(Acorns, Unter),
        ],
        vec![
            Card::new(Hearts, Ober),
            Card::new(Bells, Unter),
            Card::new(Leaves, Nine),
            Card::new(Acorns, Ace),
            Card::new(Bells, Ten),
        ],
    ]
}

#[test]
fn seeing_players_follow_trump_full_trick() {

    let mut g = GameState::new(0);
    g.dealer = 0;
    g.rechte = Some(Card::new(Hearts, Unter));

    // Dealer is player 0, so players 0 and 1 are the seeing players.
    // Player 1 leads the trick as the player after the dealer.
    g.players[0].hand = vec![Card::new(Hearts, Ace), Card::new(Bells, Ace)];
    g.players[1].hand = vec![Card::new(Hearts, Ten)];
    g.players[2].hand = vec![Card::new(Bells, Ober), Card::new(Hearts, Seven)];
    g.players[3].hand = vec![Card::new(Leaves, Unter), Card::new(Bells, Ten)];

    // Player 1 leads with trump
    let lead_card = g.players[1].hand[0];
    let allowed_lead = g.allowed_indices(1, lead_card);
    assert_eq!(allowed_lead, vec![0]);
    let lead_card = g.players[1].hand.remove(allowed_lead[0]);
    let mut played = vec![(1usize, lead_card)];

    let allowed2 = g.allowed_indices(2, lead_card);
    assert_eq!(allowed2, vec![0, 1]); // not seeing, no restriction
    let card2 = g.players[2].hand.remove(allowed2[0]);
    played.push((2usize, card2));

    let allowed3 = g.allowed_indices(3, lead_card);
    assert_eq!(allowed3, vec![0, 1]);
    let card3 = g.players[3].hand.remove(allowed3[0]);
    played.push((3usize, card3));

    let allowed0 = g.allowed_indices(0, lead_card);
    assert_eq!(allowed0, vec![0]); // dealer must play trump or striker
    let card0 = g.players[0].hand.remove(allowed0[0]);
    played.push((0usize, card0));

    let rechte = g.rechte.unwrap();
    let mut best = (played[0].0, played[0].1, 0usize);
    let mut best_score = card_strength(&best.1, lead_card.suit, rechte, 0);
    for (pos, &(idx, ref card)) in played.iter().enumerate().skip(1) {
        let val = card_strength(card, lead_card.suit, rechte, pos);
        if val > best_score {
            best = (idx, *card, pos);
            best_score = val;
        }
    }
    assert_eq!(best.0, 3); // striker should win
}

#[test]
fn full_round_five_tricks_winners() {
    let rechte = Card::new(Hearts, Unter);
    let mut hands = fixed_hands();
    let (winners, _tricks) = manual_round(&mut hands, 0, rechte);
    assert_eq!(winners, vec![0, 3, 1, 0, 2]);
}

#[test]
fn counting_points_after_rounds() {
    let rechte = Card::new(Hearts, Unter);
    let original_hands = fixed_hands();
    let mut g = GameState::new(0);
    g.dealer = 0;
    g.rechte = Some(rechte);
    for i in 0..4 {
        g.players[i].hand = original_hands[i].clone();
    }
    let (_winners, tricks) = manual_round(&mut original_hands.clone(), g.dealer, rechte);
    let result = if tricks[0] > tricks[1] {
        GameResult::Team1Win
    } else {
        GameResult::Team2Win
    };
    match result {
        GameResult::Team1Win => g.scores[0] += g.round_points,
        GameResult::Team2Win => g.scores[1] += g.round_points,
        _ => {}
    }
    assert_eq!(result, GameResult::Team1Win);
    assert_eq!(g.scores, [ROUND_POINTS, 0]);

    // play the same round again to verify accumulation
    let mut hands2 = original_hands.clone();
    let (_winners2, tricks2) = manual_round(&mut hands2, g.dealer, rechte);
    let result2 = if tricks2[0] > tricks2[1] {
        GameResult::Team1Win
    } else {
        GameResult::Team2Win
    };
    match result2 {
        GameResult::Team1Win => g.scores[0] += g.round_points,
        GameResult::Team2Win => g.scores[1] += g.round_points,
        _ => {}
    }
    assert_eq!(g.scores, [ROUND_POINTS * 2, 0]);
}

#[test]
fn raising_points_and_full_round() {
    let rechte = Card::new(Hearts, Unter);
    let original_hands = fixed_hands();
    let mut g = GameState::new(0);
    g.dealer = 0;
    g.rechte = Some(rechte);
    for i in 0..4 {
        g.players[i].hand = original_hands[i].clone();
    }
    assert_eq!(g.round_points, ROUND_POINTS);
    assert!(g.raise_round(0).is_ok());
    assert!(g.raise_round(1).is_ok());
    assert_eq!(g.round_points, ROUND_POINTS + 2);

    let mut hands = original_hands.clone();
    let (winners, tricks) = manual_round(&mut hands, g.dealer, rechte);
    assert_eq!(winners.len(), TRICKS_PER_ROUND);
    let result = if tricks[0] > tricks[1] {
        GameResult::Team1Win
    } else {
        GameResult::Team2Win
    };
    match result {
        GameResult::Team1Win => g.scores[0] += g.round_points,
        GameResult::Team2Win => g.scores[1] += g.round_points,
        _ => {}
    }
    assert_eq!(result, GameResult::Team1Win);
    assert_eq!(g.scores, [ROUND_POINTS + 2, 0]);
}

#[test]
fn interactive_round_plays_to_completion() {
    let mut g = GameState::new(0);
    g.set_perm_range_single(0);
    g.start_round_interactive();
    let (result, log) = g.advance_bots();
    let r = result.expect("an all-bot round runs to completion");
    assert!(r == GameResult::Team1Win || r == GameResult::Team2Win);
    assert_eq!(log.len(), 20);
    let total: usize = g.scores.iter().sum();
    assert_eq!(total, ROUND_POINTS);
}

#[test]
fn logged_round_scores_the_majority_team() {
    let mut g = GameState::new(0);
    g.set_perm_range_single(0);
    let (result, log) = g.play_round_logged();
    assert_eq!(log.len(), 20);
    match result {
        GameResult::Team1Win => assert_eq!(g.scores, [ROUND_POINTS, 0]),
        GameResult::Team2Win => assert_eq!(g.scores, [0, ROUND_POINTS]),
        _ => panic!("a finished round names a winning team"),
    }
    assert_eq!(g.dealer, 1);
}
