use std::collections::HashSet;

use watten::{deck, all_hand_orders, factorial, perm_index, perm_prefix_range, perm_from_index};
use watten::{result_slot, GameResult, HAND_PERMUTATIONS};

#[test]
fn deck_has_33_cards() {
    let d = deck();
    assert_eq!(d.len(), 33);
}

#[test]
fn hand_order_permutations() {
    let perms = all_hand_orders();
    assert_eq!(perms.len(), HAND_PERMUTATIONS);
    // first permutation should be identity
    assert_eq!(perms[0], [0, 1, 2, 3, 4]);
    // ensure indexes are unique
    let mut seen = HashSet::new();
    for p in &perms {
        let idx = perm_index(p);
        assert!(seen.insert(idx), "duplicate index {}", idx);
    }
}

#[test]
fn prefix_ranges() {
    let (s, e) = perm_prefix_range(&[0]);
    assert_eq!(e - s, factorial(4));
    assert_eq!(s, perm_index(&[0, 1, 2, 3, 4]));

    let (s2, e2) = perm_prefix_range(&[1, 0]);
    assert_eq!(e2 - s2, factorial(3));
    assert_eq!(s2, perm_index(&[1, 0, 2, 3, 4]));
}

#[test]
fn db_counts_over_range() {
    let mut db = watten::GameDatabase::new();
    db.set(0, 0, 0, 0, GameResult::Team1Win);
    let counts = db.counts_in_ranges(0..1, 0..1, 0..1, 0..1);
    assert_eq!(counts[result_slot(GameResult::Team1Win)], 1);
    assert_eq!(counts[result_slot(GameResult::NotPlayed)], 0);
}

#[test]
fn perm_index_round_trip() {
    for k in 0..HAND_PERMUTATIONS {
        let p = perm_from_index(k);
        assert_eq!(perm_index(&p), k);
    }
}

#[test]
fn shuffle_keeps_every_card() {
    let mut cards = deck();
    watten::shuffle(&mut cards);
    assert_eq!(cards.len(), 33);
    let distinct: HashSet<_> = cards.iter().map(|c| (c.suit, c.rank)).collect();
    assert_eq!(distinct.len(), 33);
}
