use watten::database::{GameDatabase, InMemoryGameDatabase};
use watten::{result_slot, GameResult};

#[test]
fn counts_over_range() {
    let mut db = InMemoryGameDatabase::new();
    db.set(0, 0, 0, 0, GameResult::Team1Win);
    let counts = db.counts_in_ranges(0..1, 0..1, 0..1, 0..1);
    assert_eq!(counts[result_slot(GameResult::Team1Win)], 1);
    assert_eq!(counts[result_slot(GameResult::NotPlayed)], 0);
}

#[test]
fn counts_over_lists() {
    let mut db = InMemoryGameDatabase::new();
    db.set(0, 0, 0, 0, GameResult::Team1Win);
    let counts = db.counts_in_lists(&[0], &[0], &[0], &[0]);
    assert_eq!(counts[result_slot(GameResult::Team1Win)], 1);
    assert_eq!(counts[result_slot(GameResult::NotPlayed)], 0);
}

#[test]
fn absent_entries_read_as_not_played() {
    let mut db = InMemoryGameDatabase::new();
    assert_eq!(db.get(5, 6, 7, 8), GameResult::NotPlayed);
    db.set(5, 6, 7, 8, GameResult::Team2Win);
    assert_eq!(db.get(5, 6, 7, 8), GameResult::Team2Win);
    assert_eq!(db.get(8, 7, 6, 5), GameResult::NotPlayed);
    db.clear();
    assert_eq!(db.get(5, 6, 7, 8), GameResult::NotPlayed);
}

#[test]
fn counts_cover_every_combination_once() {
    let mut db = InMemoryGameDatabase::new();
    db.set(0, 0, 0, 0, GameResult::Team1Win);
    db.set(0, 0, 0, 1, GameResult::Team2Win);
    let counts = db.counts_in_ranges(0..1, 0..1, 0..1, 0..2);
    let total: u32 = counts.iter().sum();
    assert_eq!(total, 2);
    assert_eq!(counts[result_slot(GameResult::NotPlayed)], 0);
    assert_eq!(counts[result_slot(GameResult::Team1Win)], 1);
    assert_eq!(counts[result_slot(GameResult::Team2Win)], 1);
}
