use watten::game::{card_strength, play_hand, rank_value, simulate_game, TRICKS_PER_ROUND};
use watten::player::Player;
use watten::{all_hand_orders, deck, Card, Rank, Suit};

#[test]
fn striker_beats_trump() {
    let rechte = Card::new(Suit::Hearts, Rank::Unter);
    let striker = Card::new(Suit::Bells, Rank::Unter);
    let trump_card = Card::new(Suit::Hearts, Rank::Ace);
    let lead = Suit::Hearts;
    assert!(
        card_strength(&striker, lead, rechte, 0) > card_strength(&trump_card, lead, rechte, 0)
    );
}

#[test]
fn rechte_beats_striker() {
    let rechte = Card::new(Suit::Leaves, Rank::Ober);
    let striker = Card::new(Suit::Hearts, Rank::Ober);
    let lead = Suit::Hearts;
    assert!(card_strength(&rechte, lead, rechte, 0) > card_strength(&striker, lead, rechte, 0));
}

#[test]
fn first_striker_played_beats_striker() {
    let rechte = Card::new(Suit::Hearts, Rank::Unter);
    let lead = Suit::Bells;
    let first = Card::new(Suit::Bells, Rank::Unter);
    let second = Card::new(Suit::Leaves, Rank::Unter);
    let mut best = (0usize, first);
    let best_val = card_strength(&best.1, lead, rechte, 0);
    let candidate = (1usize, second);
    let val = card_strength(&candidate.1, lead, rechte, 1);
    if val > best_val {
        best = candidate;
    }
    assert_eq!(best.0, 0);
}

#[test]
fn play_card_whole_trick_first_striker_wins() {
    let rechte = Card::new(Suit::Hearts, Rank::Unter);
    let mut players = [
        Player::new(false),
        Player::new(false),
        Player::new(false),
        Player::new(false),
    ];
    players[0].hand.push(Card::new(Suit::Bells, Rank::Unter));
    players[1].hand.push(Card::new(Suit::Leaves, Rank::Unter));
    players[2].hand.push(Card::new(Suit::Hearts, Rank::Ace));
    players[3].hand.push(Card::new(Suit::Acorns, Rank::Ace));

    let lead_card = players[0].play_random_card(&[0]);
    let lead_suit = lead_card.suit;
    let mut cards = vec![lead_card];
    for i in 1..4 {
        let allowed: Vec<usize> = (0..players[i].hand.len()).collect();
        cards.push(players[i].play_random_card(&allowed));
    }

    let mut best_idx = 0usize;
    let mut best_val = card_strength(&cards[0], lead_suit, rechte, 0);
    for (pos, card) in cards.iter().enumerate().skip(1) {
        let val = card_strength(card, lead_suit, rechte, pos);
        if val > best_val {
            best_idx = pos;
            best_val = val;
        }
    }

    assert_eq!(best_idx, 0);
    for p in &players {
        assert!(p.hand.is_empty());
    }
}

#[test]
fn play_card_whole_trick_rechte_wins_even_last() {
    let rechte = Card::new(Suit::Hearts, Rank::Unter);
    let mut players = [
        Player::new(false),
        Player::new(false),
        Player::new(false),
        Player::new(false),
    ];
    players[0].hand.push(Card::new(Suit::Hearts, Rank::Ace));
    players[1].hand.push(Card::new(Suit::Bells, Rank::Unter));
    players[2].hand.push(Card::new(Suit::Hearts, Rank::Nine));
    players[3].hand.push(rechte); // hearts unter

    let lead_card = players[0].play_random_card(&[0]);
    let lead_suit = lead_card.suit;
    let mut cards = vec![lead_card];
    for i in 1..4 {
        let allowed: Vec<usize> = (0..players[i].hand.len()).collect();
        cards.push(players[i].play_random_card(&allowed));
    }

    let mut best_idx = 0usize;
    let mut best_val = card_strength(&cards[0], lead_suit, rechte, 0);
    for (pos, card) in cards.iter().enumerate().skip(1) {
        let val = card_strength(card, lead_suit, rechte, pos);
        if val > best_val {
            best_idx = pos;
            best_val = val;
        }
    }

    assert_eq!(best_idx, 3);
    for p in &players {
        assert!(p.hand.is_empty());
    }
}

#[test]
fn play_hand_by_ids_matches_simulation() {
    let deck = deck();
    let dummy = Card::new(Suit::Hearts, Rank::Seven);
    let mut hands = [[dummy; TRICKS_PER_ROUND]; 4];
    for i in 0..TRICKS_PER_ROUND {
        for j in 0..4 {
            hands[j][i] = deck[i * 4 + j];
        }
    }
    let rechte = Card::new(hands[0][0].suit, hands[1][0].rank);
    let ids = [0usize; 4];
    let expect = simulate_game(&hands, [[0, 1, 2, 3, 4]; 4], 0, rechte);
    let perms = all_hand_orders();
    let result = play_hand(&hands, ids, 0, rechte, &perms);
    assert_eq!(expect, result);
}

#[test]
fn rank_values_follow_the_ladder() {
    assert_eq!(rank_value(Rank::Seven), 1);
    assert_eq!(rank_value(Rank::Ace), 8);
    assert_eq!(rank_value(Rank::Weli), 9);
}

#[test]
fn card_strength_exact_values() {
    let rechte = Card::new(Suit::Hearts, Rank::Unter);
    // the rechte itself: tier 200, scaled by ten, minus the position
    assert_eq!(card_strength(&rechte, Suit::Bells, rechte, 0), 2000);
    assert_eq!(card_strength(&rechte, Suit::Bells, rechte, 3), 1997);
    // a plain lead-suit card: 50 + rank value, scaled
    let lead_card = Card::new(Suit::Bells, Rank::King);
    assert_eq!(card_strength(&lead_card, Suit::Bells, rechte, 1), 569);
    // the Weli outranks ordinary trump but not a striker
    let weli = Card::new(Suit::Bells, Rank::Weli);
    assert_eq!(card_strength(&weli, Suit::Bells, rechte, 0), 1800);
}

#[test]
fn play_card_from_allowed_indices() {
    let mut p = Player::new(false);
    p.hand = vec![
        Card::new(Suit::Hearts, Rank::Seven),
        Card::new(Suit::Bells, Rank::Eight),
        Card::new(Suit::Leaves, Rank::Nine),
    ];
    let card = p.play_random_card(&[1]);
    assert_eq!(card.suit, Suit::Bells);
    assert_eq!(p.hand.len(), 2);
}

#[test]
fn play_random_from_multiple_allowed() {
    let mut p = Player::new(false);
    p.hand = vec![
        Card::new(Suit::Bells, Rank::Eight),
        Card::new(Suit::Leaves, Rank::Nine),
    ];
    let card = p.play_random_card(&[0, 1]);
    assert!(card.suit == Suit::Bells || card.suit == Suit::Leaves);
    assert_eq!(p.hand.len(), 1);
}
