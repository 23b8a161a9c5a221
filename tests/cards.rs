use std::cmp::Ordering;
use std::collections::HashSet;

use durak::card::{Card, Deck, Hand, Suit, Table, Value, HAND_SIZE};

fn c(suit: Suit, value: Value) -> Card {
    Card { suit, value }
}

#[test]
fn sorted_deck_lists_each_card_once_in_order() {
    let deck = Deck::new_sorted();
    assert_eq!(deck.cards.len(), 36);
    assert_eq!(deck.cards[0], c(Suit::Clubs, Value::Six));
    assert_eq!(deck.cards[8], c(Suit::Clubs, Value::Ace));
    assert_eq!(deck.cards[9], c(Suit::Diamonds, Value::Six));
    assert_eq!(deck.cards[35], c(Suit::Spades, Value::Ace));
    assert_eq!(deck.trump, Suit::Clubs);
    let mut sorted = deck.cards.clone();
    sorted.sort();
    assert_eq!(sorted, deck.cards);
}

#[test]
fn shuffled_deck_has_36_distinct_cards_and_trump_of_first() {
    for _ in 0..20 {
        let deck = Deck::new();
        assert_eq!(deck.cards.len(), 36);
        let set: HashSet<Card> = deck.cards.iter().cloned().collect();
        assert_eq!(set.len(), 36);
        assert_eq!(deck.trump, deck.cards[0].suit);
    }
}

#[test]
fn shuffled_deck_is_not_left_in_sorted_order() {
    let sorted = Deck::new_sorted().cards;
    let mut moved = 0;
    for _ in 0..5 {
        if Deck::new().cards != sorted {
            moved += 1;
        }
    }
    assert!(moved > 0);
}

#[test]
fn draw_takes_the_last_card_and_trump_card_is_the_first() {
    let mut deck = Deck::new_sorted();
    assert_eq!(deck.draw(), c(Suit::Spades, Value::Ace));
    assert_eq!(deck.cards.len(), 35);
    assert_eq!(deck.trump_card(), Some(&c(Suit::Clubs, Value::Six)));
    let mut empty = Deck { cards: vec![], trump: Suit::Hearts };
    assert_eq!(empty.trump_card(), None);
    empty.cards.push(c(Suit::Hearts, Value::Ten));
    assert_eq!(empty.draw(), c(Suit::Hearts, Value::Ten));
    assert!(empty.cards.is_empty());
}

#[test]
fn beats_is_irreflexive_and_follows_rank_and_trump() {
    let trump = Suit::Spades;
    for card in Deck::new_sorted().cards {
        assert!(!card.beats(&card, trump));
    }
    assert!(c(Suit::Hearts, Value::Ten).beats(&c(Suit::Hearts, Value::Nine), trump));
    assert!(!c(Suit::Hearts, Value::Nine).beats(&c(Suit::Hearts, Value::Ten), trump));
    assert!(c(Suit::Spades, Value::Six).beats(&c(Suit::Hearts, Value::Ace), trump));
    assert!(!c(Suit::Hearts, Value::Ace).beats(&c(Suit::Spades, Value::Six), trump));
    assert!(!c(Suit::Clubs, Value::Ace).beats(&c(Suit::Hearts, Value::Six), trump));
    assert!(c(Suit::Spades, Value::Seven).beats(&c(Suit::Spades, Value::Six), trump));
}

#[test]
fn compare_puts_trumps_above_and_orders_by_rank() {
    let trump = Suit::Diamonds;
    let six_d = c(Suit::Diamonds, Value::Six);
    let ace_c = c(Suit::Clubs, Value::Ace);
    let ten_h = c(Suit::Hearts, Value::Ten);
    let ten_s = c(Suit::Spades, Value::Ten);
    assert_eq!(six_d.compare(&ace_c, trump), Ordering::Greater);
    assert_eq!(ace_c.compare(&six_d, trump), Ordering::Less);
    assert_eq!(ten_h.compare(&ace_c, trump), Ordering::Less);
    assert_eq!(ten_h.compare(&ten_h, trump), Ordering::Equal);
    assert_eq!(ten_h.compare(&ten_s, trump), Ordering::Less);
    assert_eq!(ten_s.compare(&ten_h, trump), Ordering::Greater);
    assert_eq!(six_d.compare(&c(Suit::Diamonds, Value::Seven), trump), Ordering::Less);
}

#[test]
fn hand_new_draws_six_sorted_cards() {
    let mut deck = Deck::new_sorted();
    let hand = Hand::new(&mut deck);
    assert_eq!(deck.cards.len(), 30);
    assert_eq!(
        hand.cards,
        vec![
            c(Suit::Spades, Value::Nine),
            c(Suit::Spades, Value::Ten),
            c(Suit::Spades, Value::Jack),
            c(Suit::Spades, Value::Queen),
            c(Suit::Spades, Value::King),
            c(Suit::Spades, Value::Ace),
        ]
    );
}

#[test]
fn draw_from_stops_when_the_deck_runs_out() {
    let mut deck = Deck {
        cards: vec![c(Suit::Hearts, Value::Six), c(Suit::Clubs, Value::King)],
        trump: Suit::Hearts,
    };
    let mut hand = Hand { cards: vec![c(Suit::Spades, Value::Ace), c(Suit::Diamonds, Value::Ten)] };
    hand.draw_from(&mut deck);
    assert!(deck.cards.is_empty());
    assert_eq!(
        hand.cards,
        vec![
            c(Suit::Clubs, Value::King),
            c(Suit::Diamonds, Value::Ten),
            c(Suit::Hearts, Value::Six),
            c(Suit::Spades, Value::Ace),
        ]
    );
}

#[test]
fn draw_from_leaves_a_full_hand_alone() {
    let mut deck = Deck::new_sorted();
    let mut hand = Hand { cards: Deck::new_sorted().cards[0..7].to_vec() };
    hand.draw_from(&mut deck);
    assert_eq!(deck.cards.len(), 36);
    assert_eq!(hand.cards.len(), 7);
}

#[test]
fn acceptable_moves_on_empty_table_is_whole_hand_trumps_last() {
    let trump = Suit::Hearts;
    let hand = Hand {
        cards: vec![
            c(Suit::Hearts, Value::Six),
            c(Suit::Clubs, Value::Ace),
            c(Suit::Spades, Value::Seven),
            c(Suit::Hearts, Value::Queen),
            c(Suit::Diamonds, Value::Seven),
        ],
    };
    let moves = hand.acceptable_moves(&Table::new(), trump);
    assert_eq!(
        moves,
        vec![
            c(Suit::Diamonds, Value::Seven),
            c(Suit::Spades, Value::Seven),
            c(Suit::Clubs, Value::Ace),
            c(Suit::Hearts, Value::Six),
            c(Suit::Hearts, Value::Queen),
        ]
    );
}

#[test]
fn acceptable_moves_against_open_attack_are_the_covering_cards() {
    let trump = Suit::Hearts;
    let hand = Hand {
        cards: vec![
            c(Suit::Clubs, Value::Six),
            c(Suit::Clubs, Value::Ace),
            c(Suit::Spades, Value::Ace),
            c(Suit::Hearts, Value::Six),
        ],
    };
    let table = Table { cards: vec![(c(Suit::Clubs, Value::Ten), None)] };
    assert_eq!(
        hand.acceptable_moves(&table, trump),
        vec![c(Suit::Clubs, Value::Ace), c(Suit::Hearts, Value::Six)]
    );
    let weak = Hand { cards: vec![c(Suit::Clubs, Value::Six), c(Suit::Spades, Value::Ace)] };
    assert!(weak.acceptable_moves(&table, trump).is_empty());
}

#[test]
fn acceptable_moves_for_follow_up_use_ranks_on_the_table() {
    let trump = Suit::Hearts;
    let hand = Hand {
        cards: vec![
            c(Suit::Diamonds, Value::Ten),
            c(Suit::Spades, Value::Jack),
            c(Suit::Hearts, Value::Seven),
            c(Suit::Clubs, Value::Ace),
        ],
    };
    let table = Table {
        cards: vec![(c(Suit::Clubs, Value::Ten), Some(c(Suit::Clubs, Value::Jack)))],
    };
    assert_eq!(
        hand.acceptable_moves(&table, trump),
        vec![c(Suit::Diamonds, Value::Ten), c(Suit::Spades, Value::Jack)]
    );
}

#[test]
fn attack_and_defend_move_cards_to_the_table() {
    let mut attacker = Hand { cards: vec![c(Suit::Clubs, Value::Six), c(Suit::Clubs, Value::Seven)] };
    let mut defender = Hand { cards: vec![c(Suit::Clubs, Value::Eight)] };
    let mut table = Table::new();
    attacker.attack_with(c(Suit::Clubs, Value::Six), &mut table);
    assert_eq!(attacker.cards, vec![c(Suit::Clubs, Value::Seven)]);
    assert_eq!(table.cards, vec![(c(Suit::Clubs, Value::Six), None)]);
    defender.defend_with(c(Suit::Clubs, Value::Eight), &mut table);
    assert!(defender.cards.is_empty());
    assert_eq!(
        table.cards,
        vec![(c(Suit::Clubs, Value::Six), Some(c(Suit::Clubs, Value::Eight)))]
    );
}

#[test]
fn take_from_picks_up_every_table_card() {
    let mut hand = Hand { cards: vec![c(Suit::Spades, Value::Ace)] };
    let mut table = Table {
        cards: vec![
            (c(Suit::Clubs, Value::Six), Some(c(Suit::Clubs, Value::Eight))),
            (c(Suit::Hearts, Value::Six), None),
        ],
    };
    hand.take_from(&mut table);
    assert!(table.cards.is_empty());
    assert_eq!(
        hand.cards,
        vec![
            c(Suit::Clubs, Value::Six),
            c(Suit::Clubs, Value::Eight),
            c(Suit::Hearts, Value::Six),
            c(Suit::Spades, Value::Ace),
        ]
    );
}

#[test]
fn table_full_and_values() {
    let mut table = Table::new();
    assert!(!table.is_full());
    assert!(table.values().is_empty());
    table.cards.push((c(Suit::Clubs, Value::Six), Some(c(Suit::Clubs, Value::Eight))));
    table.cards.push((c(Suit::Hearts, Value::Six), None));
    let mut vals = table.values();
    vals.sort();
    assert_eq!(vals, vec![Value::Six, Value::Eight]);
    for _ in 0..4 {
        table.cards.push((c(Suit::Spades, Value::Six), None));
    }
    assert_eq!(table.cards.len(), HAND_SIZE);
    assert!(table.is_full());
}
