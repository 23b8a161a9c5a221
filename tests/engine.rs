use durak::ai::AI;
use durak::card::{Card, Deck, Hand, Suit, Table, Value, HAND_SIZE};
use durak::game::{Action, Game, Response, Winner};

fn c(suit: Suit, value: Value) -> Card {
    Card { suit, value }
}

fn slot_count(table: &Table) -> usize {
    table.cards.iter().map(|(_, d)| if d.is_some() { 2 } else { 1 }).sum()
}

fn card_count(g: &Game) -> usize {
    g.deck.cards.len() + g.player.cards.len() + g.computer.cards.len() + slot_count(&g.table)
        + g.discard.len()
}

/// A match with the given hands and deck; every other card is in the discard pile.
fn game_with(
    player: Vec<Card>,
    computer: Vec<Card>,
    deck: Vec<Card>,
    trump: Suit,
    players_turn: bool,
) -> Game {
    let used: Vec<Card> = player.iter().chain(computer.iter()).chain(deck.iter()).cloned().collect();
    let discard = Deck::new_sorted().cards.into_iter().filter(|x| !used.contains(x)).collect();
    Game {
        ai: AI::new(),
        deck: Deck { cards: deck, trump },
        discard,
        player: Hand { cards: player },
        computer: Hand { cards: computer },
        players_turn,
        table: Table::new(),
    }
}

#[test]
fn new_game_deals_six_each() {
    let g = Game::new(AI::new());
    assert_eq!(g.deck.cards.len(), 24);
    assert_eq!(g.player.cards.len(), HAND_SIZE);
    assert_eq!(g.computer.cards.len(), HAND_SIZE);
    assert!(g.table.cards.is_empty());
    assert!(g.discard.is_empty());
    assert_eq!(card_count(&g), 36);
}

#[test]
fn coin_flip_gives_both_sides_the_first_attack() {
    let mut player = 0;
    let mut computer = 0;
    for _ in 0..200 {
        if Game::new(AI::new()).players_turn {
            player += 1;
        } else {
            computer += 1;
        }
    }
    assert!(player > 0 && computer > 0);
}

#[test]
fn start_lets_the_computer_open_with_its_lowest_card() {
    let mut g = game_with(
        vec![c(Suit::Clubs, Value::Six)],
        vec![c(Suit::Hearts, Value::Six), c(Suit::Spades, Value::Ace), c(Suit::Diamonds, Value::Nine)],
        vec![c(Suit::Hearts, Value::Ace)],
        Suit::Hearts,
        false,
    );
    g.start();
    assert_eq!(g.table.cards, vec![(c(Suit::Diamonds, Value::Nine), None)]);
    assert_eq!(g.computer.cards.len(), 2);
    let mut h = game_with(vec![c(Suit::Clubs, Value::Six)], vec![c(Suit::Clubs, Value::Seven)], vec![], Suit::Hearts, true);
    h.start();
    assert!(h.table.cards.is_empty());
}

#[test]
fn attack_defend_and_end_turn_discards_exactly_two_cards() {
    let mut g = game_with(
        vec![c(Suit::Clubs, Value::Six), c(Suit::Diamonds, Value::Ace)],
        vec![c(Suit::Clubs, Value::Seven), c(Suit::Spades, Value::Eight)],
        vec![c(Suit::Hearts, Value::Six), c(Suit::Hearts, Value::Seven), c(Suit::Hearts, Value::Eight)],
        Suit::Hearts,
        true,
    );
    let discard_before = g.discard.len();
    assert!(g.is_valid_move(&c(Suit::Clubs, Value::Six)));
    let r = g.player_action(Action::Play(c(Suit::Clubs, Value::Six)));
    assert!(matches!(r, Response::Play(x) if x == c(Suit::Clubs, Value::Seven)));
    assert_eq!(card_count(&g), 36);
    let r = g.player_action(Action::EndTurn);
    assert_eq!(g.discard.len(), discard_before + 2);
    assert!(g.discard.contains(&c(Suit::Clubs, Value::Six)));
    assert!(g.discard.contains(&c(Suit::Clubs, Value::Seven)));
    assert!(!g.players_turn);
    // The computer opened the next attack at once.
    assert!(matches!(r, Response::Play(_)));
    assert_eq!(g.table.cards.len(), 1);
    assert_eq!(card_count(&g), 36);
}

#[test]
fn player_takes_the_table_including_the_open_attack() {
    let mut g = game_with(
        vec![c(Suit::Clubs, Value::Six), c(Suit::Diamonds, Value::Seven)],
        vec![c(Suit::Spades, Value::Ace), c(Suit::Spades, Value::King)],
        vec![c(Suit::Hearts, Value::Six), c(Suit::Hearts, Value::Seven)],
        Suit::Hearts,
        false,
    );
    g.start();
    assert_eq!(g.table.cards, vec![(c(Suit::Spades, Value::King), None)]);
    let r = g.player_action(Action::EndTurn);
    assert!(g.player.cards.contains(&c(Suit::Spades, Value::King)));
    assert_eq!(g.player.cards.len(), 3);
    assert_eq!(card_count(&g), 36);
    assert!(matches!(r, Response::Play(_)));
    assert_eq!(g.table.cards.len(), 1);
}

#[test]
fn defense_lets_the_computer_attack_again_with_a_table_rank() {
    let mut g = game_with(
        vec![c(Suit::Clubs, Value::Ace), c(Suit::Diamonds, Value::Seven)],
        vec![c(Suit::Clubs, Value::Six), c(Suit::Diamonds, Value::Six), c(Suit::Spades, Value::King)],
        vec![c(Suit::Hearts, Value::Ace)],
        Suit::Hearts,
        false,
    );
    g.start();
    assert_eq!(g.table.cards, vec![(c(Suit::Clubs, Value::Six), None)]);
    assert!(g.is_valid_move(&c(Suit::Clubs, Value::Ace)));
    assert!(!g.is_valid_move(&c(Suit::Diamonds, Value::Seven)));
    let r = g.player_action(Action::Play(c(Suit::Clubs, Value::Ace)));
    assert!(matches!(r, Response::Play(x) if x == c(Suit::Diamonds, Value::Six)));
    let r = g.player_action(Action::Play(c(Suit::Diamonds, Value::Seven)));
    // No Six, Seven or Ace left to add: the computer yields.
    assert!(matches!(r, Response::EndTurn));
    assert!(g.players_turn);
    assert!(g.table.cards.is_empty());
    assert_eq!(card_count(&g), 36);
}

#[test]
fn winner_cases() {
    let g = game_with(vec![], vec![c(Suit::Clubs, Value::Six)], vec![], Suit::Hearts, true);
    assert_eq!(g.winner(), Some(Winner::Player));
    let g = game_with(vec![c(Suit::Clubs, Value::Six)], vec![], vec![], Suit::Hearts, true);
    assert_eq!(g.winner(), Some(Winner::Computer));
    let g = game_with(vec![], vec![], vec![], Suit::Hearts, true);
    assert_eq!(g.winner(), Some(Winner::Tie));
    let g = game_with(vec![c(Suit::Clubs, Value::Six)], vec![c(Suit::Clubs, Value::Seven)], vec![], Suit::Hearts, true);
    assert_eq!(g.winner(), None);
    let g = game_with(vec![], vec![], vec![c(Suit::Clubs, Value::Seven)], Suit::Hearts, true);
    assert_eq!(g.winner(), None);
}

#[test]
fn last_attack_card_ends_the_match() {
    let mut g = game_with(
        vec![c(Suit::Clubs, Value::Six)],
        vec![c(Suit::Clubs, Value::Seven), c(Suit::Spades, Value::Eight)],
        vec![],
        Suit::Hearts,
        true,
    );
    let r = g.player_action(Action::Play(c(Suit::Clubs, Value::Six)));
    assert!(matches!(r, Response::GameOver(Winner::Player)));
    assert_eq!(g.winner(), Some(Winner::Player));
}

fn six_attack_game() -> Game {
    game_with(
        vec![
            c(Suit::Hearts, Value::Six),
            c(Suit::Hearts, Value::Nine),
            c(Suit::Clubs, Value::Ten),
            c(Suit::Clubs, Value::Jack),
            c(Suit::Diamonds, Value::Queen),
            c(Suit::Diamonds, Value::King),
        ],
        vec![c(Suit::Diamonds, Value::Six)],
        vec![
            c(Suit::Spades, Value::Six),
            c(Suit::Spades, Value::Seven),
            c(Suit::Spades, Value::Eight),
            c(Suit::Spades, Value::Nine),
            c(Suit::Spades, Value::Ten),
            c(Suit::Spades, Value::Jack),
            c(Suit::Spades, Value::Queen),
        ],
        Suit::Spades,
        true,
    )
}

#[test]
fn computer_cannot_cover_a_plain_six() {
    let mut g = six_attack_game();
    g.player.attack_with(c(Suit::Hearts, Value::Six), &mut g.table);
    assert_eq!(g.ai.plan_defense(&g), None);
}

#[test]
fn computer_takes_a_six_it_cannot_cover_and_refills() {
    let mut g = six_attack_game();
    let r = g.player_action(Action::Play(c(Suit::Hearts, Value::Six)));
    assert!(matches!(r, Response::Take));
    assert!(g.computer.cards.contains(&c(Suit::Hearts, Value::Six)));
    assert_eq!(g.computer.cards.len(), 6);
    assert_eq!(g.player.cards.len(), 6);
    assert!(g.table.cards.is_empty());
    assert!(g.players_turn);
    assert_eq!(card_count(&g), 36);
}

#[test]
fn full_table_ends_the_turn_even_with_an_empty_deck() {
    let mut g = game_with(
        vec![c(Suit::Spades, Value::Ace), c(Suit::Diamonds, Value::Ace)],
        vec![c(Suit::Clubs, Value::Seven), c(Suit::Hearts, Value::Seven)],
        vec![],
        Suit::Spades,
        false,
    );
    let pairs = [
        (c(Suit::Clubs, Value::Six), c(Suit::Clubs, Value::Eight)),
        (c(Suit::Hearts, Value::Six), c(Suit::Hearts, Value::Eight)),
        (c(Suit::Diamonds, Value::Six), c(Suit::Diamonds, Value::Eight)),
        (c(Suit::Clubs, Value::Nine), c(Suit::Clubs, Value::Ten)),
        (c(Suit::Hearts, Value::Nine), c(Suit::Hearts, Value::Ten)),
    ];
    for (a, d) in pairs.iter() {
        g.discard.retain(|x| x != a && x != d);
        g.table.cards.push((*a, Some(*d)));
    }
    g.discard.retain(|x| *x != c(Suit::Diamonds, Value::Nine));
    g.table.cards.push((c(Suit::Diamonds, Value::Nine), None));
    assert_eq!(card_count(&g), 36);
    let r = g.player_action(Action::Play(c(Suit::Diamonds, Value::Ace)));
    assert!(matches!(r, Response::EndTurn));
    assert!(g.players_turn);
    assert!(g.table.cards.is_empty());
    assert_eq!(g.player.cards, vec![c(Suit::Spades, Value::Ace)]);
    assert_eq!(card_count(&g), 36);
}

#[test]
fn full_table_refills_both_hands_computer_first() {
    let mut g = game_with(
        vec![c(Suit::Spades, Value::Ace), c(Suit::Diamonds, Value::Ace)],
        vec![c(Suit::Clubs, Value::Seven)],
        vec![c(Suit::Hearts, Value::Jack), c(Suit::Hearts, Value::Queen), c(Suit::Hearts, Value::King)],
        Suit::Spades,
        false,
    );
    let pairs = [
        (c(Suit::Clubs, Value::Six), c(Suit::Clubs, Value::Eight)),
        (c(Suit::Hearts, Value::Six), c(Suit::Hearts, Value::Eight)),
        (c(Suit::Diamonds, Value::Six), c(Suit::Diamonds, Value::Eight)),
        (c(Suit::Clubs, Value::Nine), c(Suit::Clubs, Value::Ten)),
        (c(Suit::Hearts, Value::Nine), c(Suit::Hearts, Value::Ten)),
    ];
    for (a, d) in pairs.iter() {
        g.discard.retain(|x| x != a && x != d);
        g.table.cards.push((*a, Some(*d)));
    }
    g.discard.retain(|x| *x != c(Suit::Diamonds, Value::Nine));
    g.table.cards.push((c(Suit::Diamonds, Value::Nine), None));
    let r = g.player_action(Action::Play(c(Suit::Diamonds, Value::Ace)));
    assert!(matches!(r, Response::EndTurn));
    assert!(g.deck.cards.is_empty());
    assert_eq!(g.computer.cards.len(), 4);
    assert!(g.computer.cards.contains(&c(Suit::Hearts, Value::Jack)));
    assert_eq!(g.player.cards.len(), 1);
    assert_eq!(card_count(&g), 36);
}

#[test]
fn is_valid_move_refuses_attacks_on_a_full_table_or_an_empty_hand() {
    let mut g = game_with(vec![c(Suit::Clubs, Value::Six)], vec![], vec![], Suit::Hearts, true);
    assert!(!g.is_valid_move(&c(Suit::Clubs, Value::Six)));
    g.computer.cards.push(c(Suit::Spades, Value::Six));
    g.discard.retain(|x| *x != c(Suit::Spades, Value::Six));
    assert!(g.is_valid_move(&c(Suit::Clubs, Value::Six)));
    assert!(!g.is_valid_move(&c(Suit::Clubs, Value::Seven)));
    for _ in 0..HAND_SIZE {
        g.table.cards.push((c(Suit::Hearts, Value::Six), Some(c(Suit::Hearts, Value::Seven))));
    }
    assert!(!g.is_valid_move(&c(Suit::Clubs, Value::Six)));
}

#[test]
fn whole_matches_keep_36_cards_and_end() {
    for _ in 0..30 {
        let mut g = Game::new(AI::new());
        g.start();
        let mut steps = 0;
        loop {
            assert_eq!(card_count(&g), 36);
            steps += 1;
            assert!(steps < 1000);
            if g.winner().is_some() {
                break;
            }
            let moves = g.player.acceptable_moves(&g.table, g.deck.trump);
            let pick = moves.iter().cloned().find(|m| g.is_valid_move(m));
            let open = g.table.cards.last().map_or(false, |s| s.1.is_none());
            let action = match pick {
                Some(card) if g.players_turn || open => Action::Play(card),
                _ => Action::EndTurn,
            };
            if let Response::GameOver(w) = g.player_action(action) {
                assert_eq!(g.winner(), Some(w));
                break;
            }
        }
    }
}

#[test]
fn deal_gives_the_player_the_last_six_and_the_computer_the_next_six() {
    let mut cards = Deck::new_sorted().cards;
    cards.reverse();
    let deck = Deck::from_shuffled(cards.clone());
    assert_eq!(deck.trump, Suit::Spades);
    let g = Game::deal(AI::new(), deck, false);
    assert_eq!(g.deck.cards, cards[0..24].to_vec());
    assert_eq!(g.deck.trump, Suit::Spades);
    // Reversed sorted deck: the last six are Clubs Six..Jack, the next six
    // Clubs Queen..Ace and Diamonds Six..Eight.
    assert_eq!(
        g.player.cards,
        vec![
            c(Suit::Clubs, Value::Six),
            c(Suit::Clubs, Value::Seven),
            c(Suit::Clubs, Value::Eight),
            c(Suit::Clubs, Value::Nine),
            c(Suit::Clubs, Value::Ten),
            c(Suit::Clubs, Value::Jack),
        ]
    );
    assert_eq!(
        g.computer.cards,
        vec![
            c(Suit::Clubs, Value::Queen),
            c(Suit::Clubs, Value::King),
            c(Suit::Clubs, Value::Ace),
            c(Suit::Diamonds, Value::Six),
            c(Suit::Diamonds, Value::Seven),
            c(Suit::Diamonds, Value::Eight),
        ]
    );
    assert!(!g.players_turn);
    assert!(g.table.cards.is_empty());
    assert!(g.discard.is_empty());
    assert_eq!(card_count(&g), 36);
    assert!(Game::deal(AI::new(), Deck::new_sorted(), true).players_turn);
}

#[test]
fn from_shuffled_keeps_the_order_and_takes_trump_from_the_first_card() {
    let mut cards = Deck::new_sorted().cards;
    cards.swap(0, 20);
    let deck = Deck::from_shuffled(cards.clone());
    assert_eq!(deck.cards, cards);
    assert_eq!(deck.trump, cards[0].suit);
    assert_eq!(deck.trump, Suit::Hearts);
}
