//! The match: deck, both hands, the table and the discard pile, driven one
//! player action at a time.

use vstd::multiset::Multiset;
use vstd::prelude::*;

use crate::ai::AI;
use crate::ai::is_first_move;
use crate::card::{
    acceptable, draw_count, slot_cards, full_deck, hand_order, sorted_by_key, table_cards, Card, Deck, Hand,
    Table, DECK_SIZE, HAND_SIZE,
};

verus! {

broadcast use {
    vstd::seq_lib::group_to_multiset_ensures,
    vstd::multiset::group_multiset_axioms,
    vstd::seq_lib::lemma_multiset_commutative,
};

/// The outcome of a finished match.
#[derive(Debug, Clone, Copy, PartialEq, Eq, Structural)]
pub enum Winner {
    Player,
    Computer,
    Tie,
}

/// A state of the match: the human player against the computer.
#[derive(Debug)]
pub struct Game {
    pub ai: AI,
    pub deck: Deck,
    pub discard: Vec<Card>,
    pub player: Hand,
    pub computer: Hand,
    pub players_turn: bool,
    pub table: Table,
}


/// What the human player does.
#[derive(Debug, Clone, Copy, PartialEq, Eq, Structural)]
pub enum Action {
    /// Attack or defend with the card.
    Play(Card),
    /// Finish an attack, or take the cards when defending.
    EndTurn,
}

/// What came of the player's action.
#[derive(Debug, Clone, Copy, PartialEq, Eq, Structural)]
pub enum Response {
    /// The computer attacks or defends with this card.
    Play(Card),
    /// The computer takes the table.
    Take,
    /// The turn is over.
    EndTurn,
    /// The match is over.
    GameOver(Winner),
}

/// Whether every slot of the table is covered (an empty table included).
pub open spec fn table_closed(slots: Seq<(Card, Option<Card>)>) -> bool {
    slots.len() == 0 || slots.last().1 is Some
}

/// Whether the last slot of the table holds an attack not yet covered.
pub open spec fn attack_open(slots: Seq<(Card, Option<Card>)>) -> bool {
    slots.len() > 0 && slots.last().1 is None
}

/// The winner once the deck is gone: whoever clears the hand first; both at
/// once is a tie. While the deck has cards, or both players hold cards, none.
pub open spec fn winner_of(deck_len: int, player_len: int, computer_len: int) -> Option<Winner> {
    if deck_len == 0 && player_len == 0 && computer_len == 0 {
        Some(Winner::Tie)
    } else if deck_len == 0 && player_len == 0 {
        Some(Winner::Player)
    } else if deck_len == 0 && computer_len == 0 {
        Some(Winner::Computer)
    } else {
        None
    }
}

/// Whether `after` is `before` with both hands refilled from the deck, the
/// player's hand first when `player_first`, otherwise the computer's; all
/// else stays as it was.
pub open spec fn refilled(before: Game, after: Game, player_first: bool) -> bool {
    let d = before.deck.cards@;
    let dl = d.len() as int;
    let h1 = if player_first { before.player.cards@ } else { before.computer.cards@ };
    let h2 = if player_first { before.computer.cards@ } else { before.player.cards@ };
    let g1 = if player_first { after.player.cards@ } else { after.computer.cards@ };
    let g2 = if player_first { after.computer.cards@ } else { after.player.cards@ };
    let n1 = draw_count(h1.len() as int, dl);
    let n2 = draw_count(h2.len() as int, dl - n1);
    &&& after.deck.cards@ == d.subrange(0, dl - n1 - n2)
    &&& after.deck.trump == before.deck.trump
    &&& g1.len() == h1.len() + n1
    &&& g1.to_multiset() == h1.to_multiset().add(d.subrange(dl - n1, dl).to_multiset())
    &&& g2.len() == h2.len() + n2
    &&& g2.to_multiset() == h2.to_multiset().add(d.subrange(dl - n1 - n2, dl - n1).to_multiset())
    &&& sorted_by_key(g1, hand_order())
    &&& sorted_by_key(g2, hand_order())
    &&& after.table.cards@ == before.table.cards@
    &&& after.discard@ == before.discard@
    &&& after.players_turn == before.players_turn
}

/// Whether `after` is `before` with the computer's lowest acceptable card
/// `c` played as a new attack.
pub open spec fn opened_with(before: Game, after: Game, c: Card) -> bool {
    &&& is_first_move(before.computer.cards@, before.table.cards@, before.deck.trump, Some(c))
    &&& after.table.cards@ == before.table.cards@.push((c, None))
    &&& after.computer.cards@.to_multiset() == before.computer.cards@.to_multiset().remove(c)
    &&& after.computer.cards@.len() + 1 == before.computer.cards@.len()
    &&& after.player.cards@ == before.player.cards@
    &&& after.deck.cards@ == before.deck.cards@
    &&& after.deck.trump == before.deck.trump
    &&& after.discard@ == before.discard@
    &&& after.players_turn == before.players_turn
}

/// Whether `after` is `before` with the table moved onto the discard pile.
pub open spec fn discarded(before: Game, after: Game) -> bool {
    &&& after.table.cards@.len() == 0
    &&& after.discard@ == before.discard@ + table_cards(before.table.cards@)
    &&& after.player.cards@ == before.player.cards@
    &&& after.computer.cards@ == before.computer.cards@
    &&& after.deck.cards@ == before.deck.cards@
    &&& after.deck.trump == before.deck.trump
}

/// Whether `after` is `before` with `a` taken from the player's hand and laid
/// on the table as a new attack.
pub open spec fn played_attack(before: Game, after: Game, a: Card) -> bool {
    &&& after.table.cards@ == before.table.cards@.push((a, None))
    &&& after.player.cards@.to_multiset() == before.player.cards@.to_multiset().remove(a)
    &&& after.player.cards@.len() + 1 == before.player.cards@.len()
    &&& after.computer.cards@ == before.computer.cards@
    &&& after.deck == before.deck
    &&& after.discard@ == before.discard@
    &&& after.players_turn == before.players_turn
}

/// Whether `after` is `before` with the open attack covered by `d`, taken
/// from the player's hand when `by_player`, otherwise from the computer's.
pub open spec fn covered(before: Game, after: Game, d: Card, by_player: bool) -> bool {
    let h0 = if by_player { before.player.cards@ } else { before.computer.cards@ };
    let h1 = if by_player { after.player.cards@ } else { after.computer.cards@ };
    let o0 = if by_player { before.computer.cards@ } else { before.player.cards@ };
    let o1 = if by_player { after.computer.cards@ } else { after.player.cards@ };
    &&& after.table.cards@ == before.table.cards@.drop_last().push(
        (before.table.cards@.last().0, Some(d)),
    )
    &&& h1.to_multiset() == h0.to_multiset().remove(d)
    &&& h1.len() + 1 == h0.len()
    &&& o1 == o0
    &&& after.deck == before.deck
    &&& after.discard@ == before.discard@
    &&& after.players_turn == before.players_turn
}

/// Whether `after` is `before` with every card of the table picked up by the
/// player when `by_player`, otherwise by the computer.
pub open spec fn took_table(before: Game, after: Game, by_player: bool) -> bool {
    let h0 = if by_player { before.player.cards@ } else { before.computer.cards@ };
    let h1 = if by_player { after.player.cards@ } else { after.computer.cards@ };
    let o0 = if by_player { before.computer.cards@ } else { before.player.cards@ };
    let o1 = if by_player { after.computer.cards@ } else { after.player.cards@ };
    &&& after.table.cards@.len() == 0
    &&& h1.to_multiset() == h0.to_multiset().add(table_cards(before.table.cards@).to_multiset())
    &&& h1.len() == h0.len() + table_cards(before.table.cards@).len()
    &&& sorted_by_key(h1, hand_order())
    &&& o1 == o0
    &&& after.deck == before.deck
    &&& after.discard@ == before.discard@
    &&& after.players_turn == before.players_turn
}

/// Whether `after` is `before` with the computer's hand alone refilled.
pub open spec fn computer_refilled(before: Game, after: Game) -> bool {
    let d = before.deck.cards@;
    let dl = d.len() as int;
    let n = draw_count(before.computer.cards@.len() as int, dl);
    &&& after.deck.cards@ == d.subrange(0, dl - n)
    &&& after.deck.trump == before.deck.trump
    &&& after.computer.cards@.len() == before.computer.cards@.len() + n
    &&& after.computer.cards@.to_multiset() == before.computer.cards@.to_multiset().add(
        d.subrange(dl - n, dl).to_multiset(),
    )
    &&& sorted_by_key(after.computer.cards@, hand_order())
    &&& after.player == before.player
    &&& after.table == before.table
    &&& after.discard == before.discard
    &&& after.players_turn == before.players_turn
}

/// `resp`, unless the match is over in `g`.
pub open spec fn outcome(g: Game, resp: Response) -> Response {
    match g.winner_spec() {
        Some(w) => Response::GameOver(w),
        None => resp,
    }
}

/// The player attacked with `a`: the computer covers it with its lowest
/// beating card, or takes the table, after which both hands are refilled,
/// the computer's first. The match may end on either.
pub open spec fn answered_attack(before: Game, after: Game, a: Card, r: Response) -> bool {
    exists|m: Game|
        #![trigger played_attack(before, m, a)]
        played_attack(before, m, a) && exists|d: Option<Card>|
            #![trigger is_first_move(m.computer.cards@, m.table.cards@, m.deck.trump, d)]
            is_first_move(m.computer.cards@, m.table.cards@, m.deck.trump, d) && match d {
                Some(c) => covered(m, after, c, false) && r == outcome(after, Response::Play(c)),
                None => exists|m2: Game|
                    #![trigger took_table(m, m2, false)]
                    took_table(m, m2, false) && refilled(m2, after, false) && r == outcome(
                        after,
                        Response::Take,
                    ),
            }
}

/// The player ended the attack: both hands are refilled, the player's first;
/// unless the match is over, the table is discarded, the turn passes to the
/// computer and it opens a new attack.
pub open spec fn ended_attack(before: Game, after: Game, r: Response) -> bool {
    exists|m: Game|
        #![trigger refilled(before, m, true)]
        refilled(before, m, true) && match m.winner_spec() {
            Some(w) => r == Response::GameOver(w) && after == m,
            None => exists|m2: Game, c: Card|
                #![trigger discarded(m, m2), opened_with(m2, after, c)]
                discarded(m, m2) && !m2.players_turn && opened_with(m2, after, c) && r
                    == Response::Play(c),
        }
}

/// The player covered the open attack with `d`. A full table ends the turn:
/// both hands are refilled, the computer's first, and unless the match is
/// over the table is discarded and the player attacks next. Otherwise, unless
/// the match is over, the computer attacks again with its lowest acceptable
/// card, or, having none, yields: the table is discarded, both hands are
/// refilled, the computer's first, and the player attacks next.
pub open spec fn answered_defense(before: Game, after: Game, d: Card, r: Response) -> bool {
    exists|m: Game|
        #![trigger covered(before, m, d, true)]
        covered(before, m, d, true) && if m.table.cards@.len() >= HAND_SIZE {
            exists|m2: Game|
                #![trigger refilled(m, m2, false)]
                refilled(m, m2, false) && match m2.winner_spec() {
                    Some(w) => r == Response::GameOver(w) && after == m2,
                    None => discarded(m2, after) && after.players_turn && r == Response::EndTurn,
                }
        } else {
            match m.winner_spec() {
                Some(w) => r == Response::GameOver(w) && after == m,
                None => exists|a: Option<Card>|
                    #![trigger is_first_move(m.computer.cards@, m.table.cards@, m.deck.trump, a)]
                    is_first_move(m.computer.cards@, m.table.cards@, m.deck.trump, a) && match a {
                        Some(c) => opened_with(m, after, c) && r == Response::Play(c),
                        None => exists|m2: Game|
                            #![trigger discarded(m, m2)]
                            discarded(m, m2) && m2.players_turn && refilled(m2, after, false) && r
                                == Response::EndTurn,
                    },
            }
        }
}

/// The player took the table: the computer refills its hand and, unless the
/// match is over, opens a new attack.
pub open spec fn took_cards(before: Game, after: Game, r: Response) -> bool {
    exists|m: Game, m2: Game|
        #![trigger took_table(before, m, true), computer_refilled(m, m2)]
        took_table(before, m, true) && computer_refilled(m, m2) && match m2.winner_spec() {
            Some(w) => r == Response::GameOver(w) && after == m2,
            None => exists|c: Card| #![trigger opened_with(m2, after, c)] opened_with(m2, after, c) && r == Response::Play(c),
        }
}

/// A sequence is its prefix followed by its suffix, in multiset terms too.
proof fn lemma_split(s: Seq<Card>, i: int)
    requires
        0 <= i <= s.len(),
    ensures
        s.to_multiset() == s.subrange(0, i).to_multiset().add(s.subrange(i, s.len() as int).to_multiset()),
{
    assert(s == s.subrange(0, i) + s.subrange(i, s.len() as int));
}

/// Relies on rand's `random::<bool>`: a coin flip, of which nothing is known.
#[verifier::external_body]
fn coin_flip() -> bool {
    rand::random::<bool>()
}

impl Game {
    /// Every card of the game, wherever it lies.
    pub open spec fn all_cards(&self) -> Multiset<Card> {
        self.deck.cards@.to_multiset().add(self.player.cards@.to_multiset()).add(
            self.computer.cards@.to_multiset(),
        ).add(table_cards(self.table.cards@).to_multiset()).add(self.discard@.to_multiset())
    }

    /// How many cards lie in the deck, both hands, on the table and in the
    /// discard pile together.
    pub open spec fn card_count(&self) -> nat {
        self.deck.cards@.len() + self.player.cards@.len() + self.computer.cards@.len()
            + table_cards(self.table.cards@).len() + self.discard@.len()
    }

    /// The 36 cards, each exactly once, are spread over the deck, the hands,
    /// the table and the discard pile; the table is well formed, and while
    /// the player attacks no attack is left open.
    pub open spec fn wf(&self) -> bool {
        &&& self.all_cards() == full_deck().to_multiset()
        &&& self.table.wf()
        &&& self.deck.wf()
        &&& self.players_turn ==> table_closed(self.table.cards@)
    }

    pub open spec fn winner_spec(&self) -> Option<Winner> {
        winner_of(
            self.deck.cards@.len() as int,
            self.player.cards@.len() as int,
            self.computer.cards@.len() as int,
        )
    }

    /// Whether the player may play `card`: no attack onto a full table or
    /// against an empty hand, and the card must be one of the player's
    /// acceptable moves.
    pub open spec fn valid_move_spec(&self, card: Card) -> bool {
        &&& !(self.players_turn && (self.table.cards@.len() >= HAND_SIZE
            || self.computer.cards@.len() == 0))
        &&& self.player.cards@.contains(card)
        &&& acceptable(self.table.cards@, self.deck.trump, card)
    }

    /// The actions the engine accepts: a valid move, which as a defense must
    /// answer an open attack; ending the turn at any time.
    pub open spec fn action_allowed(&self, action: Action) -> bool {
        match action {
            Action::Play(card) => {
                &&& self.valid_move_spec(card)
                &&& !self.players_turn ==> attack_open(self.table.cards@)
            },
            Action::EndTurn => true,
        }
    }

    /// A new match: a shuffled deck, six cards dealt to each side, an empty
    /// table, and a coin flip for who attacks first.
    pub fn new(ai: AI) -> (g: Game)
        ensures
            g.wf(),
            g.deck.cards@.len() == 24,
            g.player.cards@.len() == HAND_SIZE,
            g.computer.cards@.len() == HAND_SIZE,
            sorted_by_key(g.player.cards@, hand_order()),
            sorted_by_key(g.computer.cards@, hand_order()),
            g.table.cards@.len() == 0,
            g.discard@.len() == 0,
    {
        let deck = Deck::new();
        let players_turn = coin_flip();
        Game::deal(ai, deck, players_turn)
    }

    /// Starts a match from a full deck in the given order: the player is dealt
    /// from the end of the deck first, then the computer, and `players_turn`
    /// says who attacks first.
    pub fn deal(ai: AI, deck: Deck, players_turn: bool) -> (g: Game)
        requires
            deck.wf(),
            deck.cards@.len() == DECK_SIZE,
            deck.cards@.to_multiset() == full_deck().to_multiset(),
        ensures
            g.deck.cards@ == deck.cards@.subrange(0, 24),
            g.deck.trump == deck.trump,
            g.computer.cards@.to_multiset() == deck.cards@.subrange(24, 30).to_multiset(),
            g.player.cards@.to_multiset() == deck.cards@.subrange(30, 36).to_multiset(),
            g.player.cards@.len() == HAND_SIZE,
            g.computer.cards@.len() == HAND_SIZE,
            sorted_by_key(g.player.cards@, hand_order()),
            sorted_by_key(g.computer.cards@, hand_order()),
            g.players_turn == players_turn,
            g.table.cards@.len() == 0,
            g.discard@.len() == 0,
            g.wf(),
    {
        let mut deck = deck;
        let ghost d0 = deck.cards@;
        let player = Hand::new(&mut deck);
        let ghost d1 = deck.cards@;
        let computer = Hand::new(&mut deck);
        let g = Game {
            ai: ai,
            deck: deck,
            discard: Vec::new(),
            player: player,
            computer: computer,
            players_turn: players_turn,
            table: Table::new(),
        };
        proof {
            lemma_split(d0, 30);
            lemma_split(d1, 24);
            assert(d1 == d0.subrange(0, 30));
            assert(d1.subrange(0, 24) == d0.subrange(0, 24));
            assert(d1.subrange(24, 30) == d0.subrange(24, 30));
            lemma_split(d0.subrange(0, 30), 24);
            assert(table_cards(g.table.cards@) == Seq::<Card>::empty());
            assert(Seq::<Card>::empty().to_multiset().len() == 0);
            assert(g.discard@ == Seq::<Card>::empty());
            assert(g.all_cards() =~= full_deck().to_multiset());
        }
        g
    }

    /// Lets the computer open the match when the coin flip gave it the
    /// first attack.
    pub fn start(&mut self)
        requires
            old(self).wf(),
            !old(self).players_turn ==> old(self).table.cards@.len() == 0
                && old(self).computer.cards@.len() > 0,
        ensures
            final(self).wf(),
            old(self).players_turn ==> final(self).deck == old(self).deck
                && final(self).player == old(self).player && final(self).computer == old(self).computer
                && final(self).table == old(self).table && final(self).discard == old(self).discard
                && final(self).players_turn,
            !old(self).players_turn ==> exists|c: Card| opened_with(*old(self), *final(self), c),
    {
        if !self.players_turn {
            let _ = self.start_attack();
        }
    }

    /// The computer opens an attack with its lowest card.
    fn start_attack(&mut self) -> (r: Response)
        requires
            old(self).wf(),
            !old(self).players_turn,
            old(self).table.cards@.len() == 0,
            old(self).computer.cards@.len() > 0,
        ensures
            final(self).wf(),
            exists|c: Card| r == Response::Play(c) && opened_with(*old(self), *final(self), c),
    {
        proof {
            let h = self.computer.cards@;
            assert(acceptable(self.table.cards@, self.deck.trump, h[0]));
        }
        let attack = self.ai.plan_attack(self).unwrap();
        let ghost before = *self;
        self.computer.attack_with(attack, &mut self.table);
        proof {
            crate::card::lemma_table_cards_push(before.table.cards@, (attack, None));
            assert(slot_cards((attack, None)) == seq![attack]);
            assert(seq![attack] == Seq::<Card>::empty().push(attack));
            assert(self.all_cards() =~= before.all_cards());
            assert(self.computer.cards@.len() + 1 == before.computer.cards@.len());
            assert(opened_with(before, *self, attack));
        }
        Response::Play(attack)
    }

    /// The player attacks with `attack`; the computer covers it or takes.
    fn defend(&mut self, attack: Card) -> (r: Response)
        requires
            old(self).wf(),
            old(self).players_turn,
            old(self).valid_move_spec(attack),
        ensures
            final(self).wf(),
            answered_attack(*old(self), *final(self), attack, r),
    {
        let ghost before = *self;
        self.player.attack_with(attack, &mut self.table);
        let ghost m = *self;
        proof {
            crate::card::lemma_table_cards_push(before.table.cards@, (attack, None));
            assert(slot_cards((attack, None)) == Seq::<Card>::empty().push(attack));
            assert(m.all_cards() =~= before.all_cards());
            assert(played_attack(before, m, attack));
        }
        let plan = self.ai.plan_defense(self);
        let response = match plan {
            Some(d) => {
                self.computer.defend_with(d, &mut self.table);
                proof {
                    let t = m.table.cards@;
                    assert(t.drop_last() == before.table.cards@);
                    crate::card::lemma_table_cards_push(before.table.cards@, (attack, Some(d)));
                    assert(slot_cards((attack, Some(d))) == seq![attack, d]);
                    assert(seq![attack, d] == Seq::<Card>::empty().push(attack).push(d));
                    assert(self.all_cards() =~= m.all_cards());
                    assert(covered(m, *self, d, false));
                }
                Response::Play(d)
            },
            None => {
                self.computer.take_from(&mut self.table);
                let ghost m2 = *self;
                proof {
                    assert(table_cards(self.table.cards@) == Seq::<Card>::empty());
                    assert(self.all_cards() =~= m.all_cards());
                    assert(took_table(m, m2, false));
                }
                self.refill_hands(false);
                Response::Take
            },
        };
        let w = self.winner();
        match w {
            Some(w) => Response::GameOver(w),
            None => response,
        }
    }

    /// The player ends the attack; the computer attacks next.
    fn switch_turn(&mut self) -> (r: Response)
        requires
            old(self).wf(),
            old(self).players_turn,
        ensures
            final(self).wf(),
            ended_attack(*old(self), *final(self), r),
    {
        let ghost before = *self;
        // The attacker draws first.
        self.refill_hands(true);
        let ghost m = *self;
        if let Some(w) = self.winner() {
            return Response::GameOver(w);
        }
        self.players_turn = false;
        self.discard_table();
        let ghost m2 = *self;
        proof {
            assert(discarded(m, m2));
            assert(self.computer.cards@.len() > 0);
        }
        self.start_attack()
    }

    /// The player covered the open attack with `defense`; the computer
    /// attacks again, or the turn ends.
    #[verifier::rlimit(40)]
    fn plan_attack(&mut self, defense: Card) -> (r: Response)
        requires
            old(self).wf(),
            !old(self).players_turn,
            attack_open(old(self).table.cards@),
            old(self).valid_move_spec(defense),
        ensures
            final(self).wf(),
            answered_defense(*old(self), *final(self), defense, r),
    {
        let ghost before = *self;
        self.player.defend_with(defense, &mut self.table);
        let ghost m = *self;
        proof {
            let t = before.table.cards@;
            let a = t.last().0;
            assert(t == t.drop_last().push(t.last()));
            crate::card::lemma_table_cards_push(t.drop_last(), t.last());
            crate::card::lemma_table_cards_push(t.drop_last(), (a, Some(defense)));
            assert(slot_cards((a, Some(defense))) == seq![a, defense]);
            assert(slot_cards((a, None::<Card>)) == seq![a]);
            assert(seq![a, defense] == seq![a].push(defense));
            assert(self.all_cards() =~= before.all_cards());
            assert(covered(before, m, defense, true));
        }
        if self.table.is_full() {
            // The attacker draws first.
            self.refill_hands(false);
            let ghost m2 = *self;
            if let Some(w) = self.winner() {
                Response::GameOver(w)
            } else {
                self.players_turn = true;
                self.discard_table();
                proof {
                    assert(refilled(m, m2, false));
                }
                Response::EndTurn
            }
        } else {
            if let Some(w) = self.winner() {
                Response::GameOver(w)
            } else {
                let plan = self.ai.plan_attack(self);
                match plan {
                    Some(attack) => {
                        self.computer.attack_with(attack, &mut self.table);
                        proof {
                            crate::card::lemma_table_cards_push(m.table.cards@, (attack, None));
                            assert(slot_cards((attack, None)) == Seq::<Card>::empty().push(attack));
                            assert(self.all_cards() =~= m.all_cards());
                            assert(opened_with(m, *self, attack));
                        }
                        Response::Play(attack)
                    },
                    None => {
                        // Nothing left to attack with: yield.
                        self.players_turn = true;
                        self.discard_table();
                        let ghost m2 = *self;
                        // The attacker draws first.
                        self.refill_hands(false);
                        proof {
                            assert(discarded(m, m2));
                        }
                        Response::EndTurn
                    },
                }
            }
        }
    }

    /// The player takes the table; the computer attacks again.
    fn player_took_cards(&mut self) -> (r: Response)
        requires
            old(self).wf(),
            !old(self).players_turn,
        ensures
            final(self).wf(),
            took_cards(*old(self), *final(self), r),
    {
        let ghost before = *self;
        self.player.take_from(&mut self.table);
        let ghost m = *self;
        proof {
            assert(table_cards(self.table.cards@) == Seq::<Card>::empty());
            assert(self.all_cards() =~= before.all_cards());
            assert(took_table(before, m, true));
        }
        self.computer.draw_from(&mut self.deck);
        let ghost m2 = *self;
        proof {
            let d = m.deck.cards@;
            let n = draw_count(m.computer.cards@.len() as int, d.len() as int);
            lemma_split(d, d.len() - n);
            assert(self.all_cards() =~= m.all_cards());
            assert(computer_refilled(m, m2));
        }
        if let Some(w) = self.winner() {
            return Response::GameOver(w);
        }
        self.start_attack()
    }

    /// Applies the player's action: while the player attacks, `Play` lays an
    /// attack and `EndTurn` ends the attack; while the computer attacks,
    /// `Play` covers the open attack and `EndTurn` takes the table.
    pub fn player_action(&mut self, action: Action) -> (r: Response)
        requires
            old(self).wf(),
            old(self).action_allowed(action),
        ensures
            final(self).wf(),
            final(self).deck.trump == old(self).deck.trump,
            r matches Response::GameOver(w) ==> final(self).winner_spec() == Some(w),
            match action {
                Action::Play(card) => if old(self).players_turn {
                    answered_attack(*old(self), *final(self), card, r)
                } else {
                    answered_defense(*old(self), *final(self), card, r)
                },
                Action::EndTurn => if old(self).players_turn {
                    ended_attack(*old(self), *final(self), r)
                } else {
                    took_cards(*old(self), *final(self), r)
                },
            },
    {
        if self.players_turn {
            match action {
                Action::Play(card) => self.defend(card),
                Action::EndTurn => self.switch_turn(),
            }
        } else {
            match action {
                Action::Play(card) => self.plan_attack(card),
                Action::EndTurn => self.player_took_cards(),
            }
        }
    }

    /// Moves the table onto the discard pile.
    fn discard_table(&mut self)
        ensures
            discarded(*old(self), *final(self)),
            final(self).players_turn == old(self).players_turn,
            old(self).all_cards() == final(self).all_cards(),
            old(self).table.wf() ==> final(self).table.wf(),
    {
        let ghost before = *self;
        let mut i: usize = 0;
        while i < self.table.cards.len()
            invariant
                i <= self.table.cards@.len(),
                self.table.cards@ == before.table.cards@,
                self.discard@ == before.discard@ + table_cards(before.table.cards@.subrange(0, i as int)),
                self.player.cards@ == before.player.cards@,
                self.computer.cards@ == before.computer.cards@,
                self.deck.cards@ == before.deck.cards@,
                self.deck.trump == before.deck.trump,
                self.players_turn == before.players_turn,
            decreases self.table.cards@.len() - i,
        {
            let (a, d) = self.table.cards[i];
            self.discard.push(a);
            match d {
                Some(c) => self.discard.push(c),
                None => {},
            }
            proof {
                let slots = before.table.cards@;
                assert(slots.subrange(0, i + 1) == slots.subrange(0, i as int).push(slots[i as int]));
                crate::card::lemma_table_cards_push(slots.subrange(0, i as int), slots[i as int]);
            }
            i += 1;
        }
        self.table.cards.clear();
        proof {
            assert(before.table.cards@.subrange(0, i as int) == before.table.cards@);
            assert(table_cards(self.table.cards@) == Seq::<Card>::empty());
            assert(table_cards(self.table.cards@).to_multiset().len() == 0);
            assert(self.all_cards() =~= before.all_cards());
        }
    }

    /// Refills both hands from the deck, in the given order.
    fn refill_hands(&mut self, player_first: bool)
        ensures
            refilled(*old(self), *final(self), player_first),
            old(self).all_cards() == final(self).all_cards(),
            old(self).deck.wf() ==> final(self).deck.wf(),
            old(self).wf() ==> final(self).wf(),
    {
        let ghost before = *self;
        if player_first {
            self.player.draw_from(&mut self.deck);
            let ghost mid = self.deck.cards@;
            self.computer.draw_from(&mut self.deck);
            proof { self.lemma_refill_ms(before, mid, player_first); }
        } else {
            self.computer.draw_from(&mut self.deck);
            let ghost mid = self.deck.cards@;
            self.player.draw_from(&mut self.deck);
            proof { self.lemma_refill_ms(before, mid, player_first); }
        }
    }

    proof fn lemma_refill_ms(&self, before: Game, mid: Seq<Card>, player_first: bool)
        requires
            ({
                let d = before.deck.cards@;
                let dl = d.len() as int;
                let h1 = if player_first { before.player.cards@ } else { before.computer.cards@ };
                let h2 = if player_first { before.computer.cards@ } else { before.player.cards@ };
                let g1 = if player_first { self.player.cards@ } else { self.computer.cards@ };
                let g2 = if player_first { self.computer.cards@ } else { self.player.cards@ };
                let n1 = draw_count(h1.len() as int, dl);
                let n2 = draw_count(h2.len() as int, dl - n1);
                &&& mid == d.subrange(0, dl - n1)
                &&& self.deck.cards@ == mid.subrange(0, mid.len() - n2)
                &&& g1.to_multiset() == h1.to_multiset().add(d.subrange(dl - n1, dl).to_multiset())
                &&& g2.to_multiset() == h2.to_multiset().add(mid.subrange(mid.len() - n2, mid.len() as int).to_multiset())
                &&& 0 <= n1 <= dl
                &&& 0 <= n2 <= dl - n1
            }),
            self.table.cards@ == before.table.cards@,
            self.discard@ == before.discard@,
        ensures
            self.all_cards() == before.all_cards(),
            ({
                let d = before.deck.cards@;
                let dl = d.len() as int;
                let h1 = if player_first { before.player.cards@ } else { before.computer.cards@ };
                let h2 = if player_first { before.computer.cards@ } else { before.player.cards@ };
                let n1 = draw_count(h1.len() as int, dl);
                let n2 = draw_count(h2.len() as int, dl - n1);
                &&& self.deck.cards@ == d.subrange(0, dl - n1 - n2)
                &&& mid.subrange(mid.len() - n2, mid.len() as int) == d.subrange(dl - n1 - n2, dl - n1)
            }),
    {
        let d = before.deck.cards@;
        let dl = d.len() as int;
        let h1 = if player_first { before.player.cards@ } else { before.computer.cards@ };
        let h2 = if player_first { before.computer.cards@ } else { before.player.cards@ };
        let n1 = draw_count(h1.len() as int, dl);
        let n2 = draw_count(h2.len() as int, dl - n1);
        lemma_split(d, dl - n1);
        lemma_split(mid, dl - n1 - n2);
        assert(mid.subrange(0, dl - n1 - n2) == d.subrange(0, dl - n1 - n2));
        assert(mid.subrange(dl - n1 - n2, dl - n1) == d.subrange(dl - n1 - n2, dl - n1));
        assert(self.all_cards() =~= before.all_cards());
    }

    /// Whether the player may play `card` now.
    pub fn is_valid_move(&self, card: &Card) -> (r: bool)
        ensures
            r == self.valid_move_spec(*card),
    {
        if self.players_turn && (self.table.is_full() || self.computer.cards.len() == 0) {
            return false;
        }
        let moves = self.player.acceptable_moves(&self.table, self.deck.trump);
        let mut i: usize = 0;
        while i < moves.len()
            invariant
                i <= moves@.len(),
                forall|k: int| 0 <= k < i ==> moves@[k] != *card,
                moves@.contains(*card) <==> self.player.cards@.contains(*card) && acceptable(
                    self.table.cards@,
                    self.deck.trump,
                    *card,
                ),
                !(self.players_turn && (self.table.cards@.len() >= HAND_SIZE
                    || self.computer.cards@.len() == 0)),
            decreases moves@.len() - i,
        {
            if moves[i] == *card {
                assert(moves@.contains(*card));
                return true;
            }
            i += 1;
        }
        false
    }

    /// The winner, once the deck is empty and a hand has run out.
    pub fn winner(&self) -> (r: Option<Winner>)
        ensures
            r == self.winner_spec(),
    {
        if self.deck.cards.len() == 0 {
            if self.player.cards.len() == 0 {
                Some(
                    if self.computer.cards.len() == 0 {
                        Winner::Tie
                    } else {
                        Winner::Player
                    },
                )
            } else if self.computer.cards.len() == 0 {
                Some(Winner::Computer)
            } else {
                None
            }
        } else {
            None
        }
    }
}


/// A well-formed match holds 36 cards in all, wherever they lie.
pub proof fn lemma_card_count(g: Game)
    requires
        g.wf(),
    ensures
        g.card_count() == 36,
{
    crate::card::lemma_full_deck_unique();
    vstd::seq_lib::to_multiset_len(full_deck());
    assert(g.all_cards().len() == g.card_count());
}

/// In a well-formed match no card is held twice: not in the deck, not in
/// either hand, not on the table and not in the discard pile.
pub proof fn lemma_no_card_twice(g: Game)
    requires
        g.wf(),
    ensures
        g.deck.cards@.no_duplicates(),
        g.player.wf(),
        g.computer.wf(),
        table_cards(g.table.cards@).no_duplicates(),
        g.discard@.no_duplicates(),
{
    crate::card::lemma_full_deck_unique();
    assert forall|x: Card| #[trigger] g.all_cards().count(x) == 1 by {
        assert(full_deck().to_multiset().count(x) == 1);
    }
    lemma_unique_part(g.deck.cards@, g.all_cards());
    lemma_unique_part(g.player.cards@, g.all_cards());
    lemma_unique_part(g.computer.cards@, g.all_cards());
    lemma_unique_part(table_cards(g.table.cards@), g.all_cards());
    lemma_unique_part(g.discard@, g.all_cards());
}

/// A part of a multiset in which nothing occurs twice has no duplicates.
proof fn lemma_unique_part(s: Seq<Card>, all: Multiset<Card>)
    requires
        forall|x: Card| #[trigger] all.count(x) == 1,
        forall|x: Card| s.to_multiset().count(x) <= #[trigger] all.count(x),
    ensures
        s.no_duplicates(),
{
    assert forall|x: Card| s.to_multiset().contains(x) implies s.to_multiset().count(x) == 1 by {
        assert(all.count(x) == 1);
    }
    s.lemma_multiset_has_no_duplicates_conv();
}

/// Picking up the table, by either side, keeps every card of the match: the
/// table ends empty and the cards of the match are the same.
pub proof fn lemma_take_keeps_cards(before: Game, after: Game, by_player: bool)
    requires
        took_table(before, after, by_player),
    ensures
        after.table.cards@.len() == 0,
        after.all_cards() == before.all_cards(),
{
    assert(table_cards(after.table.cards@) == Seq::<Card>::empty());
    assert(after.all_cards() =~= before.all_cards());
}

/// An attack on an empty table, covered, then discarded, leaves the table
/// empty and moves exactly those two cards onto the discard pile; no card
/// of the match is lost or doubled.
pub proof fn lemma_attack_defend_discard(g0: Game, g1: Game, g2: Game, g3: Game, a: Card, d: Card)
    requires
        g0.table.cards@.len() == 0,
        g0.player.cards@.contains(a),
        played_attack(g0, g1, a),
        covered(g1, g2, d, false),
        discarded(g2, g3),
    ensures
        g3.table.cards@.len() == 0,
        g3.discard@ == g0.discard@ + seq![a, d],
        g3.all_cards() == g0.all_cards(),
        g3.player.cards@.to_multiset() == g0.player.cards@.to_multiset().remove(a),
        g3.computer.cards@.to_multiset() == g0.computer.cards@.to_multiset().remove(d),
        g3.deck.cards@ == g0.deck.cards@,
        g3.deck.trump == g0.deck.trump,
        g0.all_cards() == full_deck().to_multiset() ==> g3.all_cards().count(a) == 1
            && g3.all_cards().count(d) == 1,
{
    crate::card::lemma_full_deck_unique();
    let t2 = g2.table.cards@;
    assert(t2 == Seq::<(Card, Option<Card>)>::empty().push((a, Some(d))));
    crate::card::lemma_table_cards_push(Seq::empty(), (a, Some(d)));
    assert(table_cards(Seq::<(Card, Option<Card>)>::empty()) == Seq::<Card>::empty());
    assert(table_cards(t2) == seq![a, d]);
    assert(g1.computer.cards@.to_multiset().count(d) > 0) by {
        let h1 = g1.computer.cards@.to_multiset();
        vstd::seq_lib::to_multiset_len(g1.computer.cards@);
        vstd::seq_lib::to_multiset_len(g2.computer.cards@);
        if h1.count(d) == 0 {
            assert(h1.remove(d) =~= h1);
        }
    }
    crate::card::lemma_table_cards_push(Seq::empty(), (a, None));
    assert(seq![a, d] == Seq::<Card>::empty().push(a).push(d));
    assert(table_cards(g3.table.cards@) == Seq::<Card>::empty());
    assert(g3.all_cards() =~= g0.all_cards());
}

/// With the deck gone: both hands empty is a tie, and while both players
/// hold cards there is no winner.
pub proof fn lemma_winner_when_deck_empty(g: Game)
    requires
        g.deck.cards@.len() == 0,
    ensures
        g.player.cards@.len() == 0 && g.computer.cards@.len() == 0 ==> g.winner_spec() == Some(
            Winner::Tie,
        ),
        g.player.cards@.len() > 0 && g.computer.cards@.len() > 0 ==> g.winner_spec() is None,
{
}

/// No winner while the deck still has cards, whatever the hands hold.
pub proof fn lemma_no_winner_while_deck_left(g: Game)
    requires
        g.deck.cards@.len() > 0,
    ensures
        g.winner_spec() is None,
{
}

/// A defense that fills the table ends the turn whether or not the deck still
/// has cards: both hands are refilled, the computer's first, and unless the
/// match is over the table is discarded and the player attacks next.
pub proof fn lemma_full_table_ends_turn(before: Game, after: Game, d: Card, r: Response)
    requires
        before.table.cards@.len() == HAND_SIZE,
        answered_defense(before, after, d, r),
    ensures
        exists|m: Game, m2: Game|
            #![trigger covered(before, m, d, true), refilled(m, m2, false)]
            covered(before, m, d, true) && refilled(m, m2, false) && (m2.winner_spec() is None
                ==> after.players_turn && after.table.cards@.len() == 0 && r == Response::EndTurn),
{
    let m = choose|m: Game| #[trigger] covered(before, m, d, true) && if m.table.cards@.len() >= HAND_SIZE {
            exists|m2: Game|
                #![trigger refilled(m, m2, false)]
                refilled(m, m2, false) && match m2.winner_spec() {
                    Some(w) => r == Response::GameOver(w) && after == m2,
                    None => discarded(m2, after) && after.players_turn && r == Response::EndTurn,
                }
        } else {
            match m.winner_spec() {
                Some(w) => r == Response::GameOver(w) && after == m,
                None => exists|a: Option<Card>|
                    #![trigger is_first_move(m.computer.cards@, m.table.cards@, m.deck.trump, a)]
                    is_first_move(m.computer.cards@, m.table.cards@, m.deck.trump, a) && match a {
                        Some(c) => opened_with(m, after, c) && r == Response::Play(c),
                        None => exists|m2: Game|
                            #![trigger discarded(m, m2)]
                            discarded(m, m2) && m2.players_turn && refilled(m2, after, false) && r
                                == Response::EndTurn,
                    },
            }
        };
    assert(m.table.cards@.len() == HAND_SIZE);
    let m2 = choose|m2: Game| #[trigger] refilled(m, m2, false) && match m2.winner_spec() {
        Some(w) => r == Response::GameOver(w) && after == m2,
        None => discarded(m2, after) && after.players_turn && r == Response::EndTurn,
    };
    assert(covered(before, m, d, true) && refilled(m, m2, false));
}

} // verus!
