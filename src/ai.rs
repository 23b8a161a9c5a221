//! The computer opponent: it always plays its lowest acceptable card.

use vstd::prelude::*;

use crate::card::{acceptable, play_key, Card, Suit};
use crate::game::Game;

verus! {

/// Whether `r` is the lowest card of `hand`, in the display order under
/// `trump`, that may be played onto the table, or `None` when no card may.
pub open spec fn is_first_move(
    hand: Seq<Card>,
    slots: Seq<(Card, Option<Card>)>,
    trump: Suit,
    r: Option<Card>,
) -> bool {
    match r {
        Some(c) => {
            &&& hand.contains(c)
            &&& acceptable(slots, trump, c)
            &&& forall|i: int|
                0 <= i < hand.len() && acceptable(slots, trump, #[trigger] hand[i]) ==> play_key(c, trump)
                    <= play_key(hand[i], trump)
        },
        None => forall|i: int| 0 <= i < hand.len() ==> !acceptable(slots, trump, #[trigger] hand[i]),
    }
}

/// The opponent's policy.
#[derive(Debug)]
pub struct AI;

impl AI {
    pub fn new() -> AI {
        AI
    }

    /// The lowest card of the computer's hand that may be played onto the table.
    fn first_move(&self, game: &Game) -> (r: Option<Card>)
        ensures
            is_first_move(game.computer.cards@, game.table.cards@, game.deck.trump, r),
    {
        let moves = game.computer.acceptable_moves(&game.table, game.deck.trump);
        let ghost hand = game.computer.cards@;
        if moves.len() == 0 {
            assert forall|i: int| 0 <= i < hand.len() implies !acceptable(
                game.table.cards@,
                game.deck.trump,
                #[trigger] hand[i],
            ) by {
                if acceptable(game.table.cards@, game.deck.trump, hand[i]) {
                    assert(hand.contains(hand[i]));
                    assert(moves@.contains(hand[i]));
                }
            }
            None
        } else {
            let c = moves[0];
            assert(moves@.contains(c));
            assert forall|i: int|
                0 <= i < hand.len() && acceptable(
                    game.table.cards@,
                    game.deck.trump,
                    #[trigger] hand[i],
                ) implies play_key(c, game.deck.trump) <= play_key(hand[i], game.deck.trump) by {
                assert(hand.contains(hand[i]));
                assert(moves@.contains(hand[i]));
                let j = choose|j: int| 0 <= j < moves@.len() && moves@[j] == hand[i];
                if j > 0 {
                    assert(crate::card::trump_order(game.deck.trump)(moves@[0])
                        <= crate::card::trump_order(game.deck.trump)(moves@[j]));
                }
            }
            Some(c)
        }
    }

    /// Chooses the next attack: the lowest acceptable card, or `None` to yield.
    pub fn plan_attack(&self, game: &Game) -> (r: Option<Card>)
        ensures
            is_first_move(game.computer.cards@, game.table.cards@, game.deck.trump, r),
    {
        self.first_move(game)
    }

    /// Chooses a card covering the open attack: the lowest one that beats it,
    /// or `None` to take the table.
    pub fn plan_defense(&self, game: &Game) -> (r: Option<Card>)
        ensures
            is_first_move(game.computer.cards@, game.table.cards@, game.deck.trump, r),
    {
        self.first_move(game)
    }
}

} // verus!
