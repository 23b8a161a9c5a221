//! Rules engine for two-player Durak: cards, deck, hands, the table and the
//! turn-by-turn state machine that drives a match to its end.

pub mod ai;
pub mod card;
pub mod game;
