//! A poker hand evaluator with verified ranking rules.
//!
//! Five or seven cards go in; out comes the strongest five-card hand they can
//! form, classified into the ten standard categories and fully tie-broken, so
//! that any two results can be ordered for a showdown. Around the evaluator
//! stand the table pieces: a dealer with a shuffled deck, players with stacks
//! and wagers, and a game that seats players, posts blinds and rotates the
//! turn.

pub mod card;
pub mod dealer;
pub mod five_card_hand;
pub mod game;
pub mod hand;
pub mod player;
pub mod seven_card_hand;
