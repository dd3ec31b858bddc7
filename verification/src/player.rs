//! A seated player: hole cards, chip stack, and the chips wagered this round.

use vstd::prelude::*;
use crate::card::Card;

verus! {

/// A player at the table. `chips` is the stack behind; `bet` is what stands
/// in front of the player this betting round.
#[derive(Debug)]
pub struct Player {
    pub cards: Vec<Card>,
    pub chips: u64,
    pub bet: u64,
}

impl Player {
    /// A freshly bought-in player with no cards and nothing wagered.
    pub fn new(chips: u64) -> (p: Player)
        ensures
            p.cards@.len() == 0,
            p.chips == chips,
            p.bet == 0,
    {
        Player { cards: Vec::new(), chips, bet: 0 }
    }

    /// Wagers `bet` chips, capped at the stack: the capped amount moves from
    /// the stack to the table, so the player's total never changes.
    pub fn bet(&mut self, bet: u64)
        requires
            old(self).chips + old(self).bet <= u64::MAX,
        ensures
            ({
                let b = if bet <= old(self).chips {
                    bet as int
                } else {
                    old(self).chips as int
                };
                final(self).chips == old(self).chips - b && final(self).bet == old(self).bet
                    + b
            }),
            final(self).cards == old(self).cards,
    {
        let b = if bet < self.chips {
            bet
        } else {
            self.chips
        };
        self.chips = self.chips - b;
        self.bet = self.bet + b;
    }

    /// Replaces the player's hole cards with the dealt ones.
    pub fn take_cards(&mut self, cards: Vec<Card>)
        ensures
            final(self).cards == cards,
            final(self).chips == old(self).chips,
            final(self).bet == old(self).bet,
    {
        self.cards = cards;
    }

    /// Throws the hole cards away.
    pub fn muck(&mut self)
        ensures
            final(self).cards@.len() == 0,
            final(self).chips == old(self).chips,
            final(self).bet == old(self).bet,
    {
        self.cards.clear()
    }
}

} // verus!
