//! The dealer: a shuffled deck that cards are dealt from, top first.

use vstd::prelude::*;
use crate::card::{Card, Rank, Suit, deck_52};
use rand::Rng;

verus! {

/// A dealer holding the remaining deck. Dealing pops cards off the end.
#[derive(Debug)]
pub struct Dealer {
    deck: Vec<Card>,
}

/// Relies on rand::thread_rng and rand::Rng::gen_range: returns a value
/// drawn from the given half-open range. gen_range panics on an empty
/// range, which the precondition rules out. Nothing more is assumed of the
/// draw: any value in the range may come back.
#[verifier::external_body]
fn random_index(lo: usize, hi: usize) -> (r: usize)
    requires
        lo < hi,
    ensures
        lo <= r < hi,
{
    rand::thread_rng().gen_range(lo..hi)
}

impl Dealer {
    /// The cards still in the deck, bottom first: the last is dealt next.
    pub closed spec fn deck(&self) -> Seq<Card> {
        self.deck@
    }

    /// A new dealer holding all 52 cards, shuffled.
    pub fn new() -> (d: Dealer)
        ensures
            d.deck().len() == 52,
            forall|r: Rank, su: Suit| d.deck().contains((r, su)),
    {
        let mut dealer = Dealer { deck: deck_52() };
        let ghost full = dealer.deck@;
        dealer.shuffle();
        proof {
            broadcast use vstd::seq_lib::group_to_multiset_ensures;

            assert(dealer.deck@.len() == dealer.deck@.to_multiset().len());
            assert(full.len() == full.to_multiset().len());
            assert forall|r: Rank, su: Suit| dealer.deck().contains((r, su)) by {
                assert(full.to_multiset().count((r, su)) > 0);
            }
        }
        dealer
    }

    /// Reorders the deck in place; which order comes out depends on the
    /// random draws, but the deck always keeps exactly the same cards.
    pub fn shuffle(&mut self)
        requires
            old(self).deck().len() >= 2,
        ensures
            final(self).deck().to_multiset() == old(self).deck().to_multiset(),
            final(self).deck().len() == old(self).deck().len(),
    {
        broadcast use vstd::seq_lib::group_to_multiset_ensures;
        broadcast use vstd::multiset::group_multiset_axioms;

        let len = self.deck.len();
        let mut i: usize = 0;
        while i < len - 2
            invariant
                len == self.deck@.len() >= 2,
                i <= len,
                self.deck@.to_multiset() == old(self).deck().to_multiset(),
            decreases len - 2 - i,
        {
            let j = random_index(i, len);
            let a = self.deck[i];
            let b = self.deck[j];
            let ghost before = self.deck@;
            self.deck.set(i, b);
            self.deck.set(j, a);
            proof {
                before.to_multiset_ensures();
                let mid = before.update(i as int, b);
                vstd::seq_lib::to_multiset_update(before, i as int, b);
                vstd::seq_lib::to_multiset_update(mid, j as int, a);
                assert(mid.to_multiset() == before.to_multiset().insert(b).remove(before[i as int]));
                assert(self.deck@ == mid.update(j as int, a));
                assert(self.deck@.to_multiset() == mid.to_multiset().insert(a).remove(
                    mid[j as int],
                ));
                assert(before.contains(before[i as int]));
                assert(before.to_multiset().count(a) > 0);
                if i == j {
                    assert(self.deck@.to_multiset() =~= before.to_multiset());
                } else {
                    assert(mid[j as int] == b);
                    assert(before.to_multiset().count(b) > 0);
                    assert(self.deck@.to_multiset() =~= before.to_multiset());
                }
            }
            i += 1;
        }
    }

    /// Deals `n` cards off the top of the deck, in the order they come off.
    /// The deck must still hold that many cards: running dry is the caller's
    /// fatal mistake, ruled out here by precondition.
    pub fn deal(&mut self, n: usize) -> (dealt: Vec<Card>)
        requires
            n <= old(self).deck().len(),
        ensures
            dealt@.len() == n,
            final(self).deck() == old(self).deck().take(old(self).deck().len() - n as int),
            forall|k: int|
                0 <= k < n ==> dealt@[k] == old(self).deck()[old(self).deck().len() - 1 - k],
    {
        let mut dealt_cards: Vec<Card> = Vec::new();
        let mut i: usize = 0;
        while i < n
            invariant
                i <= n,
                n <= old(self).deck().len(),
                dealt_cards@.len() == i,
                self.deck@ == old(self).deck().take(old(self).deck().len() - i as int),
                forall|k: int|
                    0 <= k < i ==> dealt_cards@[k] == old(self).deck()[old(self).deck().len() - 1
                        - k],
            decreases n - i,
        {
            let ghost before = self.deck@;
            match self.deck.pop() {
                Some(card) => {
                    dealt_cards.push(card);
                    proof {
                        assert(before[before.len() - 1] == old(self).deck()[old(
                            self,
                        ).deck().len() - 1 - i]);
                        assert(self.deck@ =~= old(self).deck().take(
                            old(self).deck().len() - (i + 1),
                        ));
                    }
                },
                None => {
                    proof {
                        assert(false);
                    }
                },
            }
            i += 1;
        }
        dealt_cards
    }
}

} // verus!
