//! The table: seats, button and turn rotation, blinds, board and pot.

use vstd::prelude::*;
use vstd::pervasive::VecAdditionalExecFns;
use crate::card::Card;
use crate::dealer::Dealer;
use crate::player::Player;

verus! {

/// The table's fixed parameters.
#[derive(Debug)]
pub struct GameOptions {
    pub num_seats: usize,
    pub min_buyin: u64,
    pub max_buyin: u64,
    pub small_blind: u64,
    pub big_blind: u64,
}

/// A running table: a dealer, a ring of seats, the shared board, the button
/// and turn positions, and the pot.
#[derive(Debug)]
pub struct Game {
    pub dealer: Dealer,
    pub seats: Vec<Option<Player>>,
    pub board: Vec<Card>,
    pub button: usize,
    pub turn: usize,
    pub num_players: usize,
    pub pot: u64,
    pub options: GameOptions,
}

/// How many seats in the ring are taken.
pub open spec fn num_occupied(s: Seq<Option<Player>>) -> int
    decreases s.len(),
{
    if s.len() == 0 {
        0
    } else {
        num_occupied(s.drop_last()) + if s.last() is Some {
            1int
        } else {
            0int
        }
    }
}

/// The chips standing in front of all seated players together.
pub open spec fn total_bets(s: Seq<Option<Player>>) -> int
    decreases s.len(),
{
    if s.len() == 0 {
        0
    } else {
        total_bets(s.drop_last()) + match s.last() {
            Some(p) => p.bet as int,
            None => 0int,
        }
    }
}

/// The seat reached from `p` after `e` clockwise steps around a ring of
/// `len` seats.
pub open spec fn cyc(p: int, e: int, len: int) -> int {
    if p + e < len {
        p + e
    } else {
        p + e - len
    }
}

/// `r` is the first occupied seat strictly after `p`, reached in `d` steps.
pub open spec fn next_occupied_at(s: Seq<Option<Player>>, p: int, r: int, d: int) -> bool {
    &&& 1 <= d <= s.len()
    &&& r == cyc(p, d, s.len() as int)
    &&& s[r] is Some
    &&& forall|e: int| 1 <= e < d ==> s[cyc(p, e, s.len() as int)] is None
}

pub proof fn lemma_occ_le(s: Seq<Option<Player>>)
    ensures
        0 <= num_occupied(s) <= s.len(),
    decreases s.len(),
{
    if s.len() > 0 {
        lemma_occ_le(s.drop_last());
    }
}

pub proof fn lemma_occ_update(s: Seq<Option<Player>>, i: int, v: Option<Player>)
    requires
        0 <= i < s.len(),
    ensures
        num_occupied(s.update(i, v)) == num_occupied(s) - (if s[i] is Some {
            1int
        } else {
            0int
        }) + (if v is Some {
            1int
        } else {
            0int
        }),
    decreases s.len(),
{
    let su = s.update(i, v);
    if i == s.len() - 1 {
        assert(su.drop_last() =~= s.drop_last());
    } else {
        assert(su.drop_last() =~= s.drop_last().update(i, v));
        assert(su.last() == s.last());
        lemma_occ_update(s.drop_last(), i, v);
    }
}

pub proof fn lemma_bets_nonneg(s: Seq<Option<Player>>)
    ensures
        total_bets(s) >= 0,
    decreases s.len(),
{
    if s.len() > 0 {
        lemma_bets_nonneg(s.drop_last());
    }
}

pub proof fn lemma_bets_prefix(s: Seq<Option<Player>>, k: int)
    requires
        0 <= k <= s.len(),
    ensures
        total_bets(s.take(k)) + total_bets(s.skip(k)) == total_bets(s),
    decreases s.len(),
{
    if s.len() == 0 {
        assert(s.take(k) =~= s);
        assert(s.skip(k) =~= s);
    } else if k == s.len() {
        assert(s.take(k) =~= s);
        assert(s.skip(k) =~= Seq::<Option<Player>>::empty());
    } else {
        let d = s.drop_last();
        lemma_bets_prefix(d, k);
        assert(s.take(k) =~= d.take(k));
        assert(s.skip(k).drop_last() =~= d.skip(k));
        assert(s.skip(k).last() == s.last());
    }
}

pub proof fn lemma_occ_prefix(s: Seq<Option<Player>>, k: int)
    requires
        0 <= k <= s.len(),
    ensures
        num_occupied(s.take(k)) + num_occupied(s.skip(k)) == num_occupied(s),
    decreases s.len(),
{
    if s.len() == 0 {
        assert(s.take(k) =~= s);
        assert(s.skip(k) =~= s);
    } else if k == s.len() {
        assert(s.take(k) =~= s);
        assert(s.skip(k) =~= Seq::<Option<Player>>::empty());
    } else {
        let d = s.drop_last();
        lemma_occ_prefix(d, k);
        assert(s.take(k) =~= d.take(k));
        assert(s.skip(k).drop_last() =~= d.skip(k));
        assert(s.skip(k).last() == s.last());
    }
}

pub proof fn lemma_occ_all_none(s: Seq<Option<Player>>)
    requires
        forall|i: int| 0 <= i < s.len() ==> s[i] is None,
    ensures
        num_occupied(s) == 0,
    decreases s.len(),
{
    if s.len() > 0 {
        lemma_occ_all_none(s.drop_last());
    }
}

impl Game {
    /// The table's structural invariant: the seat count matches the options,
    /// the player count matches the taken seats, button and turn point at
    /// seats, and no seated player's stack and wager together overflow.
    pub open spec fn wf(self) -> bool {
        &&& self.seats@.len() == self.options.num_seats
        &&& self.seats@.len() >= 2
        &&& self.num_players == num_occupied(self.seats@)
        &&& self.button < self.seats@.len()
        &&& self.turn < self.seats@.len()
        &&& forall|i: int|
            0 <= i < self.seats@.len() ==> (#[trigger] self.seats@[i] matches Some(p) ==> p.chips
                + p.bet <= u64::MAX)
    }

    /// A fresh table with every seat empty. Fails exactly when fewer than two
    /// seats are asked for.
    pub fn new(options: GameOptions) -> (r: Result<Game, String>)
        ensures
            match r {
                Ok(g) => options.num_seats >= 2 && g.wf() && g.num_players == 0 && g.pot == 0
                    && g.board@.len() == 0 && g.button == 0 && g.turn == 0 && g.options
                    == options && g.dealer.deck().len() == 52 && (forall|r: crate::card::Rank,
                    su: crate::card::Suit|
                    g.dealer.deck().contains((r, su))) && forall|i: int|
                    0 <= i < g.seats@.len() ==> g.seats@[i] is None,
                Err(_) => options.num_seats < 2,
            },
    {
        if options.num_seats < 2 {
            return Err("Game must have at least two seats!".to_string());
        }
        let mut seats: Vec<Option<Player>> = Vec::new();
        let mut i: usize = 0;
        while i < options.num_seats
            invariant
                i <= options.num_seats,
                seats@.len() == i,
                forall|k: int| 0 <= k < i ==> seats@[k] is None,
            decreases options.num_seats - i,
        {
            seats.push(None);
            i += 1;
        }
        proof {
            lemma_occ_all_none(seats@);
        }
        Ok(
            Game {
                dealer: Dealer::new(),
                seats,
                board: Vec::new(),
                num_players: 0,
                turn: 0,
                button: 0,
                pot: 0,
                options,
            },
        )
    }

    /// Seats a player at the given position. Succeeds exactly when the
    /// buy-in lies between the table's bounds and the position names an
    /// empty seat; on failure nothing changes.
    pub fn seat_player(&mut self, position: usize, player: Player) -> (r: Result<(), String>)
        requires
            old(self).wf(),
            player.chips + player.bet <= u64::MAX,
        ensures
            final(self).wf(),
            ({
                let can = old(self).options.min_buyin <= player.chips <= old(self).options.max_buyin && position < old(self).seats@.len() && old(self).seats@[position as int] is None;
                match r {
                    Ok(_) => can && final(self).seats@ == old(self).seats@.update(
                        position as int,
                        Some(player),
                    ) && final(self).num_players == old(self).num_players + 1 && (if old(self).num_players == 0 {
                        final(self).button == position && final(self).turn == position
                    } else {
                        final(self).button == old(self).button && final(self).turn == old(self).turn
                    }) && final(self).board == old(self).board && final(self).pot == old(self).pot
                        && final(self).dealer == old(self).dealer && final(self).options == old(self).options,
                    Err(_) => !can && *final(self) == *old(self),
                }
            }),
    {
        if player.chips < self.options.min_buyin {
            return Err("Not enough chips to seat player".to_string());
        }
        if player.chips > self.options.max_buyin {
            return Err("Too many chips to seat player".to_string());
        }
        if position >= self.seats.len() {
            return Err("Seat does not exist".to_string());
        }
        if self.seats[position].is_some() {
            return Err("Seat is full".to_string());
        }
        proof {
            lemma_occ_update(self.seats@, position as int, Some(player));
            lemma_occ_le(self.seats@.update(position as int, Some(player)));
        }
        self.seats.set(position, Some(player));
        self.num_players = self.num_players + 1;
        if self.num_players == 1 {
            self.button = position;
            self.turn = position;
        }
        Ok(())
    }

    /// Frees the given seat. Succeeds exactly when the position names a
    /// taken seat; on failure nothing changes.
    pub fn remove_player(&mut self, position: usize) -> (r: Result<(), String>)
        requires
            old(self).wf(),
        ensures
            final(self).wf(),
            ({
                let can = position < old(self).seats@.len() && old(self).seats@[position as int] is Some;
                match r {
                    Ok(_) => can && final(self).seats@ == old(self).seats@.update(
                        position as int,
                        None,
                    ) && final(self).num_players == old(self).num_players - 1 && final(self).board
                        == old(self).board && final(self).pot == old(self).pot && final(self).dealer == old(self).dealer && final(self).options == old(self).options
                        && final(self).button == old(self).button && final(self).turn == old(self).turn,
                    Err(_) => !can && *final(self) == *old(self),
                }
            }),
    {
        if position >= self.seats.len() {
            return Err("Seat does not exist".to_string());
        }
        if self.seats[position].is_none() {
            return Err("Seat is empty".to_string());
        }
        proof {
            lemma_occ_update(self.seats@, position as int, None);
            lemma_occ_le(self.seats@.update(position as int, None));
        }
        self.seats.set(position, None);
        self.num_players = self.num_players - 1;
        Ok(())
    }

    /// Deals cards from the deck onto the shared board.
    pub fn deal_to_board(&mut self, num_cards: usize)
        requires
            old(self).wf(),
            num_cards <= old(self).dealer.deck().len(),
        ensures
            final(self).wf(),
            final(self).board@.len() == old(self).board@.len() + num_cards,
            forall|k: int|
                0 <= k < old(self).board@.len() ==> final(self).board@[k] == old(self).board@[k],
            forall|k: int|
                0 <= k < num_cards ==> #[trigger] final(self).board@[old(self).board@.len() + k]
                    == old(self).dealer.deck()[old(self).dealer.deck().len() - 1 - k],
            final(self).dealer.deck() == old(self).dealer.deck().take(
                old(self).dealer.deck().len() - num_cards as int,
            ),
            final(self).seats == old(self).seats,
            final(self).pot == old(self).pot,
            final(self).num_players == old(self).num_players,
            final(self).button == old(self).button,
            final(self).turn == old(self).turn,
            final(self).options == old(self).options,
    {
        let dealt = self.dealer.deal(num_cards);
        let mut k: usize = 0;
        while k < dealt.len()
            invariant
                k <= dealt@.len(),
                self.board@.len() == old(self).board@.len() + k,
                forall|q: int|
                    0 <= q < old(self).board@.len() ==> self.board@[q] == old(self).board@[q],
                forall|q: int|
                    0 <= q < k ==> #[trigger] self.board@[old(self).board@.len() + q]
                        == dealt@[q],
                self.seats == old(self).seats,
                self.pot == old(self).pot,
                self.num_players == old(self).num_players,
                self.button == old(self).button,
                self.turn == old(self).turn,
                self.options == old(self).options,
                self.dealer.deck() == old(self).dealer.deck().take(
                    old(self).dealer.deck().len() - num_cards as int,
                ),
                dealt@.len() == num_cards,
            decreases dealt.len() - k,
        {
            self.board.push(dealt[k]);
            k += 1;
        }
    }

    /// Deals every seated player a fresh hand of `num_cards` cards, replacing
    /// whatever they held; stacks and wagers stay untouched.
    pub fn deal_to_players(&mut self, num_cards: usize)
        requires
            old(self).wf(),
            num_occupied(old(self).seats@) * num_cards <= old(self).dealer.deck().len(),
        ensures
            final(self).wf(),
            final(self).seats@.len() == old(self).seats@.len(),
            final(self).dealer.deck() == old(self).dealer.deck().take(
                old(self).dealer.deck().len() - num_occupied(old(self).seats@) * num_cards,
            ),
            forall|i: int|
                0 <= i < old(self).seats@.len() ==> match old(self).seats@[i] {
                    Some(p) => #[trigger] final(self).seats@[i] matches Some(q) && q.chips
                        == p.chips && q.bet == p.bet && q.cards@.len() == num_cards && (forall|
                        j: int,
                    |
                        0 <= j < num_cards ==> #[trigger] q.cards@[j] == old(self).dealer.deck()[
                            old(self).dealer.deck().len() - 1 - num_occupied(
                                old(self).seats@.take(i),
                            ) * num_cards - j]),
                    None => final(self).seats@[i] is None,
                },
            final(self).num_players == old(self).num_players,
            final(self).board == old(self).board,
            final(self).pot == old(self).pot,
            final(self).button == old(self).button,
            final(self).turn == old(self).turn,
            final(self).options == old(self).options,
    {
        let len = self.seats.len();
        let mut si: usize = 0;
        while si < len
            invariant
                old(self).wf(),
                num_occupied(old(self).seats@) * num_cards <= old(self).dealer.deck().len(),
                si <= len,
                len == self.seats@.len() == old(self).seats@.len(),
                0 <= num_occupied(old(self).seats@.take(si as int)) * num_cards <= old(
                    self,
                ).dealer.deck().len(),
                self.dealer.deck() == old(self).dealer.deck().take(
                    old(self).dealer.deck().len() - num_occupied(old(self).seats@.take(si as int))
                        * num_cards,
                ),
                forall|i: int|
                    0 <= i < si ==> match old(self).seats@[i] {
                        Some(p) => #[trigger] self.seats@[i] matches Some(q) && q.chips == p.chips
                            && q.bet == p.bet && q.cards@.len() == num_cards && (forall|j: int|
                            0 <= j < num_cards ==> #[trigger] q.cards@[j] == old(
                                self,
                            ).dealer.deck()[old(self).dealer.deck().len() - 1 - num_occupied(
                                old(self).seats@.take(i),
                            ) * num_cards - j]),
                        None => self.seats@[i] is None,
                    },
                forall|i: int| si <= i < len ==> self.seats@[i] == old(self).seats@[i],
                self.num_players == old(self).num_players,
                self.board == old(self).board,
                self.pot == old(self).pot,
                self.button == old(self).button,
                self.turn == old(self).turn,
                self.options == old(self).options,
                num_occupied(self.seats@) == num_occupied(old(self).seats@),
                forall|i: int|
                    0 <= i < self.seats@.len() ==> (#[trigger] self.seats@[i] matches Some(p)
                        ==> p.chips + p.bet <= u64::MAX),
            decreases len - si,
        {
            let ghost all = old(self).seats@;
            proof {
                lemma_occ_prefix(all, si as int);
                lemma_occ_prefix(all.skip(si as int), 1);
                assert(all.skip(si as int).take(1) =~= seq![all[si as int]]);
                assert(all.skip(si as int).skip(1) =~= all.skip(si + 1));
                assert(num_occupied(seq![all[si as int]]) == (if all[si as int] is Some {
                    1int
                } else {
                    0int
                })) by {
                    let single = seq![all[si as int]];
                    assert(single.drop_last() =~= Seq::<Option<Player>>::empty());
                    assert(num_occupied(Seq::<Option<Player>>::empty()) == 0);
                    assert(single.last() == all[si as int]);
                }
                lemma_occ_le(all.skip(si + 1));
                lemma_occ_le(all.take(si as int));
                lemma_occ_le(all.take(si + 1));
                assert(all.take(si + 1).drop_last() =~= all.take(si as int));
                assert(all.take(si + 1).last() == all[si as int]);
                let before = num_occupied(all.take(si as int));
                let total = num_occupied(all);
                assert(before <= total);
                assert(0 <= (before + 1) * num_cards <= total * num_cards || before + 1 > total)
                    by (nonlinear_arith)
                    requires
                        0 <= before,
                        num_cards >= 0,
                        before <= total,
                ;
                if all[si as int] is Some {
                    assert(total >= before + 1);
                    assert((total - before) * num_cards >= num_cards) by (nonlinear_arith)
                        requires
                            total - before >= 1,
                            num_cards >= 0,
                    ;
                    assert(total * num_cards - before * num_cards == (total - before)
                        * num_cards) by (nonlinear_arith);
                    assert((before + 1) * num_cards == before * num_cards + num_cards)
                        by (nonlinear_arith);
                }
            }
            let ghost seats0 = self.seats@;
            let mut slot: Option<Player> = None;
            self.seats.set_and_swap(si, &mut slot);
            match slot {
                Some(mut p) => {
                    let ghost deck0 = old(self).dealer.deck();
                    let ghost l0 = old(self).dealer.deck().len() as int;
                    let ghost k = num_occupied(all.take(si as int));
                    let ghost cur = self.dealer.deck();
                    proof {
                        assert(cur == deck0.take(l0 - k * num_cards));
                        assert(cur.len() == l0 - k * num_cards);
                    }
                    let dealt = self.dealer.deal(num_cards);
                    proof {
                        assert forall|j: int| 0 <= j < num_cards implies dealt@[j] == deck0[l0 - 1
                            - k * num_cards - j] by {
                            assert(dealt@[j] == cur[cur.len() - 1 - j]);
                        }
                        assert(self.dealer.deck() =~= deck0.take(l0 - (k + 1) * num_cards)) by {
                            assert((k + 1) * num_cards == k * num_cards + num_cards)
                                by (nonlinear_arith);
                            assert(self.dealer.deck() == cur.take(cur.len() - num_cards as int));
                        }
                    }
                    p.take_cards(dealt);
                    let mut back: Option<Player> = Some(p);
                    self.seats.set_and_swap(si, &mut back);
                    proof {
                        assert(self.seats@ =~= seats0.update(si as int, self.seats@[si as int]));
                        lemma_occ_update(seats0, si as int, self.seats@[si as int]);
                    }
                },
                None => {
                    let mut back: Option<Player> = None;
                    self.seats.set_and_swap(si, &mut back);
                    proof {
                        assert(self.seats@ =~= seats0);
                    }
                },
            }
            si += 1;
        }
        proof {
            assert(old(self).seats@.take(len as int) =~= old(self).seats@);
        }
    }

    /// Applies a wager at a taken seat: the capped amount moves from the
    /// player's stack to the table, as [`Player::bet`] does.
    fn bet_at(&mut self, position: usize, amount: u64)
        requires
            old(self).wf(),
            position < old(self).seats@.len(),
            old(self).seats@[position as int] is Some,
        ensures
            final(self).wf(),
            ({
                let p = old(self).seats@[position as int]->0;
                let b = if amount <= p.chips {
                    amount as int
                } else {
                    p.chips as int
                };
                final(self).seats@ == old(self).seats@.update(
                    position as int,
                    Some(
                        (Player {
                            cards: p.cards,
                            chips: (p.chips - b) as u64,
                            bet: (p.bet + b) as u64,
                        }),
                    ),
                )
            }),
            final(self).num_players == old(self).num_players,
            final(self).board == old(self).board,
            final(self).pot == old(self).pot,
            final(self).dealer == old(self).dealer,
            final(self).options == old(self).options,
            final(self).button == old(self).button,
            final(self).turn == old(self).turn,
    {
        let ghost seats0 = self.seats@;
        let mut slot: Option<Player> = None;
        self.seats.set_and_swap(position, &mut slot);
        match slot {
            Some(mut p) => {
                p.bet(amount);
                let mut back: Option<Player> = Some(p);
                self.seats.set_and_swap(position, &mut back);
                proof {
                    assert(self.seats@ =~= seats0.update(
                        position as int,
                        self.seats@[position as int],
                    ));
                    lemma_occ_update(seats0, position as int, self.seats@[position as int]);
                }
            },
            None => {
                proof {
                    assert(false);
                }
            },
        }
    }

    /// Sweeps every seated player's wager into the pot.
    pub fn rake_bets(&mut self)
        requires
            old(self).wf(),
            old(self).pot + total_bets(old(self).seats@) <= u64::MAX,
        ensures
            final(self).wf(),
            final(self).pot == old(self).pot + total_bets(old(self).seats@),
            final(self).seats@.len() == old(self).seats@.len(),
            forall|i: int|
                0 <= i < old(self).seats@.len() ==> match old(self).seats@[i] {
                    Some(p) => #[trigger] final(self).seats@[i] matches Some(q) && q.chips
                        == p.chips && q.cards == p.cards && q.bet == 0,
                    None => final(self).seats@[i] is None,
                },
            final(self).num_players == old(self).num_players,
            final(self).board == old(self).board,
            final(self).dealer == old(self).dealer,
            final(self).options == old(self).options,
            final(self).button == old(self).button,
            final(self).turn == old(self).turn,
    {
        let len = self.seats.len();
        let mut si: usize = 0;
        while si < len
            invariant
                old(self).wf(),
                old(self).pot + total_bets(old(self).seats@) <= u64::MAX,
                si <= len,
                len == self.seats@.len() == old(self).seats@.len(),
                self.pot == old(self).pot + total_bets(old(self).seats@.take(si as int)),
                forall|i: int|
                    0 <= i < si ==> match old(self).seats@[i] {
                        Some(p) => #[trigger] self.seats@[i] matches Some(q) && q.chips == p.chips
                            && q.cards == p.cards && q.bet == 0,
                        None => self.seats@[i] is None,
                    },
                forall|i: int| si <= i < len ==> self.seats@[i] == old(self).seats@[i],
                self.num_players == old(self).num_players,
                self.board == old(self).board,
                self.dealer == old(self).dealer,
                self.options == old(self).options,
                self.button == old(self).button,
                self.turn == old(self).turn,
                num_occupied(self.seats@) == num_occupied(old(self).seats@),
                forall|i: int|
                    0 <= i < self.seats@.len() ==> (#[trigger] self.seats@[i] matches Some(p)
                        ==> p.chips + p.bet <= u64::MAX),
            decreases len - si,
        {
            proof {
                lemma_bets_prefix(old(self).seats@, si as int);
                lemma_bets_prefix(old(self).seats@.skip(si as int), 1);
                assert(old(self).seats@.skip(si as int).take(1) =~= seq![
                    old(self).seats@[si as int],
                ]);
                assert(old(self).seats@.skip(si as int).skip(1) =~= old(self).seats@.skip(
                    si + 1,
                ));
                lemma_bets_nonneg(old(self).seats@.skip(si + 1));
                lemma_bets_nonneg(old(self).seats@.take(si as int));
                assert(old(self).seats@.take(si + 1).drop_last() =~= old(self).seats@.take(
                    si as int,
                ));
                assert(old(self).seats@.take(si + 1).last() == old(self).seats@[si as int]);
                assert(total_bets(seq![old(self).seats@[si as int]]) == match old(
                    self,
                ).seats@[si as int] {
                    Some(p) => p.bet as int,
                    None => 0int,
                }) by {
                    let single = seq![old(self).seats@[si as int]];
                    assert(single.drop_last() =~= Seq::<Option<Player>>::empty());
                    assert(total_bets(Seq::<Option<Player>>::empty()) == 0);
                    assert(single.last() == old(self).seats@[si as int]);
                    assert(single.len() == 1);
                    assert(total_bets(single) == total_bets(single.drop_last()) + match single
                        .last() {
                        Some(p) => p.bet as int,
                        None => 0int,
                    });
                }
            }
            let ghost seats0 = self.seats@;
            let mut slot: Option<Player> = None;
            self.seats.set_and_swap(si, &mut slot);
            match slot {
                Some(mut p) => {
                    self.pot = self.pot + p.bet;
                    p.bet = 0;
                    let mut back: Option<Player> = Some(p);
                    self.seats.set_and_swap(si, &mut back);
                    proof {
                        assert(self.seats@ =~= seats0.update(
                            si as int,
                            self.seats@[si as int],
                        ));
                        lemma_occ_update(seats0, si as int, self.seats@[si as int]);
                    }
                },
                None => {
                    let mut back: Option<Player> = None;
                    self.seats.set_and_swap(si, &mut back);
                    proof {
                        assert(self.seats@ =~= seats0);
                    }
                },
            }
            si += 1;
        }
        proof {
            assert(old(self).seats@.take(len as int) =~= old(self).seats@);
        }
    }

    /// The first taken seat strictly after `position`, walking clockwise.
    fn position_next_to(&self, position: usize) -> (r: usize)
        requires
            self.wf(),
            self.num_players >= 1,
            position < self.seats@.len(),
        ensures
            r < self.seats@.len(),
            self.seats@[r as int] is Some,
            exists|d: int| #[trigger] next_occupied_at(self.seats@, position as int, r as int, d),
    {
        let len = self.seats.len();
        let mut cur = position;
        let mut e: usize = 0;
        while e < len
            invariant
                self.wf(),
                self.num_players >= 1,
                position < len,
                len == self.seats@.len(),
                e <= len,
                cur < len,
                cur as int == cyc(position as int, e as int, len as int),
                forall|q: int|
                    1 <= q <= e ==> self.seats@[cyc(position as int, q, len as int)] is None,
            decreases len - e,
        {
            cur = if cur + 1 == len {
                0
            } else {
                cur + 1
            };
            e += 1;
            if self.seats[cur].is_some() {
                proof {
                    assert(next_occupied_at(self.seats@, position as int, cur as int, e as int));
                }
                return cur;
            }
        }
        proof {
            assert forall|i: int| 0 <= i < len implies self.seats@[i] is None by {
                let q: int = if i > position {
                    i - position
                } else {
                    i - position + len
                };
                assert(1 <= q <= len);
                assert(cyc(position as int, q, len as int) == i);
            }
            lemma_occ_all_none(self.seats@);
            assert(false);
        }
        vstd::pervasive::unreached()
    }

    /// The given seat if it is taken, else the first taken seat after it.
    fn position_at_or_next_to(&self, position: usize) -> (r: usize)
        requires
            self.wf(),
            self.num_players >= 1,
            position < self.seats@.len(),
        ensures
            r < self.seats@.len(),
            self.seats@[r as int] is Some,
            self.seats@[position as int] is Some ==> r == position,
            self.seats@[position as int] is None ==> exists|d: int|
                #[trigger] next_occupied_at(self.seats@, position as int, r as int, d),
    {
        if self.seats[position].is_some() {
            return position;
        }
        self.position_next_to(position)
    }

    /// Posts the blinds and sets whose turn it is. Succeeds exactly when at
    /// least two players are seated: the small and big blind go in at two
    /// different taken seats, every other seat is untouched, and the turn
    /// moves to a taken seat. On failure nothing changes.
    pub fn start_hand(&mut self) -> (r: Result<usize, String>)
        requires
            old(self).wf(),
        ensures
            final(self).wf(),
            match r {
                Ok(t) => old(self).num_players >= 2 && t == final(self).turn && final(self).turn
                    < final(self).seats@.len() && final(self).seats@[final(self).turn as int]
                    is Some && final(self).num_players == old(self).num_players && final(self).board == old(self).board && final(self).pot == old(self).pot && final(self).dealer == old(self).dealer && final(self).options == old(self).options && final(self).button == old(self).button && exists|sb: int, bb: int|
                    blinds_posted(old(self).seats@, final(self).seats@, sb, bb, old(self).options.small_blind, old(self).options.big_blind)
                        && blind_positions(
                        old(self).seats@,
                        old(self).button as int,
                        old(self).num_players == 2,
                        sb,
                        bb,
                        final(self).turn as int,
                    ),
                Err(_) => old(self).num_players < 2 && *final(self) == *old(self),
            },
    {
        let small_blind = self.options.small_blind;
        let big_blind = self.options.big_blind;
        if self.num_players < 2 {
            return Err("Not enough players".to_string());
        }
        // Heads up
        let mut position = if self.num_players == 2 {
            self.position_at_or_next_to(self.button)
        } else {
            self.position_next_to(self.button)
        };

        let ghost seats_start = self.seats@;
        let ghost sb_pos = position as int;
        self.bet_at(position, small_blind);

        let ghost seats_sb = self.seats@;
        position = self.position_next_to(position);
        let ghost bb_pos = position as int;
        proof {
            let len = self.seats@.len() as int;
            if bb_pos == sb_pos {
                let d = choose|d: int| #[trigger] next_occupied_at(self.seats@, sb_pos, bb_pos, d);
                assert(d == len);
                assert forall|q: int| 0 <= q < len && q != sb_pos implies self.seats@[q]
                    is None by {
                    let e: int = if q > sb_pos {
                        q - sb_pos
                    } else {
                        q - sb_pos + len
                    };
                    assert(1 <= e < d);
                    assert(cyc(sb_pos, e, len) == q);
                }
                lemma_occ_one(self.seats@, sb_pos);
                assert(false);
            }
        }
        self.bet_at(position, big_blind);

        let ghost seats_bb = self.seats@;
        self.turn = self.position_next_to(position);
        proof {
            assert(blinds_posted(
                seats_start,
                self.seats@,
                sb_pos,
                bb_pos,
                small_blind,
                big_blind,
            )) by {
                assert(self.seats@ =~= seats_start.update(
                    sb_pos,
                    self.seats@[sb_pos],
                ).update(bb_pos, self.seats@[bb_pos]));
            }
            let len = seats_start.len() as int;
            assert(blind_positions(
                seats_start,
                old(self).button as int,
                old(self).num_players == 2,
                sb_pos,
                bb_pos,
                self.turn as int,
            )) by {
                let d1 = choose|d: int| #[trigger] next_occupied_at(seats_sb, sb_pos, bb_pos, d);
                lemma_next_occupied_same_pattern(seats_sb, seats_start, sb_pos, bb_pos, d1);
                let d2 = choose|d: int|
                    #[trigger] next_occupied_at(seats_bb, bb_pos, self.turn as int, d);
                lemma_next_occupied_same_pattern(
                    seats_bb,
                    seats_start,
                    bb_pos,
                    self.turn as int,
                    d2,
                );
            }
        }
        Ok(self.turn)
    }

    /// Starts the next hand: a fresh shuffled deck, a cleared board, the
    /// button advanced, and blinds posted if enough players remain.
    pub fn next_hand(&mut self)
        requires
            old(self).wf(),
            old(self).num_players >= 1,
        ensures
            final(self).wf(),
            final(self).board@.len() == 0,
            final(self).dealer.deck().len() == 52,
            forall|r: crate::card::Rank, su: crate::card::Suit|
                final(self).dealer.deck().contains((r, su)),
            final(self).num_players == old(self).num_players,
            final(self).pot == old(self).pot,
            final(self).options == old(self).options,
            final(self).seats@[final(self).button as int] is Some,
            exists|d: int|
                #[trigger] next_occupied_at(
                    old(self).seats@,
                    old(self).button as int,
                    final(self).button as int,
                    d,
                ),
            old(self).num_players >= 2 ==> final(self).seats@[final(self).turn as int] is Some
                && exists|sb: int, bb: int|
                blinds_posted(
                    old(self).seats@,
                    final(self).seats@,
                    sb,
                    bb,
                    old(self).options.small_blind,
                    old(self).options.big_blind,
                ) && blind_positions(
                    old(self).seats@,
                    final(self).button as int,
                    old(self).num_players == 2,
                    sb,
                    bb,
                    final(self).turn as int,
                ),
            old(self).num_players < 2 ==> final(self).seats == old(self).seats && final(self).turn
                == old(self).turn,
    {
        self.dealer = Dealer::new();
        self.board.clear();
        self.advance_button();
        let _started = self.start_hand();
        proof {
            if old(self).num_players >= 2 {
                assert(_started is Ok);
            }
        }
    }

    /// Moves the button to the next taken seat.
    pub fn advance_button(&mut self)
        requires
            old(self).wf(),
            old(self).num_players >= 1,
        ensures
            final(self).wf(),
            final(self).seats@[final(self).button as int] is Some,
            exists|d: int|
                #[trigger] next_occupied_at(
                    old(self).seats@,
                    old(self).button as int,
                    final(self).button as int,
                    d,
                ),
            final(self).seats == old(self).seats,
            final(self).num_players == old(self).num_players,
            final(self).board == old(self).board,
            final(self).pot == old(self).pot,
            final(self).dealer == old(self).dealer,
            final(self).turn == old(self).turn,
            final(self).options == old(self).options,
    {
        let position = self.position_next_to(self.button);
        self.button = position;
    }

    /// Moves the turn to the next taken seat and reports it.
    pub fn next_turn(&mut self) -> (r: usize)
        requires
            old(self).wf(),
            old(self).num_players >= 1,
        ensures
            final(self).wf(),
            r == final(self).turn,
            final(self).seats@[r as int] is Some,
            exists|d: int|
                #[trigger] next_occupied_at(old(self).seats@, old(self).turn as int, r as int, d),
            final(self).seats == old(self).seats,
            final(self).num_players == old(self).num_players,
            final(self).board == old(self).board,
            final(self).pot == old(self).pot,
            final(self).dealer == old(self).dealer,
            final(self).button == old(self).button,
            final(self).options == old(self).options,
    {
        let position = self.position_next_to(self.turn);
        self.turn = position;
        position
    }
}

/// After posting, the seats differ from before only at the two blind seats,
/// where the small and big blind were wagered, capped at each stack.
pub open spec fn blinds_posted(
    before: Seq<Option<Player>>,
    after: Seq<Option<Player>>,
    sb: int,
    bb: int,
    small_blind: u64,
    big_blind: u64,
) -> bool {
    &&& 0 <= sb < before.len()
    &&& 0 <= bb < before.len()
    &&& sb != bb
    &&& before[sb] is Some
    &&& before[bb] is Some
    &&& after == before.update(sb, Some(bet_applied(before[sb]->0, small_blind))).update(
        bb,
        Some(bet_applied(before[bb]->0, big_blind)),
    )
}

/// A player after wagering `amount`, capped at the stack.
pub open spec fn bet_applied(p: Player, amount: u64) -> Player {
    let b = if amount <= p.chips {
        amount as int
    } else {
        p.chips as int
    };
    Player { cards: p.cards, chips: (p.chips - b) as u64, bet: (p.bet + b) as u64 }
}

/// Where the blinds went in: heads up the dealer button itself posts the
/// small blind (or the first taken seat after it, when the button seat is
/// empty); otherwise the seat after the button does. The big blind follows
/// the small blind, and the turn follows the big blind.
pub open spec fn blind_positions(
    s: Seq<Option<Player>>,
    button: int,
    heads_up: bool,
    sb: int,
    bb: int,
    turn: int,
) -> bool {
    &&& (if heads_up {
        (s[button] is Some ==> sb == button) && (s[button] is None ==> exists|d: int|
            #[trigger] next_occupied_at(s, button, sb, d))
    } else {
        exists|d: int| #[trigger] next_occupied_at(s, button, sb, d)
    })
    &&& exists|d: int| #[trigger] next_occupied_at(s, sb, bb, d)
    &&& exists|d: int| #[trigger] next_occupied_at(s, bb, turn, d)
}

/// Which seat comes next only depends on which seats are taken, not on who
/// sits in them.
proof fn lemma_next_occupied_same_pattern(
    s1: Seq<Option<Player>>,
    s2: Seq<Option<Player>>,
    p: int,
    r: int,
    d: int,
)
    requires
        s1.len() == s2.len(),
        0 <= p < s1.len(),
        forall|i: int| 0 <= i < s1.len() ==> (#[trigger] s1[i] is Some <==> s2[i] is Some),
        next_occupied_at(s1, p, r, d),
    ensures
        next_occupied_at(s2, p, r, d),
{
    assert forall|e: int| 1 <= e < d implies s2[cyc(p, e, s1.len() as int)] is None by {
        assert(s1[cyc(p, e, s1.len() as int)] is None);
        assert(0 <= cyc(p, e, s1.len() as int) < s1.len());
    }
}

/// A ring with one taken seat and every other seat free holds one player.
proof fn lemma_occ_one(s: Seq<Option<Player>>, p: int)
    requires
        0 <= p < s.len(),
        s[p] is Some,
        forall|q: int| 0 <= q < s.len() && q != p ==> s[q] is None,
    ensures
        num_occupied(s) == 1,
    decreases s.len(),
{
    if p == s.len() - 1 {
        lemma_occ_all_none(s.drop_last());
    } else {
        lemma_occ_one(s.drop_last(), p);
    }
}

} // verus!
