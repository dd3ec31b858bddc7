//! The card model: thirteen ranks, four suits, and a card as a rank--suit pair.

use vstd::prelude::*;
use vstd::multiset::Multiset;

verus! {

/// One of the thirteen card face values, Two through Ace.
///
/// Ranks are totally ordered by [`rank_val`]: Two is lowest, Ace is highest
/// (except inside the ace-low "wheel" straight, which the evaluators handle
/// specially).
#[derive(Clone, Copy, Debug, PartialEq, Eq, Structural)]
pub enum Rank {
    Two,
    Three,
    Four,
    Five,
    Six,
    Seven,
    Eight,
    Nine,
    Ten,
    Jack,
    Queen,
    King,
    Ace,
}

/// One of the four card suits. Suits carry no order; they are compared only
/// for equality, to detect flushes.
#[derive(Clone, Copy, Debug, PartialEq, Eq, Structural)]
pub enum Suit {
    Clubs,
    Diamonds,
    Hearts,
    Spades,
}

/// A playing card: a rank paired with a suit.
pub type Card = (Rank, Suit);

/// The numeric strength of a rank: 2 for Two up to 14 for Ace.
pub open spec fn rank_val(r: Rank) -> int {
    match r {
        Rank::Two => 2,
        Rank::Three => 3,
        Rank::Four => 4,
        Rank::Five => 5,
        Rank::Six => 6,
        Rank::Seven => 7,
        Rank::Eight => 8,
        Rank::Nine => 9,
        Rank::Ten => 10,
        Rank::Jack => 11,
        Rank::Queen => 12,
        Rank::King => 13,
        Rank::Ace => 14,
    }
}

/// Exec counterpart of [`rank_val`].
pub fn rank_value(r: Rank) -> (v: u8)
    ensures
        v as int == rank_val(r),
{
    match r {
        Rank::Two => 2,
        Rank::Three => 3,
        Rank::Four => 4,
        Rank::Five => 5,
        Rank::Six => 6,
        Rank::Seven => 7,
        Rank::Eight => 8,
        Rank::Nine => 9,
        Rank::Ten => 10,
        Rank::Jack => 11,
        Rank::Queen => 12,
        Rank::King => 13,
        Rank::Ace => 14,
    }
}

/// The sequence of rank values of a sequence of cards, in the same order.
pub open spec fn rank_seq(s: Seq<Card>) -> Seq<int> {
    s.map_values(|c: Card| rank_val(c.0))
}

/// All cards in the sequence share one suit.
pub open spec fn all_same_suit(s: Seq<Card>) -> bool {
    forall|i: int, j: int| 0 <= i < s.len() && 0 <= j < s.len() ==> s[i].1 == s[j].1
}

/// Descending order on rank values, the order the evaluators sort by.
pub open spec fn ge_ord() -> spec_fn(int, int) -> bool {
    |a: int, b: int| a >= b
}

/// A sequence of rank values sorted highest first.
pub open spec fn sorted_desc(v: Seq<int>) -> bool {
    forall|i: int, j: int| 0 <= i <= j < v.len() ==> v[i] >= v[j]
}

/// The rank values of the cards, sorted highest first. This is the canonical
/// working order both evaluators classify on.
pub open spec fn sorted_ranks(s: Seq<Card>) -> Seq<int> {
    rank_seq(s).sort_by(ge_ord())
}

proof fn lemma_ge_ord_total()
    ensures
        vstd::relations::total_ordering(ge_ord()),
{
}

/// What `sort_by` on the descending value order guarantees.
pub proof fn lemma_sorted_ranks_ensures(s: Seq<Card>)
    ensures
        sorted_ranks(s).to_multiset() == rank_seq(s).to_multiset(),
        sorted_desc(sorted_ranks(s)),
        sorted_ranks(s).len() == s.len(),
{
    lemma_ge_ord_total();
    rank_seq(s).lemma_sort_by_ensures(ge_ord());
    broadcast use vstd::seq_lib::group_to_multiset_ensures;

    let sr = sorted_ranks(s);
    assert(sr.to_multiset() =~= rank_seq(s).to_multiset());
    assert(vstd::relations::sorted_by(sr, ge_ord()));
    assert forall|i: int, j: int| 0 <= i <= j < sr.len() implies sr[i] >= sr[j] by {
        if i < j {
            assert(ge_ord()(sr[i], sr[j]));
        }
    }
    assert(sr.len() == sr.to_multiset().len());
    assert(rank_seq(s).len() == rank_seq(s).to_multiset().len());
}

/// Any sequence of rank values that is sorted descending and holds the same
/// values as the cards' ranks is `sorted_ranks` of those cards.
pub proof fn lemma_sorted_ranks_unique(s: Seq<Card>, v: Seq<int>)
    requires
        sorted_desc(v),
        v.to_multiset() == rank_seq(s).to_multiset(),
    ensures
        v == sorted_ranks(s),
{
    lemma_ge_ord_total();
    lemma_sorted_ranks_ensures(s);
    assert(vstd::relations::sorted_by(v, ge_ord())) by {
        assert forall|i: int, j: int| 0 <= i < j < v.len() implies #[trigger] ge_ord()(v[i], v[j]) by {
            assert(v[i] >= v[j]);
        }
    }
    assert(vstd::relations::sorted_by(sorted_ranks(s), ge_ord()));
    vstd::seq_lib::lemma_sorted_unique(v, sorted_ranks(s), ge_ord());
    assert(v =~= sorted_ranks(s));
}

/// Whether all cards share one suit depends only on which cards are present,
/// not on their order.
pub proof fn lemma_same_suit_transfer(s1: Seq<Card>, s2: Seq<Card>)
    requires
        s1.to_multiset() == s2.to_multiset(),
    ensures
        all_same_suit(s1) == all_same_suit(s2),
{
    broadcast use vstd::seq_lib::group_to_multiset_ensures;

    if all_same_suit(s1) {
        assert forall|i: int, j: int| 0 <= i < s2.len() && 0 <= j < s2.len() implies s2[i].1
            == s2[j].1 by {
            assert(s2.contains(s2[i]));
            assert(s2.contains(s2[j]));
            assert(s1.to_multiset().count(s2[i]) > 0);
            assert(s1.to_multiset().count(s2[j]) > 0);
            assert(s1.contains(s2[i]));
            assert(s1.contains(s2[j]));
            let a = choose|a: int| 0 <= a < s1.len() && s1[a] == s2[i];
            let b = choose|b: int| 0 <= b < s1.len() && s1[b] == s2[j];
            assert(s1[a].1 == s1[b].1);
        }
    } else if all_same_suit(s2) {
        assert forall|i: int, j: int| 0 <= i < s1.len() && 0 <= j < s1.len() implies s1[i].1
            == s1[j].1 by {
            assert(s1.contains(s1[i]));
            assert(s1.contains(s1[j]));
            assert(s2.to_multiset().count(s1[i]) > 0);
            assert(s2.to_multiset().count(s1[j]) > 0);
            assert(s2.contains(s1[i]));
            assert(s2.contains(s1[j]));
            let a = choose|a: int| 0 <= a < s2.len() && s2[a] == s1[i];
            let b = choose|b: int| 0 <= b < s2.len() && s2[b] == s1[j];
            assert(s2[a].1 == s2[b].1);
        }
    }
}

/// Two collections holding the same cards hold the same rank values, however
/// they are ordered.
pub proof fn lemma_rank_multiset_transfer(c1: Seq<Card>, c2: Seq<Card>)
    requires
        c1.to_multiset() == c2.to_multiset(),
    ensures
        rank_seq(c1).to_multiset() == rank_seq(c2).to_multiset(),
    decreases c1.len(),
{
    broadcast use vstd::multiset::group_multiset_axioms;

    c1.to_multiset_ensures();
    c2.to_multiset_ensures();
    if c1.len() == 0 {
        assert(c2.len() == 0);
        assert(rank_seq(c1) =~= rank_seq(c2));
    } else {
        let x = c1.last();
        assert(c1.contains(x));
        assert(c1.to_multiset().count(x) > 0);
        assert(c2.contains(x));
        let i = choose|i: int| 0 <= i < c2.len() && c2[i] == x;
        let c1p = c1.drop_last();
        let c2p = c2.remove(i);
        assert(c1.remove(c1.len() - 1) =~= c1p);
        assert(c1p.to_multiset() == c1.to_multiset().remove(x));
        assert(c2p.to_multiset() == c2.to_multiset().remove(x));
        lemma_rank_multiset_transfer(c1p, c2p);
        rank_seq(c1).to_multiset_ensures();
        rank_seq(c2).to_multiset_ensures();
        let v = rank_val(x.0);
        assert(rank_seq(c1p) =~= rank_seq(c1).remove(c1.len() - 1));
        assert(rank_seq(c2p) =~= rank_seq(c2).remove(i));
        assert(rank_seq(c1)[c1.len() - 1] == v);
        assert(rank_seq(c2)[i] == v);
        assert(rank_seq(c1).remove(c1.len() - 1).to_multiset() == rank_seq(
            c1,
        ).to_multiset().remove(v));
        assert(rank_seq(c2).remove(i).to_multiset() == rank_seq(c2).to_multiset().remove(v));
        assert(rank_seq(c1).contains(v));
        assert(rank_seq(c2).contains(v));
        assert(rank_seq(c1).to_multiset().count(v) > 0);
        assert(rank_seq(c2).to_multiset().count(v) > 0);
        let m1 = rank_seq(c1).to_multiset();
        let m2 = rank_seq(c2).to_multiset();
        assert(m1.remove(v) == m2.remove(v));
        assert forall|w: int| m1.count(w) == m2.count(w) by {
            assert(m1.remove(v).count(w) == m2.remove(v).count(w));
            if w == v {
                assert(m1.remove(v).count(v) == m1.count(v) - 1);
                assert(m2.remove(v).count(v) == m2.count(v) - 1);
            } else {
                assert(m1.remove(v).count(w) == m1.count(w));
                assert(m2.remove(v).count(w) == m2.count(w));
            }
        }
        assert(m1 =~= m2);
    }
}

/// Sorts cards by rank, highest first. The result holds exactly the given
/// cards; equal ranks keep no particular suit order.
pub fn sort_by_rank_desc(cards: &Vec<Card>) -> (out: Vec<Card>)
    ensures
        out@.to_multiset() == cards@.to_multiset(),
        rank_seq(out@) == sorted_ranks(cards@),
        out@.len() == cards@.len(),
        all_same_suit(out@) == all_same_suit(cards@),
{
    broadcast use vstd::seq_lib::group_to_multiset_ensures;
    broadcast use vstd::multiset::group_multiset_axioms;

    let mut work: Vec<Card> = Vec::new();
    let mut i: usize = 0;
    while i < cards.len()
        invariant
            i <= cards.len(),
            work@ =~= cards@.take(i as int),
        decreases cards.len() - i,
    {
        work.push(cards[i]);
        i += 1;
    }
    assert(work@ =~= cards@);

    let mut out: Vec<Card> = Vec::new();
    proof {
        assert(rank_seq(out@) =~= Seq::<int>::empty());
        assert(out@.to_multiset().add(work@.to_multiset()) =~= cards@.to_multiset());
        assert(rank_seq(out@).to_multiset().add(rank_seq(work@).to_multiset()) =~= rank_seq(
            cards@,
        ).to_multiset());
    }
    while work.len() > 0
        invariant
            out@.to_multiset().add(work@.to_multiset()) == cards@.to_multiset(),
            rank_seq(out@).to_multiset().add(rank_seq(work@).to_multiset()) == rank_seq(
                cards@,
            ).to_multiset(),
            sorted_desc(rank_seq(out@)),
            forall|p: int, q: int|
                0 <= p < out@.len() && 0 <= q < work@.len() ==> rank_val(out@[p].0) >= rank_val(
                    work@[q].0,
                ),
            out@.len() + work@.len() == cards@.len(),
        decreases work.len(),
    {
        let mut m: usize = 0;
        let mut k: usize = 1;
        while k < work.len()
            invariant
                m < work@.len(),
                k <= work@.len(),
                work@.len() > 0,
                forall|j: int| 0 <= j < k ==> rank_val(work@[j].0) <= rank_val(work@[m as int].0),
            decreases work.len() - k,
        {
            if rank_value(work[k].0) > rank_value(work[m].0) {
                m = k;
            }
            k += 1;
        }
        let ghost old_out = out@;
        let ghost old_work = work@;
        let c = work.remove(m);
        out.push(c);
        proof {
            old_out.to_multiset_ensures();
            old_work.to_multiset_ensures();
            rank_seq(old_out).to_multiset_ensures();
            rank_seq(old_work).to_multiset_ensures();
            assert(out@ == old_out.push(c));
            assert(work@ == old_work.remove(m as int));
            assert(old_out.push(c).to_multiset() =~= old_out.to_multiset().insert(c));
            assert(old_work.remove(m as int).to_multiset() =~= old_work.to_multiset().remove(c));
            assert(old_work.contains(c));
            assert(old_work.to_multiset().count(c) > 0);
            assert(out@.to_multiset().add(work@.to_multiset()) =~= cards@.to_multiset());

            assert(rank_seq(old_work)[m as int] == rank_val(c.0));
            assert(rank_seq(old_work.remove(m as int)) =~= rank_seq(old_work).remove(m as int));
            assert(rank_seq(old_out.push(c)) =~= rank_seq(old_out).push(rank_val(c.0)));
            assert(rank_seq(old_out).push(rank_val(c.0)).to_multiset() =~= rank_seq(
                old_out,
            ).to_multiset().insert(rank_val(c.0)));
            assert(rank_seq(old_work).remove(m as int).to_multiset() =~= rank_seq(
                old_work,
            ).to_multiset().remove(rank_val(c.0)));
            assert(rank_seq(old_work).contains(rank_val(c.0)));
            assert(rank_seq(old_work).to_multiset().count(rank_val(c.0)) > 0);
            assert(rank_seq(out@).to_multiset().add(rank_seq(work@).to_multiset()) =~= rank_seq(
                cards@,
            ).to_multiset());
            assert forall|p: int, q: int|
                0 <= p < out@.len() && 0 <= q < work@.len() implies rank_val(out@[p].0) >= rank_val(
                work@[q].0,
            ) by {
                if q < m {
                    assert(work@[q] == old_work[q]);
                } else {
                    assert(work@[q] == old_work[q + 1]);
                }
            }
            assert(sorted_desc(rank_seq(out@)));
        }
    }
    proof {
        assert(work@.to_multiset() =~= Multiset::<Card>::empty());
        assert(rank_seq(work@).to_multiset() =~= Multiset::<int>::empty());
        assert(out@.to_multiset() =~= cards@.to_multiset());
        assert(rank_seq(out@).to_multiset() =~= rank_seq(cards@).to_multiset());
        lemma_sorted_ranks_unique(cards@, rank_seq(out@));
        lemma_same_suit_transfer(out@, cards@);
        assert(out@.len() == out@.to_multiset().len());
        assert(cards@.len() == cards@.to_multiset().len());
    }
    out
}

/// The thirteen ranks, Two through Ace, in ascending order.
pub fn all_ranks() -> (rs: Vec<Rank>)
    ensures
        rs@ =~= seq![
            Rank::Two,
            Rank::Three,
            Rank::Four,
            Rank::Five,
            Rank::Six,
            Rank::Seven,
            Rank::Eight,
            Rank::Nine,
            Rank::Ten,
            Rank::Jack,
            Rank::Queen,
            Rank::King,
            Rank::Ace,
        ],
{
    let mut rs: Vec<Rank> = Vec::new();
    rs.push(Rank::Two);
    rs.push(Rank::Three);
    rs.push(Rank::Four);
    rs.push(Rank::Five);
    rs.push(Rank::Six);
    rs.push(Rank::Seven);
    rs.push(Rank::Eight);
    rs.push(Rank::Nine);
    rs.push(Rank::Ten);
    rs.push(Rank::Jack);
    rs.push(Rank::Queen);
    rs.push(Rank::King);
    rs.push(Rank::Ace);
    rs
}

/// The four suits.
pub fn all_suits() -> (ss: Vec<Suit>)
    ensures
        ss@ =~= seq![Suit::Clubs, Suit::Diamonds, Suit::Hearts, Suit::Spades],
{
    let mut ss: Vec<Suit> = Vec::new();
    ss.push(Suit::Clubs);
    ss.push(Suit::Diamonds);
    ss.push(Suit::Hearts);
    ss.push(Suit::Spades);
    ss
}

/// A fresh deck: every rank--suit combination exactly once, 52 cards in all.
pub fn deck_52() -> (deck: Vec<Card>)
    ensures
        deck@.len() == 52,
        forall|r: Rank, su: Suit| deck@.contains((r, su)),
{
    let ranks = all_ranks();
    let suits = all_suits();
    let mut deck: Vec<Card> = Vec::new();
    let mut si: usize = 0;
    while si < 4
        invariant
            si <= 4,
            ranks@.len() == 13,
            suits@.len() == 4,
            ranks@ == all_ranks_seq(),
            suits@ == all_suits_seq(),
            deck@.len() == 13 * si,
            forall|s: int, t: int|
                0 <= s < si && 0 <= t < 13 ==> #[trigger] deck@.contains((ranks@[t], suits@[s])),
        decreases 4 - si,
    {
        let mut ri: usize = 0;
        while ri < 13
            invariant
                si < 4,
                ri <= 13,
                ranks@.len() == 13,
                suits@.len() == 4,
                ranks@ == all_ranks_seq(),
                suits@ == all_suits_seq(),
                deck@.len() == 13 * si + ri,
                forall|s: int, t: int|
                    0 <= s < si && 0 <= t < 13 ==> #[trigger] deck@.contains((ranks@[t], suits@[s])),
                forall|t: int|
                    0 <= t < ri ==> #[trigger] deck@.contains((ranks@[t], suits@[si as int])),
            decreases 13 - ri,
        {
            let ghost old_deck = deck@;
            deck.push((ranks[ri], suits[si]));
            proof {
                assert(deck@ == old_deck.push((ranks@[ri as int], suits@[si as int])));
                assert(deck@[old_deck.len() as int] == (ranks@[ri as int], suits@[si as int]));
                assert(deck@.contains((ranks@[ri as int], suits@[si as int])));
                assert forall|s: int, t: int| 0 <= s < si && 0 <= t < 13 implies #[trigger] deck@
                    .contains((ranks@[t], suits@[s])) by {
                    assert(old_deck.contains((ranks@[t], suits@[s])));
                    let k = choose|k: int|
                        0 <= k < old_deck.len() && old_deck[k] == (ranks@[t], suits@[s]);
                    assert(deck@[k] == (ranks@[t], suits@[s]));
                }
                assert forall|t: int| 0 <= t < ri + 1 implies #[trigger] deck@.contains(
                    (ranks@[t], suits@[si as int]),
                ) by {
                    if t < ri {
                        assert(old_deck.contains((ranks@[t], suits@[si as int])));
                        let k = choose|k: int|
                            0 <= k < old_deck.len() && old_deck[k] == (ranks@[t], suits@[si as int]);
                        assert(deck@[k] == (ranks@[t], suits@[si as int]));
                    }
                }
            }
            ri += 1;
        }
        si += 1;
    }
    proof {
        assert forall|r: Rank, su: Suit| deck@.contains((r, su)) by {
            let t = rank_index(r);
            let s = suit_index(su);
            assert(all_ranks_seq()[t] == r);
            assert(all_suits_seq()[s] == su);
        }
    }
    deck
}

/// The canonical rank order, as a spec value.
pub open spec fn all_ranks_seq() -> Seq<Rank> {
    seq![
        Rank::Two,
        Rank::Three,
        Rank::Four,
        Rank::Five,
        Rank::Six,
        Rank::Seven,
        Rank::Eight,
        Rank::Nine,
        Rank::Ten,
        Rank::Jack,
        Rank::Queen,
        Rank::King,
        Rank::Ace,
    ]
}

/// The canonical suit order, as a spec value.
pub open spec fn all_suits_seq() -> Seq<Suit> {
    seq![Suit::Clubs, Suit::Diamonds, Suit::Hearts, Suit::Spades]
}

/// Where a rank stands in the canonical order.
pub open spec fn rank_index(r: Rank) -> int {
    rank_val(r) - 2
}

/// Where a suit stands in the canonical order.
pub open spec fn suit_index(su: Suit) -> int {
    match su {
        Suit::Clubs => 0,
        Suit::Diamonds => 1,
        Suit::Hearts => 2,
        Suit::Spades => 3,
    }
}

} // verus!
