//! The ten poker hand categories and their total order.

use vstd::prelude::*;
use core::cmp::Ordering;
use crate::card::{Rank, rank_val};

verus! {

/// Ranks that break ties for a high card: all five ranks, descending.
pub type HighCardRanks = [Rank; 5];

/// Ranks that break ties for one pair: pair rank, then three kickers descending.
pub type OnePairRanks = [Rank; 4];

/// Ranks that break ties for two pair: higher pair, lower pair, kicker.
pub type TwoPairRanks = [Rank; 3];

/// Ranks that break ties for three of a kind: trips rank, then two kickers descending.
pub type ThreeOfAKindRanks = [Rank; 3];

/// Ranks that break ties for a flush: all five ranks, descending.
pub type FlushRanks = [Rank; 5];

/// Ranks that break ties for a full house: trips rank, then pair rank.
pub type FullHouseRanks = [Rank; 2];

/// Ranks that break ties for four of a kind: quad rank, then the kicker.
pub type FourOfAKindRanks = [Rank; 2];

/// Hands with relevant ranks.
///
/// The variants are listed from weakest to strongest; that order is the
/// category precedence and must never change.
///
/// Within a category, ranks are compared from left to right, so the most
/// important ranks come first. For example, in one pair the rank of the pair
/// comes first, then kickers from highest to lowest. In two pair the higher
/// pair rank comes first, then the lower pair, then the kicker. In a full
/// house the three-of-a-kind rank comes first, then the pair.
///
/// A straight's single rank is the high card of its run, with the ace-low
/// wheel carrying Five. Royal flushes hold no ranks: they are all equal.
#[derive(Clone, Copy, Debug)]
pub enum Hand {
    HighCard(HighCardRanks),
    OnePair(OnePairRanks),
    TwoPair(TwoPairRanks),
    ThreeOfAKind(ThreeOfAKindRanks),
    Straight(Rank),
    Flush(FlushRanks),
    FullHouse(FullHouseRanks),
    FourOfAKind(FourOfAKindRanks),
    StraightFlush(Rank),
    RoyalFlush,
}

/// The precedence ordinal of a hand's category: 0 for a high card up to 9 for
/// a royal flush. A hand of a higher category always beats a hand of a lower
/// one.
pub open spec fn category(h: Hand) -> int {
    match h {
        Hand::HighCard(_) => 0,
        Hand::OnePair(_) => 1,
        Hand::TwoPair(_) => 2,
        Hand::ThreeOfAKind(_) => 3,
        Hand::Straight(_) => 4,
        Hand::Flush(_) => 5,
        Hand::FullHouse(_) => 6,
        Hand::FourOfAKind(_) => 7,
        Hand::StraightFlush(_) => 8,
        Hand::RoyalFlush => 9,
    }
}

/// The tie-break rank values a hand carries, most significant first.
pub open spec fn tie_vals(h: Hand) -> Seq<int> {
    match h {
        Hand::HighCard(rs) => rs@.map_values(|r: Rank| rank_val(r)),
        Hand::OnePair(rs) => rs@.map_values(|r: Rank| rank_val(r)),
        Hand::TwoPair(rs) => rs@.map_values(|r: Rank| rank_val(r)),
        Hand::ThreeOfAKind(rs) => rs@.map_values(|r: Rank| rank_val(r)),
        Hand::Straight(r) => seq![rank_val(r)],
        Hand::Flush(rs) => rs@.map_values(|r: Rank| rank_val(r)),
        Hand::FullHouse(rs) => rs@.map_values(|r: Rank| rank_val(r)),
        Hand::FourOfAKind(rs) => rs@.map_values(|r: Rank| rank_val(r)),
        Hand::StraightFlush(r) => seq![rank_val(r)],
        Hand::RoyalFlush => seq![],
    }
}

/// Lexicographic comparison of two equally long sequences of rank values,
/// most significant first.
pub open spec fn cmp_vals_spec(a: Seq<int>, b: Seq<int>) -> Ordering
    decreases a.len(),
{
    if a.len() == 0 || b.len() == 0 {
        Ordering::Equal
    } else if a[0] < b[0] {
        Ordering::Less
    } else if a[0] > b[0] {
        Ordering::Greater
    } else {
        cmp_vals_spec(a.drop_first(), b.drop_first())
    }
}

/// How two hands compare: by category precedence first; only hands of the
/// same category compare by their embedded ranks, left to right.
pub open spec fn hand_cmp_spec(a: Hand, b: Hand) -> Ordering {
    if category(a) < category(b) {
        Ordering::Less
    } else if category(a) > category(b) {
        Ordering::Greater
    } else {
        cmp_vals_spec(tie_vals(a), tie_vals(b))
    }
}

proof fn lemma_cmp_vals_unfold(a: Seq<int>, b: Seq<int>)
    requires
        a.len() > 0,
        b.len() > 0,
        a[0] == b[0],
    ensures
        cmp_vals_spec(a, b) == cmp_vals_spec(a.drop_first(), b.drop_first()),
{
}

fn cmp_ranks<const N: usize>(a: &[Rank; N], b: &[Rank; N]) -> (r: Ordering)
    ensures
        r == cmp_vals_spec(
            a@.map_values(|x: Rank| rank_val(x)),
            b@.map_values(|x: Rank| rank_val(x)),
        ),
{
    let ghost va = a@.map_values(|x: Rank| rank_val(x));
    let ghost vb = b@.map_values(|x: Rank| rank_val(x));
    proof {
        assert(va.skip(0) =~= va);
        assert(vb.skip(0) =~= vb);
    }
    for i in 0..N
        invariant
            va == a@.map_values(|x: Rank| rank_val(x)),
            vb == b@.map_values(|x: Rank| rank_val(x)),
            va.len() == N,
            vb.len() == N,
            cmp_vals_spec(va, vb) == cmp_vals_spec(va.skip(i as int), vb.skip(i as int)),
    {
        let x = crate::card::rank_value(a[i]);
        let y = crate::card::rank_value(b[i]);
        proof {
            assert(va.skip(i as int)[0] == va[i as int]);
            assert(vb.skip(i as int)[0] == vb[i as int]);
        }
        if x < y {
            return Ordering::Less;
        }
        if x > y {
            return Ordering::Greater;
        }
        proof {
            lemma_cmp_vals_unfold(va.skip(i as int), vb.skip(i as int));
            assert(va.skip(i as int).drop_first() =~= va.skip(i + 1));
            assert(vb.skip(i as int).drop_first() =~= vb.skip(i + 1));
        }
    }
    proof {
        assert(va.skip(N as int).len() == 0);
    }
    Ordering::Equal
}

impl Hand {
    /// Compares two hands for strength: category precedence first, then the
    /// embedded ranks left to right. Royal flushes always compare equal.
    pub fn cmp(&self, other: &Self) -> (r: Ordering)
        ensures
            r == hand_cmp_spec(*self, *other),
    {
        match (self, other) {
            (Hand::HighCard(a), Hand::HighCard(b)) => cmp_ranks(a, b),
            (Hand::HighCard(_), _) => Ordering::Less,
            (_, Hand::HighCard(_)) => Ordering::Greater,
            (Hand::OnePair(a), Hand::OnePair(b)) => cmp_ranks(a, b),
            (Hand::OnePair(_), _) => Ordering::Less,
            (_, Hand::OnePair(_)) => Ordering::Greater,
            (Hand::TwoPair(a), Hand::TwoPair(b)) => cmp_ranks(a, b),
            (Hand::TwoPair(_), _) => Ordering::Less,
            (_, Hand::TwoPair(_)) => Ordering::Greater,
            (Hand::ThreeOfAKind(a), Hand::ThreeOfAKind(b)) => cmp_ranks(a, b),
            (Hand::ThreeOfAKind(_), _) => Ordering::Less,
            (_, Hand::ThreeOfAKind(_)) => Ordering::Greater,
            (Hand::Straight(a), Hand::Straight(b)) => cmp_rank_pair(*a, *b),
            (Hand::Straight(_), _) => Ordering::Less,
            (_, Hand::Straight(_)) => Ordering::Greater,
            (Hand::Flush(a), Hand::Flush(b)) => cmp_ranks(a, b),
            (Hand::FullHouse(a), Hand::FullHouse(b)) => cmp_ranks(a, b),
            (Hand::Flush(_), _) => Ordering::Less,
            (_, Hand::Flush(_)) => Ordering::Greater,
            (Hand::FullHouse(_), _) => Ordering::Less,
            (_, Hand::FullHouse(_)) => Ordering::Greater,
            (Hand::FourOfAKind(a), Hand::FourOfAKind(b)) => cmp_ranks(a, b),
            (Hand::FourOfAKind(_), _) => Ordering::Less,
            (_, Hand::FourOfAKind(_)) => Ordering::Greater,
            (Hand::StraightFlush(a), Hand::StraightFlush(b)) => cmp_rank_pair(*a, *b),
            (Hand::StraightFlush(_), _) => Ordering::Less,
            (_, Hand::StraightFlush(_)) => Ordering::Greater,
            (Hand::RoyalFlush, Hand::RoyalFlush) => Ordering::Equal,
        }
    }
}

fn cmp_rank_pair(a: Rank, b: Rank) -> (r: Ordering)
    ensures
        r == cmp_vals_spec(seq![rank_val(a)], seq![rank_val(b)]),
{
    let x = crate::card::rank_value(a);
    let y = crate::card::rank_value(b);
    if x < y {
        Ordering::Less
    } else if x > y {
        Ordering::Greater
    } else {
        proof {
            let sa = seq![rank_val(a)];
            let sb = seq![rank_val(b)];
            assert(sa[0] == rank_val(a));
            assert(sb[0] == rank_val(b));
            assert(sa.drop_first().len() == 0);
            assert(cmp_vals_spec(sa.drop_first(), sb.drop_first()) == Ordering::Equal);
            assert(cmp_vals_spec(sa, sb) == Ordering::Equal);
        }
        Ordering::Equal
    }
}

impl PartialEq for Hand {
    fn eq(&self, other: &Self) -> (r: bool) {
        matches!(self.cmp(other), Ordering::Equal)
    }
}

impl Eq for Hand {

}

impl vstd::std_specs::cmp::PartialEqSpecImpl for Hand {
    open spec fn obeys_eq_spec() -> bool {
        true
    }

    open spec fn eq_spec(&self, other: &Hand) -> bool {
        hand_cmp_spec(*self, *other) == Ordering::Equal
    }
}

impl PartialOrd for Hand {
    fn partial_cmp(&self, other: &Self) -> (r: Option<Ordering>) {
        Some(self.cmp(other))
    }
}

impl vstd::std_specs::cmp::PartialOrdSpecImpl for Hand {
    open spec fn obeys_partial_cmp_spec() -> bool {
        true
    }

    open spec fn partial_cmp_spec(&self, other: &Hand) -> Option<Ordering> {
        Some(hand_cmp_spec(*self, *other))
    }
}

/// Comparing any rank-value sequence against itself yields equality.
pub proof fn lemma_cmp_vals_refl(a: Seq<int>)
    ensures
        cmp_vals_spec(a, a) == Ordering::Equal,
    decreases a.len(),
{
    if a.len() > 0 {
        lemma_cmp_vals_refl(a.drop_first());
    }
}

proof fn lemma_cmp_vals_antisym(a: Seq<int>, b: Seq<int>)
    ensures
        cmp_vals_spec(a, b) == Ordering::Less <==> cmp_vals_spec(b, a) == Ordering::Greater,
        cmp_vals_spec(a, b) == Ordering::Equal <==> cmp_vals_spec(b, a) == Ordering::Equal,
    decreases a.len(),
{
    if a.len() > 0 && b.len() > 0 && a[0] == b[0] {
        lemma_cmp_vals_antisym(a.drop_first(), b.drop_first());
    }
}

proof fn lemma_cmp_vals_trans(a: Seq<int>, b: Seq<int>, c: Seq<int>)
    requires
        a.len() == b.len() == c.len(),
        cmp_vals_spec(a, b) != Ordering::Greater,
        cmp_vals_spec(b, c) != Ordering::Greater,
    ensures
        cmp_vals_spec(a, c) != Ordering::Greater,
        cmp_vals_spec(a, b) == Ordering::Equal && cmp_vals_spec(b, c) == Ordering::Equal
            ==> cmp_vals_spec(a, c) == Ordering::Equal,
    decreases a.len(),
{
    if a.len() > 0 {
        if a[0] == b[0] && b[0] == c[0] {
            lemma_cmp_vals_trans(a.drop_first(), b.drop_first(), c.drop_first());
        }
    }
}

/// Hands of the same category carry tie-break sequences of the same length.
proof fn lemma_tie_vals_len(a: Hand, b: Hand)
    requires
        category(a) == category(b),
    ensures
        tie_vals(a).len() == tie_vals(b).len(),
{
}

/// The hand comparison is a total order: comparing a hand with itself gives
/// equality, swapping the sides flips the outcome, and "no stronger than"
/// carries over a middle hand — so any collection of hands can be ranked by
/// it, as a showdown does.
pub proof fn lemma_hand_order_total(a: Hand, b: Hand, c: Hand)
    ensures
        hand_cmp_spec(a, a) == Ordering::Equal,
        hand_cmp_spec(a, b) == Ordering::Less <==> hand_cmp_spec(b, a) == Ordering::Greater,
        hand_cmp_spec(a, b) == Ordering::Equal <==> hand_cmp_spec(b, a) == Ordering::Equal,
        hand_cmp_spec(a, b) != Ordering::Greater && hand_cmp_spec(b, c) != Ordering::Greater
            ==> hand_cmp_spec(a, c) != Ordering::Greater,
{
    lemma_cmp_vals_refl(tie_vals(a));
    lemma_cmp_vals_antisym(tie_vals(a), tie_vals(b));
    if category(a) == category(b) && category(b) == category(c) {
        lemma_tie_vals_len(a, b);
        lemma_tie_vals_len(b, c);
        if cmp_vals_spec(tie_vals(a), tie_vals(b)) != Ordering::Greater && cmp_vals_spec(
            tie_vals(b),
            tie_vals(c),
        ) != Ordering::Greater {
            lemma_cmp_vals_trans(tie_vals(a), tie_vals(b), tie_vals(c));
        }
    }
}

/// Category precedence around a flush: for any embedded ranks, a flush beats
/// any straight (the wheel included) and loses to any full house.
pub proof fn lemma_flush_precedence(st: Rank, fl: FlushRanks, fh: FullHouseRanks)
    ensures
        hand_cmp_spec(Hand::Straight(st), Hand::Flush(fl)) == Ordering::Less,
        hand_cmp_spec(Hand::Flush(fl), Hand::Straight(st)) == Ordering::Greater,
        hand_cmp_spec(Hand::Flush(fl), Hand::FullHouse(fh)) == Ordering::Less,
        hand_cmp_spec(Hand::FullHouse(fh), Hand::Flush(fl)) == Ordering::Greater,
{
}

/// The wheel is the weakest straight: it loses to every other straight, and
/// any straight still beats any three of a kind or weaker hand.
pub proof fn lemma_wheel_weakest_straight(
    other: Rank,
    trips: ThreeOfAKindRanks,
    two: TwoPairRanks,
    pair: OnePairRanks,
    high: HighCardRanks,
    st: Rank,
)
    requires
        other != Rank::Five,
    ensures
        hand_cmp_spec(Hand::Straight(Rank::Five), Hand::Straight(other)) == Ordering::Less
            || rank_val(other) < 5,
        hand_cmp_spec(Hand::Straight(st), Hand::ThreeOfAKind(trips)) == Ordering::Greater,
        hand_cmp_spec(Hand::Straight(st), Hand::TwoPair(two)) == Ordering::Greater,
        hand_cmp_spec(Hand::Straight(st), Hand::OnePair(pair)) == Ordering::Greater,
        hand_cmp_spec(Hand::Straight(st), Hand::HighCard(high)) == Ordering::Greater,
{
    assert(seq![rank_val(Rank::Five)][0] == 5);
}

} // verus!
