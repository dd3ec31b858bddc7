//! The five-card evaluator: classifies exactly five cards into the best
//! matching hand category.

use vstd::prelude::*;
use crate::card::{Card, Rank, all_same_suit, rank_seq, rank_val, sort_by_rank_desc, sorted_ranks};
use crate::hand::{
    FlushRanks, FourOfAKindRanks, FullHouseRanks, Hand, OnePairRanks, ThreeOfAKindRanks,
    TwoPairRanks, category, tie_vals,
};

verus! {

/// The five sorted rank values are Ace, King, Queen, Jack, Ten.
pub open spec fn is_royal_vals(rv: Seq<int>) -> bool {
    rv.len() == 5 && rv[0] == 14 && rv[1] == 13 && rv[2] == 12 && rv[3] == 11 && rv[4] == 10
}

/// The high card of the straight that five descending rank values form, if
/// any. The ace-low wheel counts as a straight with high card Five.
pub open spec fn straight_high5(rv: Seq<int>) -> Option<int> {
    if rv[0] == 14 && rv[1] == 5 && rv[2] == 4 && rv[3] == 3 && rv[4] == 2 {
        Some(5)
    } else if rv[0] == rv[1] + 1 && rv[1] == rv[2] + 1 && rv[2] == rv[3] + 1 && rv[3] == rv[4]
        + 1 {
        Some(rv[0])
    } else {
        None
    }
}

/// Four of a kind among five descending rank values: the quad rank then the
/// kicker.
pub open spec fn quad5(rv: Seq<int>) -> Option<Seq<int>> {
    if rv[0] == rv[1] && rv[0] == rv[2] && rv[0] == rv[3] {
        Some(seq![rv[0], rv[4]])
    } else if rv[1] == rv[2] && rv[1] == rv[3] && rv[1] == rv[4] {
        Some(seq![rv[1], rv[0]])
    } else {
        None
    }
}

/// A full house among five descending rank values: the trips rank then the
/// pair rank.
pub open spec fn full_house5(rv: Seq<int>) -> Option<Seq<int>> {
    if rv[0] == rv[1] && rv[0] == rv[2] && rv[3] == rv[4] {
        Some(seq![rv[0], rv[3]])
    } else if rv[0] == rv[1] && rv[2] == rv[3] && rv[2] == rv[4] {
        Some(seq![rv[2], rv[0]])
    } else {
        None
    }
}

/// Three of a kind among five descending rank values: the trips rank then the
/// two kickers, highest first.
pub open spec fn trips5(rv: Seq<int>) -> Option<Seq<int>> {
    if rv[0] == rv[1] && rv[0] == rv[2] {
        Some(seq![rv[0], rv[3], rv[4]])
    } else if rv[1] == rv[2] && rv[1] == rv[3] {
        Some(seq![rv[1], rv[0], rv[4]])
    } else if rv[2] == rv[3] && rv[2] == rv[4] {
        Some(seq![rv[2], rv[0], rv[1]])
    } else {
        None
    }
}

/// Two pair among five descending rank values: higher pair, lower pair,
/// kicker.
pub open spec fn two_pair5(rv: Seq<int>) -> Option<Seq<int>> {
    if rv[0] == rv[1] && rv[2] == rv[3] {
        Some(seq![rv[0], rv[2], rv[4]])
    } else if rv[0] == rv[1] && rv[3] == rv[4] {
        Some(seq![rv[0], rv[3], rv[2]])
    } else if rv[1] == rv[2] && rv[3] == rv[4] {
        Some(seq![rv[1], rv[3], rv[0]])
    } else {
        None
    }
}

/// One pair among five descending rank values: the pair rank, then the three
/// kickers in descending order.
pub open spec fn one_pair5(rv: Seq<int>) -> Option<Seq<int>> {
    if rv[0] == rv[1] {
        Some(seq![rv[0], rv[2], rv[3], rv[4]])
    } else if rv[1] == rv[2] {
        Some(seq![rv[1], rv[0], rv[3], rv[4]])
    } else if rv[2] == rv[3] {
        Some(seq![rv[2], rv[0], rv[1], rv[4]])
    } else if rv[3] == rv[4] {
        Some(seq![rv[3], rv[0], rv[1], rv[2]])
    } else {
        None
    }
}

/// What the five-card evaluator returns, as a relation between the hand `h`,
/// the five rank values `rv` sorted highest first, and `flush`, which says
/// whether all five cards share one suit. Categories are decided strongest
/// first, so a hand is never placed in a weaker category than it deserves.
pub open spec fn eval5_correct(h: Hand, rv: Seq<int>, flush: bool) -> bool {
    if flush && is_royal_vals(rv) {
        h == Hand::RoyalFlush
    } else if flush && straight_high5(rv).is_some() {
        category(h) == 8 && tie_vals(h) == seq![straight_high5(rv).unwrap()]
    } else if quad5(rv).is_some() {
        category(h) == 7 && tie_vals(h) == quad5(rv).unwrap()
    } else if full_house5(rv).is_some() {
        category(h) == 6 && tie_vals(h) == full_house5(rv).unwrap()
    } else if flush {
        category(h) == 5 && tie_vals(h) == rv
    } else if straight_high5(rv).is_some() {
        category(h) == 4 && tie_vals(h) == seq![straight_high5(rv).unwrap()]
    } else if trips5(rv).is_some() {
        category(h) == 3 && tie_vals(h) == trips5(rv).unwrap()
    } else if two_pair5(rv).is_some() {
        category(h) == 2 && tie_vals(h) == two_pair5(rv).unwrap()
    } else if one_pair5(rv).is_some() {
        category(h) == 1 && tie_vals(h) == one_pair5(rv).unwrap()
    } else {
        category(h) == 0 && tie_vals(h) == rv
    }
}

/// Evaluating five cards does not depend on their order: for two inputs that
/// hold the same cards, any hands the evaluator's contract allows compare
/// equal.
pub proof fn lemma_eval5_order_independent(c1: Seq<Card>, c2: Seq<Card>, h1: Hand, h2: Hand)
    requires
        c1.to_multiset() == c2.to_multiset(),
        eval5_correct(h1, sorted_ranks(c1), all_same_suit(c1)),
        eval5_correct(h2, sorted_ranks(c2), all_same_suit(c2)),
    ensures
        crate::hand::hand_cmp_spec(h1, h2) == core::cmp::Ordering::Equal,
{
    crate::card::lemma_rank_multiset_transfer(c1, c2);
    crate::card::lemma_sorted_ranks_ensures(c1);
    crate::card::lemma_sorted_ranks_unique(c2, sorted_ranks(c1));
    crate::card::lemma_same_suit_transfer(c1, c2);
    let rv = sorted_ranks(c1);
    let flush = all_same_suit(c1);
    if flush && is_royal_vals(rv) {
        assert(h1 == h2);
    } else {
        assert(category(h1) == category(h2));
        assert(tie_vals(h1) == tie_vals(h2));
        crate::hand::lemma_cmp_vals_refl(tie_vals(h1));
    }
}

/// The ace-low wheel with mixed suits classifies as the five-high straight,
/// never as anything stronger or weaker.
pub proof fn lemma_wheel_classifies(h: Hand, rv: Seq<int>)
    requires
        rv == seq![14int, 5int, 4int, 3int, 2int],
        eval5_correct(h, rv, false),
    ensures
        category(h) == 4,
        tie_vals(h) == seq![5int],
{
    assert(straight_high5(rv) == Some(5int));
}

/// All royal flushes are equal in strength, whatever their suits: any two
/// hands the evaluator's contract allows for royal-flush inputs compare
/// equal.
pub proof fn lemma_royal_flushes_equal(h1: Hand, rv1: Seq<int>, h2: Hand, rv2: Seq<int>)
    requires
        is_royal_vals(rv1),
        is_royal_vals(rv2),
        eval5_correct(h1, rv1, true),
        eval5_correct(h2, rv2, true),
    ensures
        h1 == h2,
        crate::hand::hand_cmp_spec(h1, h2) == core::cmp::Ordering::Equal,
{
}

/// Evaluates exactly five cards into the best matching hand category, fully
/// tie-broken. The result is determined by the cards' rank values in
/// descending order and by whether all five share a suit.
pub fn best_hand(cards: [Card; 5]) -> (h: Hand)
    ensures
        eval5_correct(h, sorted_ranks(cards@), all_same_suit(cards@)),
{
    let mut given: Vec<Card> = Vec::new();
    given.push(cards[0]);
    given.push(cards[1]);
    given.push(cards[2]);
    given.push(cards[3]);
    given.push(cards[4]);
    proof {
        assert(given@ =~= cards@);
    }
    let c = sort_by_rank_desc(&given);
    let ghost rv = sorted_ranks(cards@);
    proof {
        assert(rank_seq(c@) == rv);
        assert(rv.len() == 5);
        assert forall|i: int| 0 <= i < 5 implies rv[i] == rank_val(c@[i].0) by {
            assert(rank_seq(c@)[i] == rank_val(c@[i].0));
        }
    }

    let (r0, s0) = c[0];
    let (r1, s1) = c[1];
    let (r2, s2) = c[2];
    let (r3, s3) = c[3];
    let (r4, s4) = c[4];
    let v0 = crate::card::rank_value(r0);
    let v1 = crate::card::rank_value(r1);
    let v2 = crate::card::rank_value(r2);
    let v3 = crate::card::rank_value(r3);
    let v4 = crate::card::rank_value(r4);
    let flush = s0 == s1 && s0 == s2 && s0 == s3 && s0 == s4;
    proof {
        assert(flush == all_same_suit(c@));
        assert(all_same_suit(c@) == all_same_suit(cards@));
    }

    let straight: Option<Rank> = if v0 == 14 && v1 == 5 && v2 == 4 && v3 == 3 && v4 == 2 {
        Some(Rank::Five)
    } else if v0 == v1 + 1 && v1 == v2 + 1 && v2 == v3 + 1 && v3 == v4 + 1 {
        Some(r0)
    } else {
        None
    };
    proof {
        assert(straight.is_some() == straight_high5(rv).is_some());
        if straight.is_some() {
            assert(rank_val(straight.unwrap()) == straight_high5(rv).unwrap());
        }
    }

    if flush && v0 == 14 && v1 == 13 && v2 == 12 && v3 == 11 && v4 == 10 {
        return Hand::RoyalFlush;
    }
    if flush && straight.is_some() {
        let hi = match straight {
            Some(r) => r,
            None => r0,
        };
        let h = Hand::StraightFlush(hi);
        proof {
            assert(tie_vals(h) =~= seq![straight_high5(rv).unwrap()]);
        }
        return h;
    }
    if v0 == v1 && v0 == v2 && v0 == v3 {
        let h = Hand::FourOfAKind([r0, r4]);
        proof {
            assert([r0, r4]@ =~= seq![r0, r4]);
            assert(tie_vals(h) =~= seq![rv[0], rv[4]]);
        }
        return h;
    }
    if v1 == v2 && v1 == v3 && v1 == v4 {
        let h = Hand::FourOfAKind([r1, r0]);
        proof {
            assert([r1, r0]@ =~= seq![r1, r0]);
            assert(tie_vals(h) =~= seq![rv[1], rv[0]]);
        }
        return h;
    }
    if v0 == v1 && v0 == v2 && v3 == v4 {
        let h = Hand::FullHouse([r0, r3]);
        proof {
            assert([r0, r3]@ =~= seq![r0, r3]);
            assert(tie_vals(h) =~= seq![rv[0], rv[3]]);
        }
        return h;
    }
    if v0 == v1 && v2 == v3 && v2 == v4 {
        let h = Hand::FullHouse([r2, r0]);
        proof {
            assert([r2, r0]@ =~= seq![r2, r0]);
            assert(tie_vals(h) =~= seq![rv[2], rv[0]]);
        }
        return h;
    }
    if flush {
        let h = Hand::Flush([r0, r1, r2, r3, r4]);
        proof {
            assert([r0, r1, r2, r3, r4]@ =~= seq![r0, r1, r2, r3, r4]);
            assert(tie_vals(h) =~= rv);
        }
        return h;
    }
    if let Some(hi) = straight {
        let h = Hand::Straight(hi);
        proof {
            assert(tie_vals(h) =~= seq![straight_high5(rv).unwrap()]);
        }
        return h;
    }
    if v0 == v1 && v0 == v2 {
        let h = Hand::ThreeOfAKind([r0, r3, r4]);
        proof {
            assert([r0, r3, r4]@ =~= seq![r0, r3, r4]);
            assert(tie_vals(h) =~= seq![rv[0], rv[3], rv[4]]);
        }
        return h;
    }
    if v1 == v2 && v1 == v3 {
        let h = Hand::ThreeOfAKind([r1, r0, r4]);
        proof {
            assert([r1, r0, r4]@ =~= seq![r1, r0, r4]);
            assert(tie_vals(h) =~= seq![rv[1], rv[0], rv[4]]);
        }
        return h;
    }
    if v2 == v3 && v2 == v4 {
        let h = Hand::ThreeOfAKind([r2, r0, r1]);
        proof {
            assert([r2, r0, r1]@ =~= seq![r2, r0, r1]);
            assert(tie_vals(h) =~= seq![rv[2], rv[0], rv[1]]);
        }
        return h;
    }
    if v0 == v1 && v2 == v3 {
        let h = Hand::TwoPair([r0, r2, r4]);
        proof {
            assert([r0, r2, r4]@ =~= seq![r0, r2, r4]);
            assert(tie_vals(h) =~= seq![rv[0], rv[2], rv[4]]);
        }
        return h;
    }
    if v0 == v1 && v3 == v4 {
        let h = Hand::TwoPair([r0, r3, r2]);
        proof {
            assert([r0, r3, r2]@ =~= seq![r0, r3, r2]);
            assert(tie_vals(h) =~= seq![rv[0], rv[3], rv[2]]);
        }
        return h;
    }
    if v1 == v2 && v3 == v4 {
        let h = Hand::TwoPair([r1, r3, r0]);
        proof {
            assert([r1, r3, r0]@ =~= seq![r1, r3, r0]);
            assert(tie_vals(h) =~= seq![rv[1], rv[3], rv[0]]);
        }
        return h;
    }
    if v0 == v1 {
        let h = Hand::OnePair([r0, r2, r3, r4]);
        proof {
            assert([r0, r2, r3, r4]@ =~= seq![r0, r2, r3, r4]);
            assert(tie_vals(h) =~= seq![rv[0], rv[2], rv[3], rv[4]]);
        }
        return h;
    }
    if v1 == v2 {
        let h = Hand::OnePair([r1, r0, r3, r4]);
        proof {
            assert([r1, r0, r3, r4]@ =~= seq![r1, r0, r3, r4]);
            assert(tie_vals(h) =~= seq![rv[1], rv[0], rv[3], rv[4]]);
        }
        return h;
    }
    if v2 == v3 {
        let h = Hand::OnePair([r2, r0, r1, r4]);
        proof {
            assert([r2, r0, r1, r4]@ =~= seq![r2, r0, r1, r4]);
            assert(tie_vals(h) =~= seq![rv[2], rv[0], rv[1], rv[4]]);
        }
        return h;
    }
    if v3 == v4 {
        let h = Hand::OnePair([r3, r0, r1, r2]);
        proof {
            assert([r3, r0, r1, r2]@ =~= seq![r3, r0, r1, r2]);
            assert(tie_vals(h) =~= seq![rv[3], rv[0], rv[1], rv[2]]);
        }
        return h;
    }
    let h = Hand::HighCard([r0, r1, r2, r3, r4]);
    proof {
        assert([r0, r1, r2, r3, r4]@ =~= seq![r0, r1, r2, r3, r4]);
        assert(tie_vals(h) =~= rv);
    }
    h
}

} // verus!
