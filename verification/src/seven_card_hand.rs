//! The seven-card evaluator: finds the best five-card hand among seven cards
//! with single-pass scans over one sorted working copy, never enumerating the
//! twenty-one subsets.

use vstd::prelude::*;
use crate::card::{
    Card, Rank, Suit, rank_seq, rank_val, sort_by_rank_desc, sorted_desc, sorted_ranks,
};
use crate::hand::{
    FlushRanks, FourOfAKindRanks, FullHouseRanks, Hand, OnePairRanks, ThreeOfAKindRanks,
    TwoPairRanks, category, tie_vals,
};

verus! {

/// Some card among `s` has rank value `v` and suit `su`.
pub open spec fn has_card(s: Seq<Card>, v: int, su: Suit) -> bool {
    exists|i: int| 0 <= i < s.len() && rank_val(s[i].0) == v && s[i].1 == su
}

/// Some card among `s` has rank value `v`.
pub open spec fn has_val(s: Seq<Card>, v: int) -> bool {
    exists|i: int| 0 <= i < s.len() && rank_val(s[i].0) == v
}

/// Ace, King, Queen, Jack, Ten of one suit are all present.
pub open spec fn has_royal(s: Seq<Card>) -> bool {
    exists|su: Suit|
        has_card(s, 14, su) && has_card(s, 13, su) && has_card(s, 12, su) && has_card(s, 11, su)
            && has_card(s, 10, su)
}

/// Five cards of one suit with consecutive rank values `v` down to `v - 4`
/// are all present.
pub open spec fn has_sf_run(s: Seq<Card>, v: int) -> bool {
    exists|su: Suit|
        has_card(s, v, su) && has_card(s, v - 1, su) && has_card(s, v - 2, su) && has_card(
            s,
            v - 3,
            su,
        ) && has_card(s, v - 4, su)
}

/// Ace, Five, Four, Three, Two of one suit are all present: the ace-low
/// straight flush.
pub open spec fn has_wheel_flush(s: Seq<Card>) -> bool {
    exists|su: Suit|
        has_card(s, 14, su) && has_card(s, 5, su) && has_card(s, 4, su) && has_card(s, 3, su)
            && has_card(s, 2, su)
}

/// Five consecutive rank values `v` down to `v - 4` are all present, suits
/// free.
pub open spec fn has_run(s: Seq<Card>, v: int) -> bool {
    has_val(s, v) && has_val(s, v - 1) && has_val(s, v - 2) && has_val(s, v - 3) && has_val(
        s,
        v - 4,
    )
}

/// Ace, Five, Four, Three, Two are all present, suits free: the ace-low
/// straight.
pub open spec fn has_wheel(s: Seq<Card>) -> bool {
    has_val(s, 14) && has_val(s, 5) && has_val(s, 4) && has_val(s, 3) && has_val(s, 2)
}

/// How many cards of `s` wear suit `su`.
pub open spec fn count_suit(s: Seq<Card>, su: Suit) -> int
    decreases s.len(),
{
    if s.len() == 0 {
        0
    } else {
        count_suit(s.drop_last(), su) + if s.last().1 == su {
            1int
        } else {
            0int
        }
    }
}

/// The rank values of the cards of suit `su`, in the order they stand in `s`.
pub open spec fn ranks_of_suit(s: Seq<Card>, su: Suit) -> Seq<int>
    decreases s.len(),
{
    if s.len() == 0 {
        Seq::empty()
    } else {
        ranks_of_suit(s.drop_last(), su) + if s.last().1 == su {
            seq![rank_val(s.last().0)]
        } else {
            Seq::empty()
        }
    }
}

/// Four of a kind among seven descending rank values: the first window of
/// four equal values, with the highest remaining card as the kicker.
pub open spec fn quad7(rv: Seq<int>) -> Option<Seq<int>> {
    if rv[0] == rv[1] && rv[0] == rv[2] && rv[0] == rv[3] {
        Some(seq![rv[0], rv[4]])
    } else if rv[1] == rv[2] && rv[1] == rv[3] && rv[1] == rv[4] {
        Some(seq![rv[1], rv[0]])
    } else if rv[2] == rv[3] && rv[2] == rv[4] && rv[2] == rv[5] {
        Some(seq![rv[2], rv[0]])
    } else if rv[3] == rv[4] && rv[3] == rv[5] && rv[3] == rv[6] {
        Some(seq![rv[3], rv[0]])
    } else {
        None
    }
}

/// Three equal values starting at position `i` of the seven sorted values.
pub open spec fn trips_at(rv: Seq<int>, i: int) -> bool {
    rv[i] == rv[i + 1] && rv[i] == rv[i + 2]
}

/// The seven sorted values with the window of three starting at `i` removed.
pub open spec fn rest7(rv: Seq<int>, i: int) -> Seq<int> {
    rv.subrange(0, i) + rv.subrange(i + 3, 7)
}

/// The first adjacent equal pair among four descending values.
pub open spec fn pair_first4(s: Seq<int>) -> Option<int> {
    if s[0] == s[1] {
        Some(s[0])
    } else if s[1] == s[2] {
        Some(s[1])
    } else if s[2] == s[3] {
        Some(s[2])
    } else {
        None
    }
}

/// A full house among seven descending rank values: the first window of three
/// equal values that leaves an adjacent pair among the remaining four cards;
/// the trips rank takes precedence, the pair rank breaks ties.
pub open spec fn full_house7(rv: Seq<int>) -> Option<Seq<int>> {
    if trips_at(rv, 0) && pair_first4(rest7(rv, 0)).is_some() {
        Some(seq![rv[0], pair_first4(rest7(rv, 0)).unwrap()])
    } else if trips_at(rv, 1) && pair_first4(rest7(rv, 1)).is_some() {
        Some(seq![rv[1], pair_first4(rest7(rv, 1)).unwrap()])
    } else if trips_at(rv, 2) && pair_first4(rest7(rv, 2)).is_some() {
        Some(seq![rv[2], pair_first4(rest7(rv, 2)).unwrap()])
    } else if trips_at(rv, 3) && pair_first4(rest7(rv, 3)).is_some() {
        Some(seq![rv[3], pair_first4(rest7(rv, 3)).unwrap()])
    } else if trips_at(rv, 4) && pair_first4(rest7(rv, 4)).is_some() {
        Some(seq![rv[4], pair_first4(rest7(rv, 4)).unwrap()])
    } else {
        None
    }
}

/// Three of a kind among seven descending rank values: the first window of
/// three equal values, with the two highest remaining cards as kickers.
pub open spec fn trips7(rv: Seq<int>) -> Option<Seq<int>> {
    if trips_at(rv, 0) {
        Some(seq![rv[0], rv[3], rv[4]])
    } else if trips_at(rv, 1) {
        Some(seq![rv[1], rv[0], rv[4]])
    } else if trips_at(rv, 2) {
        Some(seq![rv[2], rv[0], rv[1]])
    } else if trips_at(rv, 3) {
        Some(seq![rv[3], rv[0], rv[1]])
    } else if trips_at(rv, 4) {
        Some(seq![rv[4], rv[0], rv[1]])
    } else {
        None
    }
}

/// The kicker that goes with the two pairs found at positions `i` and `j`.
pub open spec fn two_pair_kick7(rv: Seq<int>, i: int, j: int) -> int {
    if i == 0 && j == 2 {
        rv[4]
    } else if i == 0 {
        rv[2]
    } else {
        rv[0]
    }
}

/// The second adjacent equal pair at or after position `j`, `j` past the
/// first pair.
pub open spec fn second_pair_from7(rv: Seq<int>, j: int) -> Option<int>
    decreases 6 - j,
{
    if j > 5 {
        None
    } else if rv[j] == rv[j + 1] {
        Some(j)
    } else {
        second_pair_from7(rv, j + 1)
    }
}

/// The first adjacent equal pair at or after position `i` among the seven
/// sorted values.
pub open spec fn first_pair_from7(rv: Seq<int>, i: int) -> Option<int>
    decreases 6 - i,
{
    if i > 5 {
        None
    } else if rv[i] == rv[i + 1] {
        Some(i)
    } else {
        first_pair_from7(rv, i + 1)
    }
}

/// Two pair among seven descending rank values: the first adjacent pair, the
/// next adjacent pair after it, and the highest card outside both.
pub open spec fn two_pair7(rv: Seq<int>) -> Option<Seq<int>> {
    let fp = first_pair_from7(rv, 0);
    if fp.is_some() && fp.unwrap() <= 3 {
        let i = fp.unwrap();
        let sp = second_pair_from7(rv, i + 2);
        if sp.is_some() {
            let j = sp.unwrap();
            Some(seq![rv[i], rv[j], two_pair_kick7(rv, i, j)])
        } else {
            None
        }
    } else {
        None
    }
}

/// The kickers that go with the pair found at position `i`.
pub open spec fn one_pair_kicks7(rv: Seq<int>, i: int) -> Seq<int> {
    if i == 0 {
        seq![rv[2], rv[3], rv[4]]
    } else if i == 1 {
        seq![rv[0], rv[3], rv[4]]
    } else if i == 2 {
        seq![rv[0], rv[1], rv[4]]
    } else {
        seq![rv[0], rv[1], rv[2]]
    }
}

/// One pair among seven descending rank values: the first adjacent pair, with
/// the three highest remaining cards as kickers.
pub open spec fn one_pair7(rv: Seq<int>) -> Option<Seq<int>> {
    let fp = first_pair_from7(rv, 0);
    if fp.is_some() {
        let i = fp.unwrap();
        Some(seq![rv[i]] + one_pair_kicks7(rv, i))
    } else {
        None
    }
}

/// What the seven-card evaluator returns: `h` is the strongest five-card hand
/// among the sorted seven cards `s`, category by category from strongest to
/// weakest, with the tie-break ranks each scan yields.
pub open spec fn eval7_correct(h: Hand, s: Seq<Card>) -> bool {
    let rv = rank_seq(s);
    if has_royal(s) {
        h == Hand::RoyalFlush
    } else if (exists|v: int| has_sf_run(s, v)) || has_wheel_flush(s) {
        category(h) == 8 && tie_vals(h).len() == 1 && ((has_sf_run(s, tie_vals(h)[0]) && forall|
            w: int,
        |
            has_sf_run(s, w) ==> w <= tie_vals(h)[0]) || (tie_vals(h)[0] == 5 && has_wheel_flush(s)
            && forall|w: int| !has_sf_run(s, w)))
    } else if quad7(rv).is_some() {
        category(h) == 7 && tie_vals(h) == quad7(rv).unwrap()
    } else if full_house7(rv).is_some() {
        category(h) == 6 && tie_vals(h) == full_house7(rv).unwrap()
    } else if exists|su: Suit| count_suit(s, su) >= 5 {
        category(h) == 5 && exists|su: Suit|
            count_suit(s, su) >= 5 && tie_vals(h) == ranks_of_suit(s, su).take(5)
    } else if (exists|v: int| has_run(s, v)) || has_wheel(s) {
        category(h) == 4 && tie_vals(h).len() == 1 && ((has_run(s, tie_vals(h)[0]) && forall|
            w: int,
        |
            has_run(s, w) ==> w <= tie_vals(h)[0]) || (tie_vals(h)[0] == 5 && has_wheel(s)
            && forall|w: int| !has_run(s, w)))
    } else if trips7(rv).is_some() {
        category(h) == 3 && tie_vals(h) == trips7(rv).unwrap()
    } else if two_pair7(rv).is_some() {
        category(h) == 2 && tie_vals(h) == two_pair7(rv).unwrap()
    } else if one_pair7(rv).is_some() {
        category(h) == 1 && tie_vals(h) == one_pair7(rv).unwrap()
    } else {
        category(h) == 0 && tie_vals(h) == rv.take(5)
    }
}

fn is_four_of_a_kind(c: &Vec<Card>) -> (r: Option<FourOfAKindRanks>)
    requires
        c@.len() == 7,
    ensures
        ({
            let q = quad7(rank_seq(c@));
            match r {
                Some(a) => q.is_some() && a@.map_values(|x: Rank| rank_val(x)) == q.unwrap(),
                None => q.is_none(),
            }
        }),
{
    let ghost rv = rank_seq(c@);
    proof {
        assert forall|i: int| 0 <= i < 7 implies rv[i] == rank_val(c@[i].0) by {}
    }
    let v0 = crate::card::rank_value(c[0].0);
    let v1 = crate::card::rank_value(c[1].0);
    let v2 = crate::card::rank_value(c[2].0);
    let v3 = crate::card::rank_value(c[3].0);
    let v4 = crate::card::rank_value(c[4].0);
    let v5 = crate::card::rank_value(c[5].0);
    let v6 = crate::card::rank_value(c[6].0);
    if v0 == v1 && v0 == v2 && v0 == v3 {
        let a = [c[0].0, c[4].0];
        proof {
            assert(a@ =~= seq![c@[0].0, c@[4].0]);
            assert(a@.map_values(|x: Rank| rank_val(x)) =~= seq![rv[0], rv[4]]);
        }
        return Some(a);
    }
    if v1 == v2 && v1 == v3 && v1 == v4 {
        let a = [c[1].0, c[0].0];
        proof {
            assert(a@ =~= seq![c@[1].0, c@[0].0]);
            assert(a@.map_values(|x: Rank| rank_val(x)) =~= seq![rv[1], rv[0]]);
        }
        return Some(a);
    }
    if v2 == v3 && v2 == v4 && v2 == v5 {
        let a = [c[2].0, c[0].0];
        proof {
            assert(a@ =~= seq![c@[2].0, c@[0].0]);
            assert(a@.map_values(|x: Rank| rank_val(x)) =~= seq![rv[2], rv[0]]);
        }
        return Some(a);
    }
    if v3 == v4 && v3 == v5 && v3 == v6 {
        let a = [c[3].0, c[0].0];
        proof {
            assert(a@ =~= seq![c@[3].0, c@[0].0]);
            assert(a@.map_values(|x: Rank| rank_val(x)) =~= seq![rv[3], rv[0]]);
        }
        return Some(a);
    }
    None
}

/// The first adjacent equal pair among four ranks, as [`pair_first4`] sees
/// their values.
fn pair4(a: Rank, b: Rank, cc: Rank, d: Rank) -> (r: Option<Rank>)
    ensures
        ({
            let p = pair_first4(seq![rank_val(a), rank_val(b), rank_val(cc), rank_val(d)]);
            match r {
                Some(x) => p.is_some() && rank_val(x) == p.unwrap(),
                None => p.is_none(),
            }
        }),
{
    let va = crate::card::rank_value(a);
    let vb = crate::card::rank_value(b);
    let vc = crate::card::rank_value(cc);
    let vd = crate::card::rank_value(d);
    if va == vb {
        Some(a)
    } else if vb == vc {
        Some(b)
    } else if vc == vd {
        Some(cc)
    } else {
        None
    }
}

fn is_full_house(c: &Vec<Card>) -> (r: Option<FullHouseRanks>)
    requires
        c@.len() == 7,
    ensures
        ({
            let fh = full_house7(rank_seq(c@));
            match r {
                Some(a) => fh.is_some() && a@.map_values(|x: Rank| rank_val(x)) == fh.unwrap(),
                None => fh.is_none(),
            }
        }),
{
    let ghost rv = rank_seq(c@);
    proof {
        assert forall|i: int| 0 <= i < 7 implies rv[i] == rank_val(c@[i].0) by {}
        assert(rest7(rv, 0) =~= seq![rv[3], rv[4], rv[5], rv[6]]);
        assert(rest7(rv, 1) =~= seq![rv[0], rv[4], rv[5], rv[6]]);
        assert(rest7(rv, 2) =~= seq![rv[0], rv[1], rv[5], rv[6]]);
        assert(rest7(rv, 3) =~= seq![rv[0], rv[1], rv[2], rv[6]]);
        assert(rest7(rv, 4) =~= seq![rv[0], rv[1], rv[2], rv[3]]);
    }
    let v0 = crate::card::rank_value(c[0].0);
    let v1 = crate::card::rank_value(c[1].0);
    let v2 = crate::card::rank_value(c[2].0);
    let v3 = crate::card::rank_value(c[3].0);
    let v4 = crate::card::rank_value(c[4].0);
    let v5 = crate::card::rank_value(c[5].0);
    let v6 = crate::card::rank_value(c[6].0);
    if v0 == v1 && v0 == v2 {
        if let Some(p) = pair4(c[3].0, c[4].0, c[5].0, c[6].0) {
            let a = [c[0].0, p];
            proof {
                assert(a@ =~= seq![c@[0].0, p]);
                assert(a@.map_values(|x: Rank| rank_val(x)) =~= full_house7(rv).unwrap());
            }
            return Some(a);
        }
    }
    if v1 == v2 && v1 == v3 {
        if let Some(p) = pair4(c[0].0, c[4].0, c[5].0, c[6].0) {
            let a = [c[1].0, p];
            proof {
                assert(a@ =~= seq![c@[1].0, p]);
                assert(a@.map_values(|x: Rank| rank_val(x)) =~= full_house7(rv).unwrap());
            }
            return Some(a);
        }
    }
    if v2 == v3 && v2 == v4 {
        if let Some(p) = pair4(c[0].0, c[1].0, c[5].0, c[6].0) {
            let a = [c[2].0, p];
            proof {
                assert(a@ =~= seq![c@[2].0, p]);
                assert(a@.map_values(|x: Rank| rank_val(x)) =~= full_house7(rv).unwrap());
            }
            return Some(a);
        }
    }
    if v3 == v4 && v3 == v5 {
        if let Some(p) = pair4(c[0].0, c[1].0, c[2].0, c[6].0) {
            let a = [c[3].0, p];
            proof {
                assert(a@ =~= seq![c@[3].0, p]);
                assert(a@.map_values(|x: Rank| rank_val(x)) =~= full_house7(rv).unwrap());
            }
            return Some(a);
        }
    }
    if v4 == v5 && v4 == v6 {
        if let Some(p) = pair4(c[0].0, c[1].0, c[2].0, c[3].0) {
            let a = [c[4].0, p];
            proof {
                assert(a@ =~= seq![c@[4].0, p]);
                assert(a@.map_values(|x: Rank| rank_val(x)) =~= full_house7(rv).unwrap());
            }
            return Some(a);
        }
    }
    None
}

fn is_three_of_a_kind(c: &Vec<Card>) -> (r: Option<ThreeOfAKindRanks>)
    requires
        c@.len() == 7,
    ensures
        ({
            let t = trips7(rank_seq(c@));
            match r {
                Some(a) => t.is_some() && a@.map_values(|x: Rank| rank_val(x)) == t.unwrap(),
                None => t.is_none(),
            }
        }),
{
    let ghost rv = rank_seq(c@);
    proof {
        assert forall|i: int| 0 <= i < 7 implies rv[i] == rank_val(c@[i].0) by {}
    }
    let v0 = crate::card::rank_value(c[0].0);
    let v1 = crate::card::rank_value(c[1].0);
    let v2 = crate::card::rank_value(c[2].0);
    let v3 = crate::card::rank_value(c[3].0);
    let v4 = crate::card::rank_value(c[4].0);
    let v5 = crate::card::rank_value(c[5].0);
    let v6 = crate::card::rank_value(c[6].0);
    if v0 == v1 && v0 == v2 {
        let a = [c[0].0, c[3].0, c[4].0];
        proof {
            assert(a@ =~= seq![c@[0].0, c@[3].0, c@[4].0]);
            assert(a@.map_values(|x: Rank| rank_val(x)) =~= seq![rv[0], rv[3], rv[4]]);
        }
        return Some(a);
    }
    if v1 == v2 && v1 == v3 {
        let a = [c[1].0, c[0].0, c[4].0];
        proof {
            assert(a@ =~= seq![c@[1].0, c@[0].0, c@[4].0]);
            assert(a@.map_values(|x: Rank| rank_val(x)) =~= seq![rv[1], rv[0], rv[4]]);
        }
        return Some(a);
    }
    if v2 == v3 && v2 == v4 {
        let a = [c[2].0, c[0].0, c[1].0];
        proof {
            assert(a@ =~= seq![c@[2].0, c@[0].0, c@[1].0]);
            assert(a@.map_values(|x: Rank| rank_val(x)) =~= seq![rv[2], rv[0], rv[1]]);
        }
        return Some(a);
    }
    if v3 == v4 && v3 == v5 {
        let a = [c[3].0, c[0].0, c[1].0];
        proof {
            assert(a@ =~= seq![c@[3].0, c@[0].0, c@[1].0]);
            assert(a@.map_values(|x: Rank| rank_val(x)) =~= seq![rv[3], rv[0], rv[1]]);
        }
        return Some(a);
    }
    if v4 == v5 && v4 == v6 {
        let a = [c[4].0, c[0].0, c[1].0];
        proof {
            assert(a@ =~= seq![c@[4].0, c@[0].0, c@[1].0]);
            assert(a@.map_values(|x: Rank| rank_val(x)) =~= seq![rv[4], rv[0], rv[1]]);
        }
        return Some(a);
    }
    None
}

proof fn lemma_first_pair_bounds(rv: Seq<int>, i: int)
    requires
        0 <= i <= 6,
    ensures
        match first_pair_from7(rv, i) {
            Some(p) => i <= p <= 5 && rv[p] == rv[p + 1],
            None => true,
        },
    decreases 6 - i,
{
    if i <= 5 && rv[i] != rv[i + 1] {
        lemma_first_pair_bounds(rv, i + 1);
    }
}

proof fn lemma_first_pair_step(rv: Seq<int>, i: int)
    requires
        0 <= i <= 5,
        rv[i] != rv[i + 1],
    ensures
        first_pair_from7(rv, i) == first_pair_from7(rv, i + 1),
        second_pair_from7(rv, i) == second_pair_from7(rv, i + 1),
{
}

fn is_two_pair(c: &Vec<Card>) -> (r: Option<TwoPairRanks>)
    requires
        c@.len() == 7,
    ensures
        ({
            let t = two_pair7(rank_seq(c@));
            match r {
                Some(a) => t.is_some() && a@.map_values(|x: Rank| rank_val(x)) == t.unwrap(),
                None => t.is_none(),
            }
        }),
{
    let ghost rv = rank_seq(c@);
    proof {
        assert forall|i: int| 0 <= i < 7 implies rv[i] == rank_val(c@[i].0) by {}
    }
    let mut i: usize = 0;
    while i <= 3
        invariant
            c@.len() == 7,
            rv == rank_seq(c@),
            i <= 4,
            forall|k: int| 0 <= k < 7 ==> rv[k] == rank_val(c@[k].0),
            first_pair_from7(rv, 0) == first_pair_from7(rv, i as int),
        decreases 4 - i,
    {
        if crate::card::rank_value(c[i].0) == crate::card::rank_value(c[i + 1].0) {
            proof {
                assert(first_pair_from7(rv, i as int) == Some(i as int));
            }
            let mut j: usize = i + 2;
            while j <= 5
                invariant
                    c@.len() == 7,
                    rv == rank_seq(c@),
                    i + 2 <= j <= 6,
                    i <= 3,
                    forall|k: int| 0 <= k < 7 ==> rv[k] == rank_val(c@[k].0),
                    first_pair_from7(rv, 0) == Some(i as int),
                    second_pair_from7(rv, i as int + 2) == second_pair_from7(rv, j as int),
                decreases 6 - j,
            {
                if crate::card::rank_value(c[j].0) == crate::card::rank_value(c[j + 1].0) {
                    proof {
                        assert(second_pair_from7(rv, j as int) == Some(j as int));
                    }
                    let k = if i == 0 && j == 2 {
                        c[4].0
                    } else if i == 0 {
                        c[2].0
                    } else {
                        c[0].0
                    };
                    let a = [c[i].0, c[j].0, k];
                    proof {
                        assert(a@ =~= seq![c@[i as int].0, c@[j as int].0, k]);
                        assert(rank_val(k) == two_pair_kick7(rv, i as int, j as int));
                        assert(a@.map_values(|x: Rank| rank_val(x)) =~= two_pair7(rv).unwrap());
                    }
                    return Some(a);
                }
                proof {
                    lemma_first_pair_step(rv, j as int);
                }
                j += 1;
            }
            proof {
                assert(second_pair_from7(rv, 6) is None);
                assert(second_pair_from7(rv, i as int + 2) is None);
                assert(two_pair7(rv) is None);
            }
            return None;
        }
        proof {
            lemma_first_pair_step(rv, i as int);
        }
        i += 1;
    }
    proof {
        assert(first_pair_from7(rv, 0) == first_pair_from7(rv, 4));
        lemma_first_pair_bounds(rv, 4);
        assert(two_pair7(rv) is None);
    }
    None
}

fn is_one_pair(c: &Vec<Card>) -> (r: Option<OnePairRanks>)
    requires
        c@.len() == 7,
    ensures
        ({
            let t = one_pair7(rank_seq(c@));
            match r {
                Some(a) => t.is_some() && a@.map_values(|x: Rank| rank_val(x)) == t.unwrap(),
                None => t.is_none(),
            }
        }),
{
    let ghost rv = rank_seq(c@);
    proof {
        assert forall|i: int| 0 <= i < 7 implies rv[i] == rank_val(c@[i].0) by {}
    }
    let mut i: usize = 0;
    while i <= 5
        invariant
            c@.len() == 7,
            rv == rank_seq(c@),
            i <= 6,
            forall|k: int| 0 <= k < 7 ==> rv[k] == rank_val(c@[k].0),
            first_pair_from7(rv, 0) == first_pair_from7(rv, i as int),
        decreases 6 - i,
    {
        if crate::card::rank_value(c[i].0) == crate::card::rank_value(c[i + 1].0) {
            proof {
                assert(first_pair_from7(rv, i as int) == Some(i as int));
            }
            let (k1, k2, k3) = if i == 0 {
                (c[2].0, c[3].0, c[4].0)
            } else if i == 1 {
                (c[0].0, c[3].0, c[4].0)
            } else if i == 2 {
                (c[0].0, c[1].0, c[4].0)
            } else {
                (c[0].0, c[1].0, c[2].0)
            };
            let a = [c[i].0, k1, k2, k3];
            proof {
                assert(a@ =~= seq![c@[i as int].0, k1, k2, k3]);
                assert(seq![rank_val(k1), rank_val(k2), rank_val(k3)] =~= one_pair_kicks7(
                    rv,
                    i as int,
                ));
                assert(a@.map_values(|x: Rank| rank_val(x)) =~= one_pair7(rv).unwrap());
            }
            return Some(a);
        }
        proof {
            lemma_first_pair_step(rv, i as int);
        }
        i += 1;
    }
    proof {
        assert(first_pair_from7(rv, 6) is None);
        assert(one_pair7(rv) is None);
    }
    None
}

fn is_wheel(c: &Vec<Card>) -> (r: Option<Rank>)
    requires
        c@.len() == 7,
    ensures
        r.is_some() <==> has_wheel(c@),
        r.is_some() ==> r.unwrap() == Rank::Five,
{
    let mut ace = false;
    let mut two = false;
    let mut three = false;
    let mut four = false;
    let mut five = false;
    let mut j: usize = 0;
    while j < 7
        invariant
            c@.len() == 7,
            j <= 7,
            ace == has_val(c@.take(j as int), 14),
            two == has_val(c@.take(j as int), 2),
            three == has_val(c@.take(j as int), 3),
            four == has_val(c@.take(j as int), 4),
            five == has_val(c@.take(j as int), 5),
            !(ace && two && three && four && five),
        decreases 7 - j,
    {
        let v = crate::card::rank_value(c[j].0);
        proof {
            assert(c@.take(j + 1).drop_last() =~= c@.take(j as int));
            assert(c@.take(j + 1)[j as int] == c@[j as int]);
            assert forall|w: int| has_val(c@.take(j as int), w) implies has_val(
                c@.take(j + 1),
                w,
            ) by {
                let x = choose|x: int|
                    0 <= x < j && rank_val(c@.take(j as int)[x].0) == w;
                assert(rank_val(c@.take(j + 1)[x].0) == w);
            }
        }
        if v == 14 {
            ace = true;
        } else if v == 2 {
            two = true;
        } else if v == 3 {
            three = true;
        } else if v == 4 {
            four = true;
        } else if v == 5 {
            five = true;
        }
        proof {
            let ghost t = c@.take(j + 1);
            assert forall|w: int| has_val(t, w) implies (has_val(c@.take(j as int), w) || rank_val(
                c@[j as int].0,
            ) == w) by {
                let x = choose|x: int| #![trigger t[x]] 0 <= x < t.len() && rank_val(t[x].0) == w;
                if x < j {
                    assert(rank_val(c@.take(j as int)[x].0) == w);
                }
            }
        }
        j += 1;
        if ace && two && three && four && five {
            proof {
                assert(c@.take(7) =~= c@);
                assert forall|w: int| has_val(c@.take(j as int), w) implies has_val(c@, w) by {
                    let x = choose|x: int|
                        0 <= x < j && rank_val(c@.take(j as int)[x].0) == w;
                    assert(rank_val(c@[x].0) == w);
                }
            }
            return Some(Rank::Five);
        }
    }
    proof {
        assert(c@.take(7) =~= c@);
    }
    None
}

/// A card with value `v` and suit `su` stands strictly after position `i`.
pub open spec fn has_card_after(s: Seq<Card>, i: int, v: int, su: Suit) -> bool {
    exists|j: int| i < j < s.len() && rank_val(s[j].0) == v && s[j].1 == su
}

/// A card with value `v` stands strictly after position `i`.
pub open spec fn has_val_after(s: Seq<Card>, i: int, v: int) -> bool {
    exists|j: int| i < j < s.len() && rank_val(s[j].0) == v
}

spec fn has_card_in(s: Seq<Card>, i: int, j: int, v: int, su: Suit) -> bool {
    exists|x: int| i < x < j && 0 <= x < s.len() && rank_val(s[x].0) == v && s[x].1 == su
}

spec fn has_val_in(s: Seq<Card>, i: int, j: int, v: int) -> bool {
    exists|x: int| i < x < j && 0 <= x < s.len() && rank_val(s[x].0) == v
}

/// Walks the cards after position `i` looking for the four values `w1` to
/// `w4`, all in the suit of the card at `i`.
fn scan4_suited(c: &Vec<Card>, i: usize, w1: u8, w2: u8, w3: u8, w4: u8) -> (r: bool)
    requires
        c@.len() == 7,
        i < 7,
    ensures
        ({
            let su = c@[i as int].1;
            r == (has_card_after(c@, i as int, w1 as int, su) && has_card_after(
                c@,
                i as int,
                w2 as int,
                su,
            ) && has_card_after(c@, i as int, w3 as int, su) && has_card_after(
                c@,
                i as int,
                w4 as int,
                su,
            ))
        }),
{
    let su = c[i].1;
    let mut f1 = false;
    let mut f2 = false;
    let mut f3 = false;
    let mut f4 = false;
    let mut j: usize = i + 1;
    while j < 7
        invariant
            c@.len() == 7,
            i < 7,
            i < j <= 7,
            su == c@[i as int].1,
            f1 == has_card_in(c@, i as int, j as int, w1 as int, su),
            f2 == has_card_in(c@, i as int, j as int, w2 as int, su),
            f3 == has_card_in(c@, i as int, j as int, w3 as int, su),
            f4 == has_card_in(c@, i as int, j as int, w4 as int, su),
            !(f1 && f2 && f3 && f4),
        decreases 7 - j,
    {
        let v = crate::card::rank_value(c[j].0);
        let sj = c[j].1;
        if sj == su {
            if v == w1 {
                f1 = true;
            }
            if v == w2 {
                f2 = true;
            }
            if v == w3 {
                f3 = true;
            }
            if v == w4 {
                f4 = true;
            }
        }
        proof {
            assert forall|w: int| has_card_in(c@, i as int, j + 1, w, su) implies (has_card_in(
                c@,
                i as int,
                j as int,
                w,
                su,
            ) || (rank_val(c@[j as int].0) == w && c@[j as int].1 == su)) by {
                let x = choose|x: int|
                    i < x < j + 1 && 0 <= x < 7 && rank_val(c@[x].0) == w && #[trigger] c@[x].1
                        == su;
                if x < j {
                    assert(has_card_in(c@, i as int, j as int, w, su));
                }
            }
        }
        j += 1;
        if f1 && f2 && f3 && f4 {
            return true;
        }
    }
    false
}

/// Walks the cards after position `i` looking for the four values `w1` to
/// `w4`, in any suit.
fn scan4_vals(c: &Vec<Card>, i: usize, w1: u8, w2: u8, w3: u8, w4: u8) -> (r: bool)
    requires
        c@.len() == 7,
        i < 7,
    ensures
        r == (has_val_after(c@, i as int, w1 as int) && has_val_after(c@, i as int, w2 as int)
            && has_val_after(c@, i as int, w3 as int) && has_val_after(c@, i as int, w4 as int)),
{
    let mut f1 = false;
    let mut f2 = false;
    let mut f3 = false;
    let mut f4 = false;
    let mut j: usize = i + 1;
    while j < 7
        invariant
            c@.len() == 7,
            i < 7,
            i < j <= 7,
            f1 == has_val_in(c@, i as int, j as int, w1 as int),
            f2 == has_val_in(c@, i as int, j as int, w2 as int),
            f3 == has_val_in(c@, i as int, j as int, w3 as int),
            f4 == has_val_in(c@, i as int, j as int, w4 as int),
            !(f1 && f2 && f3 && f4),
        decreases 7 - j,
    {
        let v = crate::card::rank_value(c[j].0);
        if v == w1 {
            f1 = true;
        }
        if v == w2 {
            f2 = true;
        }
        if v == w3 {
            f3 = true;
        }
        if v == w4 {
            f4 = true;
        }
        proof {
            assert forall|w: int| has_val_in(c@, i as int, j + 1, w) implies (has_val_in(
                c@,
                i as int,
                j as int,
                w,
            ) || rank_val(c@[j as int].0) == w) by {
                let x = choose|x: int|
                    i < x < j + 1 && 0 <= x < 7 && #[trigger] rank_val(c@[x].0) == w;
                if x < j {
                    assert(has_val_in(c@, i as int, j as int, w));
                }
            }
        }
        j += 1;
        if f1 && f2 && f3 && f4 {
            return true;
        }
    }
    false
}

proof fn lemma_after_to_has_card(s: Seq<Card>, i: int, v: int, su: Suit)
    requires
        has_card_after(s, i, v, su),
        0 <= i,
    ensures
        has_card(s, v, su),
{
    let j = choose|j: int| i < j < s.len() && rank_val(s[j].0) == v && #[trigger] s[j].1 == su;
    assert(0 <= j < s.len() && rank_val(s[j].0) == v && s[j].1 == su);
}

proof fn lemma_after_to_has_val(s: Seq<Card>, i: int, v: int)
    requires
        has_val_after(s, i, v),
        0 <= i,
    ensures
        has_val(s, v),
{
    let j = choose|j: int| i < j < s.len() && #[trigger] rank_val(s[j].0) == v;
    assert(0 <= j < s.len() && rank_val(s[j].0) == v);
}

proof fn lemma_royal_witness(s: Seq<Card>, i: int)
    requires
        s.len() == 7,
        0 <= i < 7,
        rank_val(s[i].0) == 14,
        has_card_after(s, i, 13, s[i].1),
        has_card_after(s, i, 12, s[i].1),
        has_card_after(s, i, 11, s[i].1),
        has_card_after(s, i, 10, s[i].1),
    ensures
        has_royal(s),
{
    let su = s[i].1;
    assert(has_card(s, 14, su));
    lemma_after_to_has_card(s, i, 13, su);
    lemma_after_to_has_card(s, i, 12, su);
    lemma_after_to_has_card(s, i, 11, su);
    lemma_after_to_has_card(s, i, 10, su);
}

proof fn lemma_wheel_flush_witness(s: Seq<Card>, i: int)
    requires
        s.len() == 7,
        0 <= i < 7,
        rank_val(s[i].0) == 14,
        has_card_after(s, i, 5, s[i].1),
        has_card_after(s, i, 4, s[i].1),
        has_card_after(s, i, 3, s[i].1),
        has_card_after(s, i, 2, s[i].1),
    ensures
        has_wheel_flush(s),
{
    let su = s[i].1;
    assert(has_card(s, 14, su));
    lemma_after_to_has_card(s, i, 5, su);
    lemma_after_to_has_card(s, i, 4, su);
    lemma_after_to_has_card(s, i, 3, su);
    lemma_after_to_has_card(s, i, 2, su);
}

fn is_royal_flush(c: &Vec<Card>) -> (r: bool)
    requires
        c@.len() == 7,
        sorted_desc(rank_seq(c@)),
    ensures
        r == has_royal(c@),
{
    let ghost rv = rank_seq(c@);
    proof {
        assert forall|i: int| 0 <= i < 7 implies rv[i] == rank_val(c@[i].0) by {}
    }
    if crate::card::rank_value(c[0].0) == 14 && scan4_suited(c, 0, 13, 12, 11, 10) {
        proof {
            lemma_royal_witness(c@, 0);
        }
        return true;
    }
    if crate::card::rank_value(c[1].0) == 14 && scan4_suited(c, 1, 13, 12, 11, 10) {
        proof {
            lemma_royal_witness(c@, 1);
        }
        return true;
    }
    if crate::card::rank_value(c[2].0) == 14 && scan4_suited(c, 2, 13, 12, 11, 10) {
        proof {
            lemma_royal_witness(c@, 2);
        }
        return true;
    }
    proof {
        if has_royal(c@) {
            let su = choose|su: Suit|
                has_card(c@, 14, su) && has_card(c@, 13, su) && has_card(c@, 12, su) && has_card(
                    c@,
                    11,
                    su,
                ) && #[trigger] has_card(c@, 10, su);
            let a = choose|a: int| 0 <= a < 7 && rank_val(c@[a].0) == 14 && #[trigger] c@[a].1 == su;
            let jk = choose|j: int| 0 <= j < 7 && rank_val(c@[j].0) == 13 && #[trigger] c@[j].1 == su;
            let jq = choose|j: int| 0 <= j < 7 && rank_val(c@[j].0) == 12 && #[trigger] c@[j].1 == su;
            let jj = choose|j: int| 0 <= j < 7 && rank_val(c@[j].0) == 11 && #[trigger] c@[j].1 == su;
            let jt = choose|j: int| 0 <= j < 7 && rank_val(c@[j].0) == 10 && #[trigger] c@[j].1 == su;
            assert(rv[a] == 14 && rv[jk] == 13 && rv[jq] == 12 && rv[jj] == 11 && rv[jt] == 10);
            assert(jk > a) by {
                if jk <= a {
                    assert(rv[jk] >= rv[a]);
                }
            }
            assert(jq > a) by {
                if jq <= a {
                    assert(rv[jq] >= rv[a]);
                }
            }
            assert(jj > a) by {
                if jj <= a {
                    assert(rv[jj] >= rv[a]);
                }
            }
            assert(jt > a) by {
                if jt <= a {
                    assert(rv[jt] >= rv[a]);
                }
            }
            assert(a <= 2);
            assert(rv[a] == 14);
            assert(has_card_after(c@, a, 13, su));
            assert(has_card_after(c@, a, 12, su));
            assert(has_card_after(c@, a, 11, su));
            assert(has_card_after(c@, a, 10, su));
            assert(false);
        }
    }
    false
}

fn is_wheel_flush(c: &Vec<Card>) -> (r: Option<Rank>)
    requires
        c@.len() == 7,
        sorted_desc(rank_seq(c@)),
    ensures
        r.is_some() <==> has_wheel_flush(c@),
        r.is_some() ==> r.unwrap() == Rank::Five,
{
    let ghost rv = rank_seq(c@);
    proof {
        assert forall|i: int| 0 <= i < 7 implies rv[i] == rank_val(c@[i].0) by {}
    }
    if crate::card::rank_value(c[0].0) == 14 && scan4_suited(c, 0, 2, 3, 4, 5) {
        proof {
            lemma_wheel_flush_witness(c@, 0);
        }
        return Some(Rank::Five);
    }
    if crate::card::rank_value(c[1].0) == 14 && scan4_suited(c, 1, 2, 3, 4, 5) {
        proof {
            lemma_wheel_flush_witness(c@, 1);
        }
        return Some(Rank::Five);
    }
    if crate::card::rank_value(c[2].0) == 14 && scan4_suited(c, 2, 2, 3, 4, 5) {
        proof {
            lemma_wheel_flush_witness(c@, 2);
        }
        return Some(Rank::Five);
    }
    proof {
        if has_wheel_flush(c@) {
            let su = choose|su: Suit|
                has_card(c@, 14, su) && has_card(c@, 5, su) && has_card(c@, 4, su) && has_card(
                    c@,
                    3,
                    su,
                ) && #[trigger] has_card(c@, 2, su);
            let a = choose|a: int| 0 <= a < 7 && rank_val(c@[a].0) == 14 && #[trigger] c@[a].1 == su;
            let j5 = choose|j: int| 0 <= j < 7 && rank_val(c@[j].0) == 5 && #[trigger] c@[j].1 == su;
            let j4 = choose|j: int| 0 <= j < 7 && rank_val(c@[j].0) == 4 && #[trigger] c@[j].1 == su;
            let j3 = choose|j: int| 0 <= j < 7 && rank_val(c@[j].0) == 3 && #[trigger] c@[j].1 == su;
            let j2 = choose|j: int| 0 <= j < 7 && rank_val(c@[j].0) == 2 && #[trigger] c@[j].1 == su;
            assert(rv[a] == 14 && rv[j5] == 5 && rv[j4] == 4 && rv[j3] == 3 && rv[j2] == 2);
            assert(j5 > a) by {
                if j5 <= a {
                    assert(rv[j5] >= rv[a]);
                }
            }
            assert(j4 > a) by {
                if j4 <= a {
                    assert(rv[j4] >= rv[a]);
                }
            }
            assert(j3 > a) by {
                if j3 <= a {
                    assert(rv[j3] >= rv[a]);
                }
            }
            assert(j2 > a) by {
                if j2 <= a {
                    assert(rv[j2] >= rv[a]);
                }
            }
            assert(a <= 2);
            assert(rv[a] == 14);
            assert(has_card_after(c@, a, 5, su));
            assert(has_card_after(c@, a, 4, su));
            assert(has_card_after(c@, a, 3, su));
            assert(has_card_after(c@, a, 2, su));
            assert(false);
        }
    }
    None
}

/// Position `a` can anchor a straight-flush scan for high value `w`: it holds
/// a card of value `w` whose suit has the four next-lower values after it.
pub open spec fn sf_anchor_ok(s: Seq<Card>, a: int, w: int) -> bool {
    0 <= a <= 2 && rank_val(s[a].0) == w && w >= 6 && has_card_after(s, a, w - 1, s[a].1)
        && has_card_after(s, a, w - 2, s[a].1) && has_card_after(s, a, w - 3, s[a].1)
        && has_card_after(s, a, w - 4, s[a].1)
}

proof fn lemma_sf_run_anchor(s: Seq<Card>, w: int)
    requires
        s.len() == 7,
        sorted_desc(rank_seq(s)),
        has_sf_run(s, w),
    ensures
        exists|a: int| #[trigger] sf_anchor_ok(s, a, w),
{
    let rv = rank_seq(s);
    assert forall|i: int| 0 <= i < 7 implies rv[i] == rank_val(s[i].0) by {}
    let su = choose|su: Suit|
        has_card(s, w, su) && has_card(s, w - 1, su) && has_card(s, w - 2, su) && has_card(
            s,
            w - 3,
            su,
        ) && #[trigger] has_card(s, w - 4, su);
    let a = choose|a: int| 0 <= a < 7 && rank_val(s[a].0) == w && #[trigger] s[a].1 == su;
    let x1 = choose|j: int| 0 <= j < 7 && rank_val(s[j].0) == w - 1 && #[trigger] s[j].1 == su;
    let x2 = choose|j: int| 0 <= j < 7 && rank_val(s[j].0) == w - 2 && #[trigger] s[j].1 == su;
    let x3 = choose|j: int| 0 <= j < 7 && rank_val(s[j].0) == w - 3 && #[trigger] s[j].1 == su;
    let x4 = choose|j: int| 0 <= j < 7 && rank_val(s[j].0) == w - 4 && #[trigger] s[j].1 == su;
    assert(2 <= rank_val(s[x4].0));
    assert(w >= 6);
    assert(x1 > a) by {
        if x1 <= a {
            assert(rv[x1] >= rv[a]);
        }
    }
    assert(x2 > a) by {
        if x2 <= a {
            assert(rv[x2] >= rv[a]);
        }
    }
    assert(x3 > a) by {
        if x3 <= a {
            assert(rv[x3] >= rv[a]);
        }
    }
    assert(x4 > a) by {
        if x4 <= a {
            assert(rv[x4] >= rv[a]);
        }
    }
    assert(a <= 2);
    assert(sf_anchor_ok(s, a, w));
}

fn is_straight_flush(c: &Vec<Card>) -> (r: Option<Rank>)
    requires
        c@.len() == 7,
        sorted_desc(rank_seq(c@)),
    ensures
        match r {
            Some(rk) => ({
                let hi = rank_val(rk);
                (has_sf_run(c@, hi) && (forall|w: int| has_sf_run(c@, w) ==> w <= hi)) || (hi == 5
                    && has_wheel_flush(c@) && (forall|w: int| !has_sf_run(c@, w)))
            }),
            None => (forall|w: int| !has_sf_run(c@, w)) && !has_wheel_flush(c@),
        },
{
    let ghost rv = rank_seq(c@);
    proof {
        assert forall|i: int| 0 <= i < 7 implies rv[i] == rank_val(c@[i].0) by {}
    }
    let v0 = crate::card::rank_value(c[0].0);
    if v0 >= 6 && scan4_suited(c, 0, v0 - 1, v0 - 2, v0 - 3, v0 - 4) {
        proof {
            lemma_sf_witness(c@, 0);
            lemma_sf_best(c@, 0);
        }
        return Some(c[0].0);
    }
    let v1 = crate::card::rank_value(c[1].0);
    if v1 >= 6 && scan4_suited(c, 1, v1 - 1, v1 - 2, v1 - 3, v1 - 4) {
        proof {
            lemma_sf_witness(c@, 1);
            lemma_sf_best(c@, 1);
        }
        return Some(c[1].0);
    }
    let v2 = crate::card::rank_value(c[2].0);
    if v2 >= 6 && scan4_suited(c, 2, v2 - 1, v2 - 2, v2 - 3, v2 - 4) {
        proof {
            lemma_sf_witness(c@, 2);
            lemma_sf_best(c@, 2);
        }
        return Some(c[2].0);
    }
    proof {
        assert forall|w: int| !has_sf_run(c@, w) by {
            if has_sf_run(c@, w) {
                lemma_sf_run_anchor(c@, w);
                let a = choose|a: int| #[trigger] sf_anchor_ok(c@, a, w);
                assert(a == 0 || a == 1 || a == 2);
                assert(false);
            }
        }
    }
    is_wheel_flush(c)
}

/// A successful suited scan at anchor `i` exhibits a straight flush whose
/// high card is the anchor's rank.
proof fn lemma_sf_witness(s: Seq<Card>, i: int)
    requires
        s.len() == 7,
        0 <= i < 7,
        rank_val(s[i].0) >= 6,
        has_card_after(s, i, rank_val(s[i].0) - 1, s[i].1),
        has_card_after(s, i, rank_val(s[i].0) - 2, s[i].1),
        has_card_after(s, i, rank_val(s[i].0) - 3, s[i].1),
        has_card_after(s, i, rank_val(s[i].0) - 4, s[i].1),
    ensures
        has_sf_run(s, rank_val(s[i].0)),
{
    let w = rank_val(s[i].0);
    let su = s[i].1;
    assert(has_card(s, w, su));
    lemma_after_to_has_card(s, i, w - 1, su);
    lemma_after_to_has_card(s, i, w - 2, su);
    lemma_after_to_has_card(s, i, w - 3, su);
    lemma_after_to_has_card(s, i, w - 4, su);
}

/// When the scan succeeds at the earliest possible anchor, no straight flush
/// tops the anchor's rank.
proof fn lemma_sf_best(s: Seq<Card>, i: int)
    requires
        s.len() == 7,
        sorted_desc(rank_seq(s)),
        0 <= i < 7,
        forall|a: int|
            0 <= a < i ==> !(rank_val(s[a].0) >= 6 && has_card_after(
                s,
                a,
                rank_val(s[a].0) - 1,
                s[a].1,
            ) && has_card_after(s, a, rank_val(s[a].0) - 2, s[a].1) && has_card_after(
                s,
                a,
                rank_val(s[a].0) - 3,
                s[a].1,
            ) && has_card_after(s, a, rank_val(s[a].0) - 4, s[a].1)),
    ensures
        forall|w: int| has_sf_run(s, w) ==> w <= rank_val(s[i].0),
{
    let rv = rank_seq(s);
    assert forall|k: int| 0 <= k < 7 implies rv[k] == rank_val(s[k].0) by {}
    assert forall|w: int| has_sf_run(s, w) implies w <= rank_val(s[i].0) by {
        lemma_sf_run_anchor(s, w);
        let a = choose|a: int| #[trigger] sf_anchor_ok(s, a, w);
        assert(a >= i);
        assert(rv[a] <= rv[i]);
    }
}

/// Position `a` can anchor a straight scan for high value `w`: it holds a
/// card of value `w` with the four next-lower values after it.
pub open spec fn run_anchor_ok(s: Seq<Card>, a: int, w: int) -> bool {
    0 <= a <= 2 && rank_val(s[a].0) == w && w >= 6 && has_val_after(s, a, w - 1) && has_val_after(
        s,
        a,
        w - 2,
    ) && has_val_after(s, a, w - 3) && has_val_after(s, a, w - 4)
}

proof fn lemma_run_anchor(s: Seq<Card>, w: int)
    requires
        s.len() == 7,
        sorted_desc(rank_seq(s)),
        has_run(s, w),
    ensures
        exists|a: int| #[trigger] run_anchor_ok(s, a, w),
{
    let rv = rank_seq(s);
    assert forall|i: int| 0 <= i < 7 implies rv[i] == rank_val(s[i].0) by {}
    let x0 = choose|j: int| 0 <= j < 7 && #[trigger] rank_val(s[j].0) == w;
    let x1 = choose|j: int| 0 <= j < 7 && #[trigger] rank_val(s[j].0) == w - 1;
    let x2 = choose|j: int| 0 <= j < 7 && #[trigger] rank_val(s[j].0) == w - 2;
    let x3 = choose|j: int| 0 <= j < 7 && #[trigger] rank_val(s[j].0) == w - 3;
    let x4 = choose|j: int| 0 <= j < 7 && #[trigger] rank_val(s[j].0) == w - 4;
    assert(2 <= rank_val(s[x4].0));
    assert(w >= 6);
    let a = if x0 <= 2 {
        x0
    } else {
        // the three front cards cannot all top `w`: the five run values
        // already sit on five distinct positions at or below `w`
        assert(rv[2] >= rv[x0]) by {
            assert(2 <= x0);
        }
        assert(rv[2] == w) by {
            if rv[2] > w {
                assert(x0 >= 3 && x1 >= 3 && x2 >= 3 && x3 >= 3 && x4 >= 3) by {
                    assert(rv[0] >= rv[2] && rv[1] >= rv[2]);
                }
                assert(false);
            }
        }
        2int
    };
    assert(rank_val(s[a].0) == w);
    assert(has_val_after(s, a, w - 1)) by {
        assert(x1 > a) by {
            if x1 <= a {
                assert(rv[x1] >= rv[a]);
            }
        }
    }
    assert(has_val_after(s, a, w - 2)) by {
        assert(x2 > a) by {
            if x2 <= a {
                assert(rv[x2] >= rv[a]);
            }
        }
    }
    assert(has_val_after(s, a, w - 3)) by {
        assert(x3 > a) by {
            if x3 <= a {
                assert(rv[x3] >= rv[a]);
            }
        }
    }
    assert(has_val_after(s, a, w - 4)) by {
        assert(x4 > a) by {
            if x4 <= a {
                assert(rv[x4] >= rv[a]);
            }
        }
    }
    assert(run_anchor_ok(s, a, w));
}

/// A successful value scan at anchor `i` exhibits a straight whose high card
/// is the anchor's rank.
proof fn lemma_run_witness(s: Seq<Card>, i: int)
    requires
        s.len() == 7,
        0 <= i < 7,
        rank_val(s[i].0) >= 6,
        has_val_after(s, i, rank_val(s[i].0) - 1),
        has_val_after(s, i, rank_val(s[i].0) - 2),
        has_val_after(s, i, rank_val(s[i].0) - 3),
        has_val_after(s, i, rank_val(s[i].0) - 4),
    ensures
        has_run(s, rank_val(s[i].0)),
{
    let w = rank_val(s[i].0);
    assert(has_val(s, w));
    lemma_after_to_has_val(s, i, w - 1);
    lemma_after_to_has_val(s, i, w - 2);
    lemma_after_to_has_val(s, i, w - 3);
    lemma_after_to_has_val(s, i, w - 4);
}

/// When the value scan succeeds at the earliest possible anchor, no straight
/// tops the anchor's rank.
proof fn lemma_run_best(s: Seq<Card>, i: int)
    requires
        s.len() == 7,
        sorted_desc(rank_seq(s)),
        0 <= i < 7,
        forall|a: int|
            0 <= a < i ==> !(rank_val(s[a].0) >= 6 && has_val_after(s, a, rank_val(s[a].0) - 1)
                && has_val_after(s, a, rank_val(s[a].0) - 2) && has_val_after(
                s,
                a,
                rank_val(s[a].0) - 3,
            ) && has_val_after(s, a, rank_val(s[a].0) - 4)),
    ensures
        forall|w: int| has_run(s, w) ==> w <= rank_val(s[i].0),
{
    let rv = rank_seq(s);
    assert forall|k: int| 0 <= k < 7 implies rv[k] == rank_val(s[k].0) by {}
    assert forall|w: int| has_run(s, w) implies w <= rank_val(s[i].0) by {
        lemma_run_anchor(s, w);
        let a = choose|a: int| #[trigger] run_anchor_ok(s, a, w);
        assert(a >= i);
        assert(rv[a] <= rv[i]);
    }
}

fn is_straight(c: &Vec<Card>) -> (r: Option<Rank>)
    requires
        c@.len() == 7,
        sorted_desc(rank_seq(c@)),
    ensures
        match r {
            Some(rk) => ({
                let hi = rank_val(rk);
                (has_run(c@, hi) && (forall|w: int| has_run(c@, w) ==> w <= hi)) || (hi == 5
                    && has_wheel(c@) && (forall|w: int| !has_run(c@, w)))
            }),
            None => (forall|w: int| !has_run(c@, w)) && !has_wheel(c@),
        },
{
    let ghost rv = rank_seq(c@);
    proof {
        assert forall|i: int| 0 <= i < 7 implies rv[i] == rank_val(c@[i].0) by {}
    }
    let v0 = crate::card::rank_value(c[0].0);
    if v0 >= 6 && scan4_vals(c, 0, v0 - 1, v0 - 2, v0 - 3, v0 - 4) {
        proof {
            lemma_run_witness(c@, 0);
            lemma_run_best(c@, 0);
        }
        return Some(c[0].0);
    }
    let v1 = crate::card::rank_value(c[1].0);
    if v1 >= 6 && scan4_vals(c, 1, v1 - 1, v1 - 2, v1 - 3, v1 - 4) {
        proof {
            lemma_run_witness(c@, 1);
            lemma_run_best(c@, 1);
        }
        return Some(c[1].0);
    }
    let v2 = crate::card::rank_value(c[2].0);
    if v2 >= 6 && scan4_vals(c, 2, v2 - 1, v2 - 2, v2 - 3, v2 - 4) {
        proof {
            lemma_run_witness(c@, 2);
            lemma_run_best(c@, 2);
        }
        return Some(c[2].0);
    }
    proof {
        assert forall|w: int| !has_run(c@, w) by {
            if has_run(c@, w) {
                lemma_run_anchor(c@, w);
                let a = choose|a: int| #[trigger] run_anchor_ok(c@, a, w);
                assert(a == 0 || a == 1 || a == 2);
                assert(false);
            }
        }
    }
    is_wheel(c)
}

proof fn lemma_suit_split(s: Seq<Card>, su: Suit, k: int)
    requires
        0 <= k <= s.len(),
    ensures
        count_suit(s, su) == count_suit(s.take(k), su) + count_suit(s.skip(k), su),
        ranks_of_suit(s, su) == ranks_of_suit(s.take(k), su) + ranks_of_suit(s.skip(k), su),
    decreases s.len(),
{
    if s.len() == 0 {
        assert(s.take(k) =~= s);
        assert(s.skip(k) =~= s);
        assert(ranks_of_suit(s, su) =~= ranks_of_suit(s.take(k), su) + ranks_of_suit(
            s.skip(k),
            su,
        ));
    } else if k == s.len() {
        assert(s.take(k) =~= s);
        assert(s.skip(k) =~= Seq::<Card>::empty());
        assert(count_suit(s.skip(k), su) == 0);
        assert(ranks_of_suit(s, su) =~= ranks_of_suit(s.take(k), su) + ranks_of_suit(
            s.skip(k),
            su,
        ));
    } else {
        let d = s.drop_last();
        lemma_suit_split(d, su, k);
        assert(s.take(k) =~= d.take(k));
        assert(s.skip(k).drop_last() =~= d.skip(k));
        assert(s.skip(k).last() == s.last());
        assert(s.skip(k).len() > 0);
        assert(count_suit(s.skip(k), su) == count_suit(d.skip(k), su) + if s.last().1 == su {
            1int
        } else {
            0int
        });
        assert(ranks_of_suit(s.skip(k), su) == ranks_of_suit(d.skip(k), su) + if s.last().1
            == su {
            seq![rank_val(s.last().0)]
        } else {
            Seq::<int>::empty()
        });
        assert(ranks_of_suit(s, su) =~= ranks_of_suit(s.take(k), su) + ranks_of_suit(
            s.skip(k),
            su,
        ));
    }
}

proof fn lemma_count_le_len(s: Seq<Card>, su: Suit)
    ensures
        0 <= count_suit(s, su) <= s.len(),
        ranks_of_suit(s, su).len() == count_suit(s, su),
    decreases s.len(),
{
    if s.len() > 0 {
        lemma_count_le_len(s.drop_last(), su);
    }
}

proof fn lemma_no_suit_prefix(s: Seq<Card>, su: Suit)
    requires
        forall|i: int| 0 <= i < s.len() ==> s[i].1 != su,
    ensures
        count_suit(s, su) == 0,
        ranks_of_suit(s, su) == Seq::<int>::empty(),
    decreases s.len(),
{
    if s.len() > 0 {
        lemma_no_suit_prefix(s.drop_last(), su);
        assert(ranks_of_suit(s, su) =~= Seq::<int>::empty());
    }
}

/// Collects the ranks of the cards after position `i` (that one included)
/// that share its suit, stopping as soon as five are found.
fn flush_scan(c: &Vec<Card>, i: usize) -> (r: Option<FlushRanks>)
    requires
        c@.len() == 7,
        i < 7,
    ensures
        ({
            let su = c@[i as int].1;
            match r {
                Some(a) => count_suit(c@.skip(i as int), su) >= 5 && a@.map_values(
                    |x: Rank| rank_val(x),
                ) == ranks_of_suit(c@.skip(i as int), su).take(5),
                None => count_suit(c@.skip(i as int), su) < 5,
            }
        }),
{
    let su = c[i].1;
    let mut col: Vec<Rank> = Vec::new();
    let mut j: usize = i;
    proof {
        assert(c@.subrange(i as int, i as int) =~= Seq::<Card>::empty());
        assert(col@.map_values(|x: Rank| rank_val(x)) =~= ranks_of_suit(
            c@.subrange(i as int, i as int),
            su,
        ));
    }
    while j < 7
        invariant
            c@.len() == 7,
            i < 7,
            i <= j <= 7,
            su == c@[i as int].1,
            col@.map_values(|x: Rank| rank_val(x)) == ranks_of_suit(
                c@.subrange(i as int, j as int),
                su,
            ),
            col@.len() < 5,
        decreases 7 - j,
    {
        let ghost old_col = col@;
        proof {
            assert(c@.subrange(i as int, j + 1).drop_last() =~= c@.subrange(i as int, j as int));
            assert(c@.subrange(i as int, j + 1).last() == c@[j as int]);
        }
        if c[j].1 == su {
            col.push(c[j].0);
            proof {
                assert(col@.map_values(|x: Rank| rank_val(x)) =~= old_col.map_values(
                    |x: Rank| rank_val(x),
                ).push(rank_val(c@[j as int].0)));
                assert(col@.map_values(|x: Rank| rank_val(x)) =~= ranks_of_suit(
                    c@.subrange(i as int, j + 1),
                    su,
                ));
            }
            if col.len() == 5 {
                let a = [col[0], col[1], col[2], col[3], col[4]];
                proof {
                    let sub = c@.subrange(i as int, j + 1);
                    let rest = c@.subrange(j + 1, 7);
                    lemma_suit_split(c@.skip(i as int), su, j + 1 - i);
                    assert(c@.skip(i as int).take(j + 1 - i) =~= sub);
                    assert(c@.skip(i as int).skip(j + 1 - i) =~= rest);
                    lemma_count_le_len(sub, su);
                    lemma_count_le_len(rest, su);
                    assert(count_suit(sub, su) == 5);
                    assert(count_suit(c@.skip(i as int), su) >= 5);
                    assert(a@ =~= col@);
                    assert(ranks_of_suit(c@.skip(i as int), su) == ranks_of_suit(sub, su)
                        + ranks_of_suit(rest, su));
                    assert(ranks_of_suit(c@.skip(i as int), su).take(5) =~= ranks_of_suit(
                        sub,
                        su,
                    ));
                }
                return Some(a);
            }
        }
        j += 1;
    }
    proof {
        assert(c@.subrange(i as int, 7) =~= c@.skip(i as int));
        lemma_count_le_len(c@.skip(i as int), su);
    }
    None
}

fn is_flush(c: &Vec<Card>) -> (r: Option<FlushRanks>)
    requires
        c@.len() == 7,
    ensures
        match r {
            Some(a) => exists|su: Suit|
                count_suit(c@, su) >= 5 && a@.map_values(|x: Rank| rank_val(x)) == ranks_of_suit(
                    c@,
                    su,
                ).take(5),
            None => forall|su: Suit| count_suit(c@, su) < 5,
        },
{
    let r0 = flush_scan(c, 0);
    if let Some(a) = r0 {
        proof {
            let su = c@[0].1;
            assert(c@.skip(0) =~= c@);
            assert(count_suit(c@, su) >= 5 && a@.map_values(|x: Rank| rank_val(x))
                == ranks_of_suit(c@, su).take(5));
        }
        return Some(a);
    }
    let r1 = flush_scan(c, 1);
    if let Some(a) = r1 {
        proof {
            let su = c@[1].1;
            assert(c@.skip(0) =~= c@);
            assert(c@[0].1 != su) by {
                if c@[0].1 == su {
                    lemma_suit_split(c@, su, 1);
                    lemma_count_le_len(c@.take(1), su);
                    assert(count_suit(c@, su) >= 5);
                }
            }
            lemma_step_down(c@, su, 0);
            assert(count_suit(c@, su) >= 5 && a@.map_values(|x: Rank| rank_val(x))
                == ranks_of_suit(c@, su).take(5));
        }
        return Some(a);
    }
    let r2 = flush_scan(c, 2);
    if let Some(a) = r2 {
        proof {
            let su = c@[2].1;
            assert(c@.skip(0) =~= c@);
            assert(count_suit(c@.skip(2), su) >= 5);
            assert(c@[0].1 != su) by {
                if c@[0].1 == su {
                    lemma_suit_split(c@, su, 2);
                    lemma_count_le_len(c@.take(2), su);
                    assert(count_suit(c@, su) >= 5);
                }
            }
            assert(c@[1].1 != su) by {
                if c@[1].1 == su {
                    lemma_suit_split(c@.skip(1), su, 1);
                    assert(c@.skip(1).skip(1) =~= c@.skip(2));
                    lemma_count_le_len(c@.skip(1).take(1), su);
                    assert(count_suit(c@.skip(1), su) >= 5);
                }
            }
            lemma_step_down(c@, su, 0);
            assert(c@.skip(1).skip(1) =~= c@.skip(2));
            lemma_step_down(c@, su, 1);
            assert(count_suit(c@, su) >= 5 && a@.map_values(|x: Rank| rank_val(x))
                == ranks_of_suit(c@, su).take(5));
        }
        return Some(a);
    }
    proof {
        assert forall|su: Suit| count_suit(c@, su) < 5 by {
            if count_suit(c@, su) >= 5 {
                assert(c@.skip(0) =~= c@);
                assert(c@[0].1 != su);
                lemma_step_down(c@, su, 0);
                assert(count_suit(c@.skip(1), su) >= 5);
                assert(c@[1].1 != su);
                lemma_step_down(c@, su, 1);
                assert(count_suit(c@.skip(2), su) >= 5);
                assert(c@[2].1 != su);
                lemma_step_down(c@, su, 2);
                assert(count_suit(c@.skip(3), su) >= 5);
                lemma_count_le_len(c@.skip(3), su);
                assert(false);
            }
        }
    }
    None
}

/// Dropping a front card of another suit changes neither the count nor the
/// collected ranks of suit `su`.
proof fn lemma_step_down(s: Seq<Card>, su: Suit, k: int)
    requires
        0 <= k < s.len(),
        forall|i: int| 0 <= i <= k ==> s[i].1 != su,
    ensures
        count_suit(s.skip(k + 1), su) == count_suit(s, su),
        ranks_of_suit(s.skip(k + 1), su) == ranks_of_suit(s, su),
{
    lemma_suit_split(s, su, k + 1);
    lemma_no_suit_prefix(s.take(k + 1), su);
    assert(ranks_of_suit(s, su) =~= ranks_of_suit(s.skip(k + 1), su));
}

/// The seven-card evaluator's contract, stated over a sorted working copy
/// `s` of the given cards: same cards, ranks in descending order, and the
/// hand classifies `s` as [`eval7_correct`] demands.
pub open spec fn eval7_post(h: Hand, given: Seq<Card>, s: Seq<Card>) -> bool {
    s.to_multiset() == given.to_multiset() && rank_seq(s) == sorted_ranks(given) && eval7_correct(
        h,
        s,
    )
}

/// Evaluates exactly seven cards into the strongest five-card hand they can
/// form, by sorted single-pass scans per category, strongest first.
pub fn best_hand(cards: [Card; 7]) -> (h: Hand)
    ensures
        exists|s: Seq<Card>| #[trigger] eval7_post(h, cards@, s),
{
    let mut given: Vec<Card> = Vec::new();
    let mut i: usize = 0;
    while i < 7
        invariant
            i <= 7,
            given@ =~= cards@.take(i as int),
        decreases 7 - i,
    {
        given.push(cards[i]);
        i += 1;
    }
    proof {
        assert(given@ =~= cards@);
    }
    let c = sort_by_rank_desc(&given);
    let ghost rv = rank_seq(c@);
    proof {
        crate::card::lemma_sorted_ranks_ensures(cards@);
        assert(sorted_desc(rv));
        assert(rv.len() == 7);
        assert forall|k: int| 0 <= k < 7 implies rv[k] == rank_val(c@[k].0) by {}
    }

    if is_royal_flush(&c) {
        proof {
            assert(eval7_post(Hand::RoyalFlush, cards@, c@));
        }
        return Hand::RoyalFlush;
    }
    if let Some(rk) = is_straight_flush(&c) {
        let h = Hand::StraightFlush(rk);
        proof {
            assert(tie_vals(h) =~= seq![rank_val(rk)]);
            assert(eval7_post(h, cards@, c@));
        }
        return h;
    }
    if let Some(a) = is_four_of_a_kind(&c) {
        let h = Hand::FourOfAKind(a);
        proof {
            assert(tie_vals(h) =~= a@.map_values(|x: Rank| rank_val(x)));
            assert(eval7_post(h, cards@, c@));
        }
        return h;
    }
    if let Some(a) = is_full_house(&c) {
        let h = Hand::FullHouse(a);
        proof {
            assert(tie_vals(h) =~= a@.map_values(|x: Rank| rank_val(x)));
            assert(eval7_post(h, cards@, c@));
        }
        return h;
    }
    if let Some(a) = is_flush(&c) {
        let h = Hand::Flush(a);
        proof {
            assert(tie_vals(h) =~= a@.map_values(|x: Rank| rank_val(x)));
            assert(eval7_post(h, cards@, c@));
        }
        return h;
    }
    if let Some(rk) = is_straight(&c) {
        let h = Hand::Straight(rk);
        proof {
            assert(tie_vals(h) =~= seq![rank_val(rk)]);
            assert(eval7_post(h, cards@, c@));
        }
        return h;
    }
    if let Some(a) = is_three_of_a_kind(&c) {
        let h = Hand::ThreeOfAKind(a);
        proof {
            assert(tie_vals(h) =~= a@.map_values(|x: Rank| rank_val(x)));
            assert(eval7_post(h, cards@, c@));
        }
        return h;
    }
    if let Some(a) = is_two_pair(&c) {
        let h = Hand::TwoPair(a);
        proof {
            assert(tie_vals(h) =~= a@.map_values(|x: Rank| rank_val(x)));
            assert(eval7_post(h, cards@, c@));
        }
        return h;
    }
    if let Some(a) = is_one_pair(&c) {
        let h = Hand::OnePair(a);
        proof {
            assert(tie_vals(h) =~= a@.map_values(|x: Rank| rank_val(x)));
            assert(eval7_post(h, cards@, c@));
        }
        return h;
    }
    let a = [c[0].0, c[1].0, c[2].0, c[3].0, c[4].0];
    let h = Hand::HighCard(a);
    proof {
        assert(a@ =~= seq![c@[0].0, c@[1].0, c@[2].0, c@[3].0, c@[4].0]);
        assert(tie_vals(h) =~= rv.take(5));
        assert(eval7_post(h, cards@, c@));
    }
    h
}

} // verus!
