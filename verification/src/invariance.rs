//! The rank of a five-card hand does not depend on the order of its cards.

use crate::card::{lemma_rank_value_roundtrip, lemma_same_value_same_rank, lemma_value_rank_roundtrip, Card, Rank, Suit};
use crate::evaluator::{
    five_card_rank, has_count, has_two_pairs, highest_rank, highest_with_count, is_flush,
    is_highest_rank, is_highest_with_count, is_lowest_with_count, is_straight,
    lemma_extremes_exist, lemma_highest_rank_unique, lemma_highest_with_count_unique,
    lemma_lowest_with_count_unique, lemma_occurrences_contains, lowest_with_count, occurrences,
    ranks_of, straight_top, values_of,
};
use crate::straight::{is_run_from, is_sequence_spec, is_wheel};
use vstd::multiset::Multiset;
use vstd::prelude::*;

verus! {

/// How many cards of rank `r` a multiset of cards holds, over all four suits.
pub open spec fn rank_multiplicity(m: Multiset<Card>, r: Rank) -> nat {
    m.count(Card { rank: r, suit: Suit::Clubs }) + m.count(Card { rank: r, suit: Suit::Diamonds })
        + m.count(Card { rank: r, suit: Suit::Hearts }) + m.count(
        Card { rank: r, suit: Suit::Spades },
    )
}

/// The number of times a rank occurs in a hand depends only on the hand as a
/// multiset.
pub proof fn lemma_occurrences_multiset(s: Seq<Card>, r: Rank)
    ensures
        occurrences(ranks_of(s), r) == rank_multiplicity(s.to_multiset(), r),
    decreases s.len(),
{
    broadcast use vstd::multiset::group_multiset_axioms;

    s.to_multiset_ensures();
    if s.len() == 0 {
        assert(!s.contains(Card { rank: r, suit: Suit::Clubs }));
        assert(!s.contains(Card { rank: r, suit: Suit::Diamonds }));
        assert(!s.contains(Card { rank: r, suit: Suit::Hearts }));
        assert(!s.contains(Card { rank: r, suit: Suit::Spades }));
    } else {
        let p = s.drop_last();
        let c = s.last();
        lemma_occurrences_multiset(p, r);
        p.to_multiset_ensures();
        assert(s == p.push(c));
        assert(s.to_multiset() =~= p.to_multiset().insert(c));
        assert(ranks_of(s).drop_last() == ranks_of(p));
        assert(ranks_of(s).last() == c.rank);
        if c.rank == r {
            assert(c == Card { rank: r, suit: c.suit });
        }
    }
}

/// A value occurs among the values of a hand's ranks exactly when a rank of
/// that value occurs in the hand.
pub proof fn lemma_values_contains(ranks: Seq<Rank>, v: u8)
    ensures
        values_of(ranks).contains(v) <==> exists|r: Rank|
            occurrences(ranks, r) > 0 && r.spec_value() == v,
{
    if values_of(ranks).contains(v) {
        let i = choose|i: int| 0 <= i < values_of(ranks).len() && values_of(ranks)[i] == v;
        let r = ranks[i];
        lemma_rank_value_roundtrip(r);
        assert(ranks.contains(r));
        lemma_occurrences_contains(ranks, r);
        assert(occurrences(ranks, r) > 0 && r.spec_value() == v);
    }
    if exists|r: Rank| occurrences(ranks, r) > 0 && r.spec_value() == v {
        let r = choose|r: Rank| occurrences(ranks, r) > 0 && r.spec_value() == v;
        lemma_occurrences_contains(ranks, r);
        let i = choose|i: int| 0 <= i < ranks.len() && ranks[i] == r;
        assert(values_of(ranks)[i] == v);
    }
}

/// In a hand where some rank occurs, a highest rank exists.
pub proof fn lemma_highest_rank_exists(ranks: Seq<Rank>)
    requires
        exists|r: Rank| occurrences(ranks, r) > 0,
    ensures
        is_highest_rank(ranks, highest_rank(ranks)),
{
    let w = choose|r: Rank| occurrences(ranks, r) > 0;
    lemma_rank_value_roundtrip(w);
    lemma_highest_present_below(ranks, 14);
}

proof fn lemma_highest_present_below(ranks: Seq<Rank>, top: int)
    requires
        1 <= top <= 14,
        forall|q: Rank| q.spec_value() > top ==> occurrences(ranks, q) == 0,
    ensures
        (forall|q: Rank| occurrences(ranks, q) == 0) || exists|r: Rank| is_highest_rank(ranks, r),
    decreases top,
{
    if top >= 2 {
        let r = Rank::spec_from_value(top);
        lemma_value_rank_roundtrip(top);
        if occurrences(ranks, r) > 0 {
            assert(is_highest_rank(ranks, r));
        } else {
            assert forall|q: Rank| q.spec_value() > top - 1 implies occurrences(ranks, q)
                == 0 by {
                if q.spec_value() == top {
                    lemma_same_value_same_rank(q, r);
                }
            }
            lemma_highest_present_below(ranks, top - 1);
        }
    } else {
        assert forall|q: Rank| occurrences(ranks, q) == 0 by {
            lemma_rank_value_roundtrip(q);
        }
    }
}

/// Two hands in which every rank occurs equally often agree on everything the
/// ranking reads from the ranks.
pub proof fn lemma_rank_parts_agree(ra: Seq<Rank>, rb: Seq<Rank>)
    requires
        forall|r: Rank| occurrences(ra, r) == occurrences(rb, r),
    ensures
        forall|n: nat| has_count(ra, n) == has_count(rb, n),
        forall|n: nat|
            has_count(ra, n) ==> highest_with_count(ra, n) == highest_with_count(rb, n)
                && lowest_with_count(ra, n) == lowest_with_count(rb, n),
        has_two_pairs(ra) == has_two_pairs(rb),
        (exists|r: Rank| occurrences(ra, r) > 0) ==> highest_rank(ra) == highest_rank(rb)
            && straight_top(ra) == straight_top(rb),
        is_straight(ra) == is_straight(rb),
{
    assert forall|n: nat| has_count(ra, n) == has_count(rb, n) by {
        if has_count(ra, n) {
            let r = choose|r: Rank| occurrences(ra, r) == n;
            assert(occurrences(rb, r) == n);
        }
        if has_count(rb, n) {
            let r = choose|r: Rank| occurrences(rb, r) == n;
            assert(occurrences(ra, r) == n);
        }
    }
    assert forall|n: nat| has_count(ra, n) implies highest_with_count(ra, n)
        == highest_with_count(rb, n) && lowest_with_count(ra, n) == lowest_with_count(rb, n) by {
        lemma_extremes_exist(ra, n);
        let h = highest_with_count(ra, n);
        let l = lowest_with_count(ra, n);
        assert(is_highest_with_count(rb, n, h));
        assert(is_lowest_with_count(rb, n, l));
        lemma_highest_with_count_unique(rb, n, h);
        lemma_lowest_with_count_unique(rb, n, l);
    }
    if has_two_pairs(ra) {
        let (x, y) = choose|x: Rank, y: Rank|
            x != y && occurrences(ra, x) == 2 && occurrences(ra, y) == 2;
        assert(x != y && occurrences(rb, x) == 2 && occurrences(rb, y) == 2);
    }
    if has_two_pairs(rb) {
        let (x, y) = choose|x: Rank, y: Rank|
            x != y && occurrences(rb, x) == 2 && occurrences(rb, y) == 2;
        assert(x != y && occurrences(ra, x) == 2 && occurrences(ra, y) == 2);
    }
    if exists|r: Rank| occurrences(ra, r) > 0 {
        lemma_highest_rank_exists(ra);
        let h = highest_rank(ra);
        assert(is_highest_rank(rb, h));
        lemma_highest_rank_unique(rb, h);
    }
    let va = values_of(ra);
    let vb = values_of(rb);
    assert forall|v: u8| va.contains(v) == vb.contains(v) by {
        lemma_values_contains(ra, v);
        lemma_values_contains(rb, v);
        if va.contains(v) {
            let r = choose|r: Rank| occurrences(ra, r) > 0 && r.spec_value() == v;
            assert(occurrences(rb, r) > 0 && r.spec_value() == v);
        }
        if vb.contains(v) {
            let r = choose|r: Rank| occurrences(rb, r) > 0 && r.spec_value() == v;
            assert(occurrences(ra, r) > 0 && r.spec_value() == v);
        }
    }
    assert(is_wheel(va) == is_wheel(vb));
    assert forall|lo: u8| is_run_from(va, lo) == is_run_from(vb, lo) by {}
    assert(is_sequence_spec(va) == is_sequence_spec(vb)) by {
        if exists|lo: u8| is_run_from(va, lo) {
            let lo = choose|lo: u8| is_run_from(va, lo);
            assert(is_run_from(vb, lo));
        }
        if exists|lo: u8| is_run_from(vb, lo) {
            let lo = choose|lo: u8| is_run_from(vb, lo);
            assert(is_run_from(va, lo));
        }
    }
}

/// Whether a hand is a flush depends only on the hand as a multiset.
pub proof fn lemma_flush_permutation(a: Seq<Card>, b: Seq<Card>)
    requires
        a.to_multiset() == b.to_multiset(),
        is_flush(a),
    ensures
        is_flush(b),
{
    a.to_multiset_ensures();
    b.to_multiset_ensures();
    assert forall|j: int| 0 <= j < b.len() implies (#[trigger] b[j]).suit == b[0].suit by {
        assert(b.contains(b[j]));
        assert(b.contains(b[0]));
        assert(b.to_multiset().count(b[j]) > 0);
        assert(b.to_multiset().count(b[0]) > 0);
        assert(a.to_multiset().count(b[j]) > 0);
        assert(a.to_multiset().count(b[0]) > 0);
        assert(a.contains(b[j]));
        assert(a.contains(b[0]));
    }
}

/// The rank of a hand is the same for every ordering of its cards: two
/// sequences that hold the same cards the same number of times rank alike.
pub proof fn lemma_five_card_rank_permutation(a: Seq<Card>, b: Seq<Card>)
    requires
        a.to_multiset() == b.to_multiset(),
    ensures
        five_card_rank(a) == five_card_rank(b),
{
    let ra = ranks_of(a);
    let rb = ranks_of(b);
    a.to_multiset_ensures();
    b.to_multiset_ensures();
    assert forall|r: Rank| occurrences(ra, r) == occurrences(rb, r) by {
        lemma_occurrences_multiset(a, r);
        lemma_occurrences_multiset(b, r);
    }
    lemma_rank_parts_agree(ra, rb);
    if is_flush(a) {
        lemma_flush_permutation(a, b);
    }
    if is_flush(b) {
        lemma_flush_permutation(b, a);
    }
    if a.len() == 0 {
        assert(ra =~= rb);
        assert(a =~= b);
    } else {
        assert(ra.contains(ra[0]));
        lemma_occurrences_contains(ra, ra[0]);
        assert(occurrences(ra, ra[0]) > 0);
        if has_two_pairs(ra) {
            let (x, y) = choose|x: Rank, y: Rank|
                x != y && occurrences(ra, x) == 2 && occurrences(ra, y) == 2;
            assert(occurrences(ra, x) == 2);
            assert(has_count(ra, 2));
        }
        assert(has_count(ra, 4) == has_count(rb, 4));
        assert(has_count(ra, 3) == has_count(rb, 3));
        assert(has_count(ra, 2) == has_count(rb, 2));
    }
}

} // verus!
