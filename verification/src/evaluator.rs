//! Ranking a five-card hand.

use crate::card::{lemma_same_value_same_rank, Card, Rank};
use crate::combinations::{
    card_combinations, combinations_of, increasing_indices, is_combination,
    lemma_combinations_complete, lemma_combinations_sound, lemma_increasing_lower_bound, select,
};
use crate::hand_rank::{lemma_high_card_two_is_bottom, HandRank};
use crate::straight::{is_sequence, is_sequence_spec};
use vstd::prelude::*;

verus! {

/// The ranks of the cards, in the order of the cards.
pub open spec fn ranks_of(cards: Seq<Card>) -> Seq<Rank> {
    cards.map_values(|c: Card| c.rank)
}

/// The numeric values of the ranks, in the same order.
pub open spec fn values_of(ranks: Seq<Rank>) -> Seq<u8> {
    ranks.map_values(|r: Rank| r.spec_value() as u8)
}

/// How many times `r` occurs among `ranks`.
pub open spec fn occurrences(ranks: Seq<Rank>, r: Rank) -> nat
    decreases ranks.len(),
{
    if ranks.len() == 0 {
        0
    } else {
        occurrences(ranks.drop_last(), r) + if ranks.last() == r {
            1nat
        } else {
            0nat
        }
    }
}

/// Some rank occurs exactly `n` times.
pub open spec fn has_count(ranks: Seq<Rank>, n: nat) -> bool {
    exists|r: Rank| occurrences(ranks, r) == n
}

/// `r` occurs exactly `n` times, and no higher rank does.
pub open spec fn is_highest_with_count(ranks: Seq<Rank>, n: nat, r: Rank) -> bool {
    &&& occurrences(ranks, r) == n
    &&& forall|q: Rank| occurrences(ranks, q) == n ==> q.spec_value() <= r.spec_value()
}

/// `r` occurs exactly `n` times, and no lower rank does.
pub open spec fn is_lowest_with_count(ranks: Seq<Rank>, n: nat, r: Rank) -> bool {
    &&& occurrences(ranks, r) == n
    &&& forall|q: Rank| occurrences(ranks, q) == n ==> r.spec_value() <= q.spec_value()
}

/// `r` occurs, and no higher rank does.
pub open spec fn is_highest_rank(ranks: Seq<Rank>, r: Rank) -> bool {
    &&& occurrences(ranks, r) > 0
    &&& forall|q: Rank| occurrences(ranks, q) > 0 ==> q.spec_value() <= r.spec_value()
}

/// The highest rank that occurs exactly `n` times (meaningful when one does).
pub open spec fn highest_with_count(ranks: Seq<Rank>, n: nat) -> Rank {
    choose|r: Rank| is_highest_with_count(ranks, n, r)
}

/// The lowest rank that occurs exactly `n` times (meaningful when one does).
pub open spec fn lowest_with_count(ranks: Seq<Rank>, n: nat) -> Rank {
    choose|r: Rank| is_lowest_with_count(ranks, n, r)
}

/// The highest rank that occurs (meaningful for a non-empty hand).
pub open spec fn highest_rank(ranks: Seq<Rank>) -> Rank {
    choose|r: Rank| is_highest_rank(ranks, r)
}

/// All cards share one suit.
pub open spec fn is_flush(cards: Seq<Card>) -> bool {
    forall|i: int| 0 <= i < cards.len() ==> (#[trigger] cards[i]).suit == cards[0].suit
}

/// The distinct ranks are five consecutive ones, or the wheel.
pub open spec fn is_straight(ranks: Seq<Rank>) -> bool {
    is_sequence_spec(values_of(ranks))
}

/// Two different ranks each occur exactly twice. Five cards cannot hold a
/// third such rank (`lemma_at_most_two_pairs`).
pub open spec fn has_two_pairs(ranks: Seq<Rank>) -> bool {
    exists|a: Rank, b: Rank| a != b && occurrences(ranks, a) == 2 && occurrences(ranks, b) == 2
}

/// The rank a straight runs up to: five for the wheel, where the ace plays
/// low, and the highest rank otherwise.
pub open spec fn straight_top(ranks: Seq<Rank>) -> Rank {
    if occurrences(ranks, Rank::Ace) > 0 && occurrences(ranks, Rank::Two) > 0 {
        Rank::Five
    } else {
        highest_rank(ranks)
    }
}

/// The strength of a five-card hand.
///
/// Categories are tried from the strongest down. The two ranks of a two-pair
/// hand are carried higher first.
pub open spec fn five_card_rank(cards: Seq<Card>) -> HandRank {
    let ranks = ranks_of(cards);
    if is_flush(cards) && is_straight(ranks) {
        if occurrences(ranks, Rank::Ace) > 0 && occurrences(ranks, Rank::King) > 0 {
            HandRank::RoyalFlush
        } else {
            HandRank::StraightFlush(straight_top(ranks))
        }
    } else if has_count(ranks, 4) {
        HandRank::FourOfAKind(highest_with_count(ranks, 4))
    } else if has_count(ranks, 3) && has_count(ranks, 2) {
        HandRank::FullHouse(highest_with_count(ranks, 3), highest_with_count(ranks, 2))
    } else if is_flush(cards) {
        HandRank::Flush(highest_rank(ranks))
    } else if is_straight(ranks) {
        HandRank::Straight(straight_top(ranks))
    } else if has_count(ranks, 3) {
        HandRank::ThreeOfAKind(highest_with_count(ranks, 3))
    } else if has_two_pairs(ranks) {
        HandRank::TwoPair(highest_with_count(ranks, 2), lowest_with_count(ranks, 2))
    } else if has_count(ranks, 2) {
        HandRank::OnePair(highest_with_count(ranks, 2))
    } else {
        HandRank::HighCard(highest_rank(ranks))
    }
}

/// A table of fifteen counts, indexed by rank value, holds for every rank the
/// number of times it occurs among `ranks`.
pub open spec fn counts_match(counts: Seq<u8>, ranks: Seq<Rank>) -> bool {
    &&& counts.len() == 15
    &&& forall|r: Rank| counts[r.spec_value()] == #[trigger] occurrences(ranks, r)
}

/// No rank occurs more often than there are ranks.
pub proof fn lemma_occurrences_bounded(ranks: Seq<Rank>, r: Rank)
    ensures
        occurrences(ranks, r) <= ranks.len(),
    decreases ranks.len(),
{
    if ranks.len() > 0 {
        lemma_occurrences_bounded(ranks.drop_last(), r);
    }
}

/// A rank occurs at least once exactly when it is an element.
pub proof fn lemma_occurrences_contains(ranks: Seq<Rank>, r: Rank)
    ensures
        occurrences(ranks, r) > 0 <==> ranks.contains(r),
    decreases ranks.len(),
{
    if ranks.len() > 0 {
        lemma_occurrences_contains(ranks.drop_last(), r);
        if ranks.contains(r) {
            let i = choose|i: int| 0 <= i < ranks.len() && ranks[i] == r;
            if i < ranks.len() - 1 {
                assert(ranks.drop_last()[i] == r);
            }
        }
        if ranks.drop_last().contains(r) {
            let i = choose|i: int| 0 <= i < ranks.drop_last().len() && ranks.drop_last()[i] == r;
            assert(ranks[i] == r);
        }
    }
}

/// Only one rank is the highest with a given count.
pub proof fn lemma_highest_with_count_unique(ranks: Seq<Rank>, n: nat, r: Rank)
    requires
        is_highest_with_count(ranks, n, r),
    ensures
        highest_with_count(ranks, n) == r,
        has_count(ranks, n),
{
    let c = highest_with_count(ranks, n);
    assert(is_highest_with_count(ranks, n, c));
    lemma_same_value_same_rank(c, r);
}

/// Only one rank is the lowest with a given count.
pub proof fn lemma_lowest_with_count_unique(ranks: Seq<Rank>, n: nat, r: Rank)
    requires
        is_lowest_with_count(ranks, n, r),
    ensures
        lowest_with_count(ranks, n) == r,
{
    let c = lowest_with_count(ranks, n);
    assert(is_lowest_with_count(ranks, n, c));
    lemma_same_value_same_rank(c, r);
}

/// Only one rank is the highest of a hand.
pub proof fn lemma_highest_rank_unique(ranks: Seq<Rank>, r: Rank)
    requires
        is_highest_rank(ranks, r),
    ensures
        highest_rank(ranks) == r,
{
    let c = highest_rank(ranks);
    assert(is_highest_rank(ranks, c));
    lemma_same_value_same_rank(c, r);
}

/// Three different ranks together occur no more often than there are ranks.
pub proof fn lemma_three_ranks_bounded(ranks: Seq<Rank>, a: Rank, b: Rank, c: Rank)
    requires
        a != b,
        a != c,
        b != c,
    ensures
        occurrences(ranks, a) + occurrences(ranks, b) + occurrences(ranks, c) <= ranks.len(),
    decreases ranks.len(),
{
    if ranks.len() > 0 {
        lemma_three_ranks_bounded(ranks.drop_last(), a, b, c);
    }
}

/// Five cards hold at most two pairs: where two different ranks each occur
/// twice, no third rank does.
pub proof fn lemma_at_most_two_pairs(ranks: Seq<Rank>, a: Rank, b: Rank, c: Rank)
    requires
        ranks.len() == 5,
        a != b,
        occurrences(ranks, a) == 2,
        occurrences(ranks, b) == 2,
        occurrences(ranks, c) == 2,
    ensures
        c == a || c == b,
{
    if c != a && c != b {
        lemma_three_ranks_bounded(ranks, a, b, c);
    }
}

/// Counts how often each rank occurs.
///
/// The result has fifteen entries, indexed by rank value; the entries at 0 and
/// 1, which no rank has, are zero.
pub fn get_rank_counts(ranks: &[Rank]) -> (counts: Vec<u8>)
    requires
        ranks@.len() <= u8::MAX,
    ensures
        counts_match(counts@, ranks@),
        counts@[0] == 0,
        counts@[1] == 0,
{
    let mut counts: Vec<u8> = Vec::new();
    let mut k: usize = 0;
    while k < 15
        invariant
            k <= 15,
            counts@.len() == k,
            forall|j: int| 0 <= j < k ==> counts@[j] == 0,
        decreases 15 - k,
    {
        counts.push(0);
        k += 1;
    }
    let mut i: usize = 0;
    while i < ranks.len()
        invariant
            i <= ranks@.len(),
            ranks@.len() <= u8::MAX,
            counts_match(counts@, ranks@.take(i as int)),
            counts@[0] == 0,
            counts@[1] == 0,
        decreases ranks@.len() - i,
    {
        let rank = ranks[i];
        let v: usize = rank.value().into();
        proof {
            lemma_occurrences_bounded(ranks@.take(i as int), rank);
            assert(ranks@.take(i + 1).drop_last() == ranks@.take(i as int));
            assert(ranks@.take(i + 1).last() == rank);
        }
        let ghost before = counts@;
        counts.set(v, counts[v] + 1);
        proof {
            assert forall|r: Rank| counts@[r.spec_value()] == #[trigger] occurrences(
                ranks@.take(i + 1),
                r,
            ) by {
                assert(before[r.spec_value()] == occurrences(ranks@.take(i as int), r));
                if r.spec_value() == rank.spec_value() {
                    lemma_same_value_same_rank(r, rank);
                }
            }
        }
        i += 1;
    }
    proof {
        assert(ranks@.take(ranks@.len() as int) == ranks@);
    }
    counts
}

/// The highest rank whose count lies in `min..=max`, if any rank's does.
pub fn highest_rank_counted(counts: &Vec<u8>, min: u8, max: u8) -> (found: Option<Rank>)
    requires
        counts@.len() == 15,
    ensures
        found matches Some(r) ==> min <= counts@[r.spec_value()] <= max && forall|q: Rank|
            min <= #[trigger] counts@[q.spec_value()] <= max ==> q.spec_value() <= r.spec_value(),
        found is None ==> forall|q: Rank| !(min <= #[trigger] counts@[q.spec_value()] <= max),
{
    let mut v: u8 = 14;
    while v >= 2
        invariant
            1 <= v <= 14,
            counts@.len() == 15,
            forall|q: Rank|
                q.spec_value() > v ==> !(min <= #[trigger] counts@[q.spec_value()] <= max),
        decreases v,
    {
        let idx: usize = v.into();
        if min <= counts[idx] && counts[idx] <= max {
            return Rank::from_value(v);
        }
        v -= 1;
    }
    None
}

/// The lowest rank whose count lies in `min..=max`, if any rank's does.
pub fn lowest_rank_counted(counts: &Vec<u8>, min: u8, max: u8) -> (found: Option<Rank>)
    requires
        counts@.len() == 15,
    ensures
        found matches Some(r) ==> min <= counts@[r.spec_value()] <= max && forall|q: Rank|
            min <= #[trigger] counts@[q.spec_value()] <= max ==> r.spec_value() <= q.spec_value(),
        found is None ==> forall|q: Rank| !(min <= #[trigger] counts@[q.spec_value()] <= max),
{
    let mut v: u8 = 2;
    while v <= 14
        invariant
            2 <= v <= 15,
            counts@.len() == 15,
            forall|q: Rank|
                q.spec_value() < v ==> !(min <= #[trigger] counts@[q.spec_value()] <= max),
        decreases 15 - v,
    {
        let idx: usize = v.into();
        if min <= counts[idx] && counts[idx] <= max {
            return Rank::from_value(v);
        }
        v += 1;
    }
    None
}

/// Ranks a five-card hand. The order of the cards does not matter.
pub fn evaluate_five_card_hand(cards: &[Card]) -> (hand_rank: HandRank)
    requires
        cards@.len() == 5,
    ensures
        hand_rank == five_card_rank(cards@),
{
    let ghost rs = ranks_of(cards@);
    let mut ranks: Vec<Rank> = Vec::new();
    let mut rank_values: Vec<u8> = Vec::new();
    let mut flush = true;
    let mut i: usize = 0;
    while i < cards.len()
        invariant
            i <= 5,
            cards@.len() == 5,
            rs == ranks_of(cards@),
            ranks@ == rs.take(i as int),
            rank_values@ == values_of(rs).take(i as int),
            flush == (forall|j: int| 0 <= j < i ==> (#[trigger] cards@[j]).suit == cards@[0].suit),
        decreases 5 - i,
    {
        ranks.push(cards[i].rank);
        rank_values.push(cards[i].rank.value());
        if !(cards[i].suit == cards[0].suit) {
            flush = false;
        }
        i += 1;
        proof {
            assert(ranks@ == rs.take(i as int));
            assert(rank_values@ == values_of(rs).take(i as int));
        }
    }
    proof {
        assert(ranks@ == rs);
        assert(rank_values@ == values_of(rs));
        assert(flush == is_flush(cards@));
    }
    let straight = is_sequence(rank_values);
    let counts = get_rank_counts(ranks.as_slice());
    let top = highest_rank_counted(&counts, 1, u8::MAX);
    let four = highest_rank_counted(&counts, 4, 4);
    let three = highest_rank_counted(&counts, 3, 3);
    let pair_high = highest_rank_counted(&counts, 2, 2);
    let pair_low = lowest_rank_counted(&counts, 2, 2);
    let has_ace = counts[14] > 0;
    let has_king = counts[13] > 0;
    let has_two = counts[2] > 0;
    proof {
        assert(has_ace == (occurrences(rs, Rank::Ace) > 0));
        assert(has_king == (occurrences(rs, Rank::King) > 0));
        assert(has_two == (occurrences(rs, Rank::Two) > 0));
        assert(rs.contains(rs[0]));
        lemma_occurrences_contains(rs, rs[0]);
        lemma_counted_is_highest_rank(counts@, rs, top);
        lemma_counted_is_highest(counts@, rs, 4, four);
        lemma_counted_is_highest(counts@, rs, 3, three);
        lemma_counted_is_highest(counts@, rs, 2, pair_high);
        lemma_counted_is_lowest(counts@, rs, 2, pair_low);
        if has_count(rs, 2) {
            lemma_two_pairs_by_extremes(rs);
        } else if has_two_pairs(rs) {
            let (a, b) = choose|a: Rank, b: Rank|
                a != b && occurrences(rs, a) == 2 && occurrences(rs, b) == 2;
            assert(occurrences(rs, a) == 2);
        }
    }
    let high = match top {
        Some(r) => r,
        None => Rank::Two,
    };
    let run_top = if has_ace && has_two {
        Rank::Five
    } else {
        high
    };
    if flush && straight {
        if has_ace && has_king {
            return HandRank::RoyalFlush;
        } else {
            return HandRank::StraightFlush(run_top);
        }
    }
    if let Some(r) = four {
        return HandRank::FourOfAKind(r);
    }
    if let Some(t) = three {
        if let Some(p) = pair_high {
            return HandRank::FullHouse(t, p);
        }
    }
    if flush {
        return HandRank::Flush(high);
    }
    if straight {
        return HandRank::Straight(run_top);
    }
    if let Some(t) = three {
        return HandRank::ThreeOfAKind(t);
    }
    if let Some(p) = pair_high {
        if let Some(q) = pair_low {
            if p.value() != q.value() {
                return HandRank::TwoPair(p, q);
            }
        }
        return HandRank::OnePair(p);
    }
    HandRank::HighCard(high)
}

/// What a downward scan of a matching count table finds for an exact count
/// is the highest rank with that count.
proof fn lemma_counted_is_highest(counts: Seq<u8>, ranks: Seq<Rank>, n: u8, found: Option<Rank>)
    requires
        counts_match(counts, ranks),
        found matches Some(r) ==> n <= counts[r.spec_value()] <= n && forall|q: Rank|
            n <= #[trigger] counts[q.spec_value()] <= n ==> q.spec_value() <= r.spec_value(),
        found is None ==> forall|q: Rank| !(n <= #[trigger] counts[q.spec_value()] <= n),
    ensures
        found is Some <==> has_count(ranks, n as nat),
        found matches Some(r) ==> is_highest_with_count(ranks, n as nat, r) && highest_with_count(
            ranks,
            n as nat,
        ) == r,
{
    match found {
        Some(r) => {
            assert(occurrences(ranks, r) == n);
            assert forall|q: Rank| occurrences(ranks, q) == n as nat implies q.spec_value()
                <= r.spec_value() by {
                assert(counts[q.spec_value()] == n);
            }
            lemma_highest_with_count_unique(ranks, n as nat, r);
        },
        None => {
            assert forall|q: Rank| occurrences(ranks, q) != n as nat by {
                assert(!(n <= counts[q.spec_value()] <= n));
            }
        },
    }
}

/// What an upward scan of a matching count table finds for an exact count is
/// the lowest rank with that count.
proof fn lemma_counted_is_lowest(counts: Seq<u8>, ranks: Seq<Rank>, n: u8, found: Option<Rank>)
    requires
        counts_match(counts, ranks),
        found matches Some(r) ==> n <= counts[r.spec_value()] <= n && forall|q: Rank|
            n <= #[trigger] counts[q.spec_value()] <= n ==> r.spec_value() <= q.spec_value(),
        found is None ==> forall|q: Rank| !(n <= #[trigger] counts[q.spec_value()] <= n),
    ensures
        found is Some <==> has_count(ranks, n as nat),
        found matches Some(r) ==> is_lowest_with_count(ranks, n as nat, r) && lowest_with_count(
            ranks,
            n as nat,
        ) == r,
{
    match found {
        Some(r) => {
            assert(occurrences(ranks, r) == n);
            assert forall|q: Rank| occurrences(ranks, q) == n as nat implies r.spec_value()
                <= q.spec_value() by {
                assert(counts[q.spec_value()] == n);
            }
            lemma_lowest_with_count_unique(ranks, n as nat, r);
        },
        None => {
            assert forall|q: Rank| occurrences(ranks, q) != n as nat by {
                assert(!(n <= counts[q.spec_value()] <= n));
            }
        },
    }
}

/// What a downward scan of a matching count table finds for any positive
/// count is the highest rank of a non-empty hand.
proof fn lemma_counted_is_highest_rank(counts: Seq<u8>, ranks: Seq<Rank>, found: Option<Rank>)
    requires
        counts_match(counts, ranks),
        ranks.len() > 0,
        found matches Some(r) ==> 1 <= counts[r.spec_value()] <= u8::MAX && forall|q: Rank|
            1 <= #[trigger] counts[q.spec_value()] <= u8::MAX ==> q.spec_value()
                <= r.spec_value(),
        found is None ==> forall|q: Rank| !(1 <= #[trigger] counts[q.spec_value()] <= u8::MAX),
    ensures
        found matches Some(r) && is_highest_rank(ranks, r) && highest_rank(ranks) == r,
{
    assert(ranks.contains(ranks[0]));
    lemma_occurrences_contains(ranks, ranks[0]);
    assert(counts[ranks[0].spec_value()] >= 1);
    match found {
        Some(r) => {
            assert(occurrences(ranks, r) > 0);
            assert forall|q: Rank| occurrences(ranks, q) > 0 implies q.spec_value()
                <= r.spec_value() by {
                assert(counts[q.spec_value()] >= 1);
            }
            lemma_highest_rank_unique(ranks, r);
        },
        None => {},
    }
}

/// A hand holds two pairs exactly when its highest and its lowest paired rank
/// differ.
pub proof fn lemma_two_pairs_by_extremes(ranks: Seq<Rank>)
    requires
        has_count(ranks, 2),
    ensures
        has_two_pairs(ranks) <==> highest_with_count(ranks, 2).spec_value() != lowest_with_count(
            ranks,
            2,
        ).spec_value(),
{
    let hi = highest_with_count(ranks, 2);
    let lo = lowest_with_count(ranks, 2);
    lemma_extremes_exist(ranks, 2);
    if has_two_pairs(ranks) {
        let (a, b) = choose|a: Rank, b: Rank|
            a != b && occurrences(ranks, a) == 2 && occurrences(ranks, b) == 2;
        if hi.spec_value() == lo.spec_value() {
            lemma_same_value_same_rank(a, hi);
            lemma_same_value_same_rank(b, hi);
        }
    }
    if hi.spec_value() != lo.spec_value() {
        assert(hi != lo);
    }
}

/// Where some rank has a given count, a highest and a lowest such rank exist.
pub proof fn lemma_extremes_exist(ranks: Seq<Rank>, n: nat)
    requires
        has_count(ranks, n),
    ensures
        is_highest_with_count(ranks, n, highest_with_count(ranks, n)),
        is_lowest_with_count(ranks, n, lowest_with_count(ranks, n)),
{
    let w = choose|r: Rank| occurrences(ranks, r) == n;
    lemma_highest_below(ranks, n, 14);
    lemma_lowest_above(ranks, n, 2);
    crate::card::lemma_rank_value_roundtrip(w);
}

/// Either no rank of value at most `top` has count `n`, or one of them is the
/// highest such.
proof fn lemma_highest_below(ranks: Seq<Rank>, n: nat, top: int)
    requires
        1 <= top <= 14,
        forall|q: Rank| q.spec_value() > top ==> occurrences(ranks, q) != n,
    ensures
        (forall|q: Rank| occurrences(ranks, q) != n) || exists|r: Rank|
            is_highest_with_count(ranks, n, r),
    decreases top,
{
    if top >= 2 {
        let r = Rank::spec_from_value(top);
        crate::card::lemma_value_rank_roundtrip(top);
        if occurrences(ranks, r) == n {
            assert(is_highest_with_count(ranks, n, r));
        } else {
            assert forall|q: Rank| q.spec_value() > top - 1 implies occurrences(ranks, q)
                != n by {
                if q.spec_value() == top {
                    lemma_same_value_same_rank(q, r);
                }
            }
            lemma_highest_below(ranks, n, top - 1);
        }
    } else {
        assert forall|q: Rank| occurrences(ranks, q) != n by {
            crate::card::lemma_rank_value_roundtrip(q);
        }
    }
}

/// Either no rank of value at least `bottom` has count `n`, or one of them is
/// the lowest such.
proof fn lemma_lowest_above(ranks: Seq<Rank>, n: nat, bottom: int)
    requires
        2 <= bottom <= 15,
        forall|q: Rank| q.spec_value() < bottom ==> occurrences(ranks, q) != n,
    ensures
        (forall|q: Rank| occurrences(ranks, q) != n) || exists|r: Rank|
            is_lowest_with_count(ranks, n, r),
    decreases 15 - bottom,
{
    if bottom <= 14 {
        let r = Rank::spec_from_value(bottom);
        crate::card::lemma_value_rank_roundtrip(bottom);
        if occurrences(ranks, r) == n {
            assert(is_lowest_with_count(ranks, n, r));
        } else {
            assert forall|q: Rank| q.spec_value() < bottom + 1 implies occurrences(ranks, q)
                != n by {
                if q.spec_value() == bottom {
                    lemma_same_value_same_rank(q, r);
                }
            }
            lemma_lowest_above(ranks, n, bottom + 1);
        }
    } else {
        assert forall|q: Rank| occurrences(ranks, q) != n by {
            crate::card::lemma_rank_value_roundtrip(q);
        }
    }
}

/// `best` is the strongest rank over all choices of five of the cards: no
/// choice beats it, and some choice attains it. With fewer than five cards
/// there is no choice, and `best` is the weakest rank of all.
pub open spec fn is_best_rank(cards: Seq<Card>, best: HandRank) -> bool {
    &&& forall|hand: Seq<Card>|
        is_combination(cards, 5, hand) ==> !(#[trigger] five_card_rank(hand)).spec_beats(best)
    &&& cards.len() >= 5 ==> exists|hand: Seq<Card>|
        is_combination(cards, 5, hand) && #[trigger] five_card_rank(hand) == best
    &&& cards.len() < 5 ==> best == HandRank::HighCard(Rank::Two)
}

/// The rank of the best five-card hand among `cards`.
pub open spec fn best_rank(cards: Seq<Card>) -> HandRank {
    choose|best: HandRank| is_best_rank(cards, best)
}

/// Only one rank is the best over all choices of five cards.
pub proof fn lemma_best_rank_unique(cards: Seq<Card>, best: HandRank)
    requires
        is_best_rank(cards, best),
    ensures
        best_rank(cards) == best,
{
    let other = best_rank(cards);
    assert(is_best_rank(cards, other));
    if cards.len() >= 5 {
        let h1 = choose|hand: Seq<Card>|
            is_combination(cards, 5, hand) && #[trigger] five_card_rank(hand) == best;
        let h2 = choose|hand: Seq<Card>|
            is_combination(cards, 5, hand) && #[trigger] five_card_rank(hand) == other;
        assert(!five_card_rank(h1).spec_beats(other));
        assert(!five_card_rank(h2).spec_beats(best));
        crate::hand_rank::lemma_order_total(best, other);
    }
}

/// Ranks the best five-card hand that can be chosen from `cards`: the
/// maximum, under the order on hands, over all choices of five of them.
pub fn evaluate_hand(cards: &[Card]) -> (best: HandRank)
    ensures
        is_best_rank(cards@, best),
        best == best_rank(cards@),
{
    let mut best_rank = HandRank::HighCard(Rank::Two);
    let ghost all = combinations_of(cards@, 5);
    if cards.len() < 5 {
        proof {
            assert forall|hand: Seq<Card>| is_combination(cards@, 5, hand) implies
                !(#[trigger] five_card_rank(hand)).spec_beats(best_rank) by {
                let idx = choose|idx: Seq<int>|
                    idx.len() == 5 && increasing_indices(idx, cards@.len() as int) && hand
                        == select(cards@, idx);
                lemma_increasing_lower_bound(idx, cards@.len() as int, 4);
            }
            lemma_best_rank_unique(cards@, best_rank);
        }
        return best_rank;
    }
    let combos = card_combinations(cards, 5);
    let mut i: usize = 0;
    while i < combos.len()
        invariant
            i <= combos@.len(),
            all == combinations_of(cards@, 5),
            combos@.len() == all.len(),
            forall|j: int| 0 <= j < combos@.len() ==> (#[trigger] combos@[j])@ == all[j],
            forall|j: int| 0 <= j < i ==> !five_card_rank(#[trigger] all[j]).spec_beats(best_rank),
            i == 0 ==> best_rank == HandRank::HighCard(Rank::Two),
            i > 0 ==> exists|j: int| 0 <= j < i && five_card_rank(#[trigger] all[j]) == best_rank,
        decreases combos@.len() - i,
    {
        proof {
            lemma_combinations_sound(cards@, 5, i as int);
            assert(combos@[i as int]@ == all[i as int]);
        }
        let rank = evaluate_five_card_hand(combos[i].as_slice());
        if rank.beats(&best_rank) {
            best_rank = rank;
        } else {
            proof {
                if i == 0 {
                    lemma_high_card_two_is_bottom(rank);
                    crate::hand_rank::lemma_order_total(rank, best_rank);
                }
            }
        }
        proof {
            assert(five_card_rank(all[i as int]) == rank);
        }
        i += 1;
    }
    proof {
        assert forall|hand: Seq<Card>| is_combination(cards@, 5, hand) implies
            !(#[trigger] five_card_rank(hand)).spec_beats(best_rank) by {
            let idx = choose|idx: Seq<int>|
                idx.len() == 5 && increasing_indices(idx, cards@.len() as int) && hand == select(
                    cards@,
                    idx,
                );
            lemma_combinations_complete(cards@, 5, idx);
            let j = choose|j: int| 0 <= j < all.len() && all[j] == hand;
            assert(!five_card_rank(all[j]).spec_beats(best_rank));
        }
        let first_five = seq![0int, 1, 2, 3, 4];
        assert(increasing_indices(first_five, cards@.len() as int));
        lemma_combinations_complete(cards@, 5, first_five);
        assert(all.len() > 0);
        let j = choose|j: int| 0 <= j < all.len() && five_card_rank(#[trigger] all[j]) == best_rank;
        lemma_combinations_sound(cards@, 5, j);
        assert(is_combination(cards@, 5, all[j]) && five_card_rank(all[j]) == best_rank);
        lemma_best_rank_unique(cards@, best_rank);
    }
    best_rank
}

} // verus!
