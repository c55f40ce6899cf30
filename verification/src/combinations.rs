//! Choosing `k` cards out of a hand, in every possible way.

use crate::card::Card;
use itertools::Itertools;
use vstd::prelude::*;

verus! {

/// `idx` lists positions below `n` in strictly increasing order.
pub open spec fn increasing_indices(idx: Seq<int>, n: int) -> bool {
    &&& forall|j: int| 0 <= j < idx.len() ==> 0 <= #[trigger] idx[j] < n
    &&& forall|i: int, j: int| 0 <= i < j < idx.len() ==> idx[i] < idx[j]
}

/// The cards of `s` at the positions `idx`, in that order.
pub open spec fn select(s: Seq<Card>, idx: Seq<int>) -> Seq<Card> {
    Seq::new(idx.len(), |j: int| s[idx[j]])
}

/// `c` is a choice of `k` cards of `s`: the cards at `k` different positions,
/// in the order in which they stand in `s`.
pub open spec fn is_combination(s: Seq<Card>, k: nat, c: Seq<Card>) -> bool {
    exists|idx: Seq<int>|
        idx.len() == k && increasing_indices(idx, s.len() as int) && c == select(s, idx)
}

/// All choices of `k` cards of `s`, each once, in lexicographic order of the
/// chosen positions: first the choices that take the first card, then those
/// that do not.
pub open spec fn combinations_of(s: Seq<Card>, k: nat) -> Seq<Seq<Card>>
    decreases s.len(),
{
    if k == 0 {
        seq![Seq::<Card>::empty()]
    } else if s.len() < k {
        Seq::<Seq<Card>>::empty()
    } else {
        let rest = s.drop_first();
        combinations_of(rest, (k - 1) as nat).map_values(|c: Seq<Card>| seq![s[0]] + c)
            + combinations_of(rest, k)
    }
}

/// All `k`-card choices of `cards`, by `itertools::Itertools::combinations`
/// on the cards in order.
///
/// Trusted: the adaptor yields every `k`-element choice of positions once, in
/// lexicographic order of the positions, each as the elements at those
/// positions in the order in which they stand. For `k` above the number of cards it
/// would first allocate `k` positions, so that case is left out.
#[verifier::external_body]
pub(crate) fn card_combinations(cards: &[Card], k: usize) -> (combos: Vec<Vec<Card>>)
    requires
        k <= cards@.len(),
    ensures
        combos@.len() == combinations_of(cards@, k as nat).len(),
        forall|i: int|
            0 <= i < combos@.len() ==> (#[trigger] combos@[i])@ == combinations_of(
                cards@,
                k as nat,
            )[i],
{
    cards.iter().copied().combinations(k).collect()
}

/// The position at place `j` of an increasing list is at least `j`.
pub proof fn lemma_increasing_lower_bound(idx: Seq<int>, n: int, j: int)
    requires
        increasing_indices(idx, n),
        0 <= j < idx.len(),
    ensures
        idx[j] >= j,
    decreases j,
{
    if j > 0 {
        lemma_increasing_lower_bound(idx, n, j - 1);
    }
}

/// Every entry of `combinations_of(s, k)` is a choice of `k` cards of `s`.
pub proof fn lemma_combinations_sound(s: Seq<Card>, k: nat, j: int)
    requires
        0 <= j < combinations_of(s, k).len(),
    ensures
        is_combination(s, k, combinations_of(s, k)[j]),
        combinations_of(s, k)[j].len() == k,
    decreases s.len(),
{
    let c = combinations_of(s, k)[j];
    if k == 0 {
        let idx = Seq::<int>::empty();
        assert(c =~= select(s, idx));
        assert(idx.len() == k && increasing_indices(idx, s.len() as int) && c == select(s, idx));
    } else {
        let rest = s.drop_first();
        let first = combinations_of(rest, (k - 1) as nat).map_values(
            |c: Seq<Card>| seq![s[0]] + c,
        );
        let second = combinations_of(rest, k);
        if j < first.len() {
            let c1 = combinations_of(rest, (k - 1) as nat)[j];
            lemma_combinations_sound(rest, (k - 1) as nat, j);
            let idx1 = choose|idx: Seq<int>|
                idx.len() == (k - 1) as nat && increasing_indices(idx, rest.len() as int) && c1
                    == select(rest, idx);
            let idx = seq![0int] + idx1.map_values(|i: int| i + 1);
            assert(c == seq![s[0]] + c1);
            assert(increasing_indices(idx, s.len() as int)) by {
                assert forall|a: int| 0 <= a < idx.len() implies 0 <= #[trigger] idx[a]
                    < s.len() by {
                    if a > 0 {
                        assert(idx[a] == idx1[a - 1] + 1);
                    }
                }
                assert forall|a: int, b: int| 0 <= a < b < idx.len() implies idx[a] < idx[b] by {
                    assert(idx[b] == idx1[b - 1] + 1);
                    if a > 0 {
                        assert(idx[a] == idx1[a - 1] + 1);
                    }
                }
            }
            assert(c =~= select(s, idx)) by {
                assert forall|m: int| 0 <= m < c.len() implies c[m] == select(s, idx)[m] by {
                    if m > 0 {
                        assert(idx[m] == idx1[m - 1] + 1);
                        assert(c[m] == c1[m - 1]);
                        assert(c1[m - 1] == rest[idx1[m - 1]]);
                    }
                }
            }
            assert(idx.len() == k && increasing_indices(idx, s.len() as int) && c == select(
                s,
                idx,
            ));
        } else {
            let j2 = j - first.len();
            let c2 = second[j2];
            assert(c == c2);
            lemma_combinations_sound(rest, k, j2);
            let idx2 = choose|idx: Seq<int>|
                idx.len() == k && increasing_indices(idx, rest.len() as int) && c2 == select(
                    rest,
                    idx,
                );
            let idx = idx2.map_values(|i: int| i + 1);
            assert(increasing_indices(idx, s.len() as int));
            assert(c =~= select(s, idx)) by {
                assert forall|m: int| 0 <= m < c.len() implies c[m] == select(s, idx)[m] by {
                    assert(c2[m] == rest[idx2[m]]);
                }
            }
            assert(idx.len() == k && increasing_indices(idx, s.len() as int) && c == select(
                s,
                idx,
            ));
        }
    }
}

/// Every choice of `k` cards of `s` is an entry of `combinations_of(s, k)`.
pub proof fn lemma_combinations_complete(s: Seq<Card>, k: nat, idx: Seq<int>)
    requires
        idx.len() == k,
        increasing_indices(idx, s.len() as int),
    ensures
        combinations_of(s, k).contains(select(s, idx)),
    decreases s.len(),
{
    let c = select(s, idx);
    if k == 0 {
        assert(c =~= Seq::<Card>::empty());
        assert(combinations_of(s, k)[0] == c);
    } else {
        lemma_increasing_lower_bound(idx, s.len() as int, k - 1);
        assert(s.len() >= k);
        let rest = s.drop_first();
        let inner = combinations_of(rest, (k - 1) as nat);
        let first = inner.map_values(|c: Seq<Card>| seq![s[0]] + c);
        let second = combinations_of(rest, k);
        assert(combinations_of(s, k) == first + second);
        if idx[0] == 0 {
            let idx1 = idx.drop_first().map_values(|i: int| i - 1);
            assert(increasing_indices(idx1, rest.len() as int)) by {
                assert forall|a: int| 0 <= a < idx1.len() implies 0 <= #[trigger] idx1[a]
                    < rest.len() by {
                    assert(idx1[a] == idx[a + 1] - 1);
                    assert(idx[0] < idx[a + 1]);
                }
                assert forall|a: int, b: int| 0 <= a < b < idx1.len() implies idx1[a]
                    < idx1[b] by {
                    assert(idx1[a] == idx[a + 1] - 1);
                    assert(idx1[b] == idx[b + 1] - 1);
                }
            }
            lemma_combinations_complete(rest, (k - 1) as nat, idx1);
            let c1 = select(rest, idx1);
            let p = choose|p: int| 0 <= p < inner.len() && inner[p] == c1;
            assert(first[p] == seq![s[0]] + c1);
            assert(first[p] =~= c) by {
                assert forall|m: int| 0 <= m < c.len() implies first[p][m] == c[m] by {
                    if m > 0 {
                        assert(idx1[m - 1] == idx[m] - 1);
                        assert(c1[m - 1] == rest[idx1[m - 1]]);
                    }
                }
            }
            assert((first + second)[p] == c);
        } else {
            let idx2 = idx.map_values(|i: int| i - 1);
            assert(increasing_indices(idx2, rest.len() as int)) by {
                assert forall|a: int| 0 <= a < idx2.len() implies 0 <= #[trigger] idx2[a]
                    < rest.len() by {
                    assert(idx2[a] == idx[a] - 1);
                    if a > 0 {
                        assert(idx[0] < idx[a]);
                    }
                }
                assert forall|a: int, b: int| 0 <= a < b < idx2.len() implies idx2[a]
                    < idx2[b] by {
                    assert(idx2[a] == idx[a] - 1);
                    assert(idx2[b] == idx[b] - 1);
                }
            }
            lemma_combinations_complete(rest, k, idx2);
            let c2 = select(rest, idx2);
            let p = choose|p: int| 0 <= p < second.len() && second[p] == c2;
            assert(c2 =~= c) by {
                assert forall|m: int| 0 <= m < c.len() implies c2[m] == c[m] by {
                    assert(idx2[m] == idx[m] - 1);
                }
            }
            assert((first + second)[first.len() + p] == c);
        }
    }
}

/// The number of ways to choose `k` of `n` things.
pub open spec fn binomial(n: nat, k: nat) -> nat
    decreases n,
{
    if k == 0 {
        1
    } else if n < k {
        0
    } else {
        binomial((n - 1) as nat, (k - 1) as nat) + binomial((n - 1) as nat, k)
    }
}

/// There are as many choices of `k` cards as the binomial coefficient says.
pub proof fn lemma_combinations_count(s: Seq<Card>, k: nat)
    ensures
        combinations_of(s, k).len() == binomial(s.len(), k),
    decreases s.len(),
{
    if k > 0 && s.len() >= k {
        lemma_combinations_count(s.drop_first(), (k - 1) as nat);
        lemma_combinations_count(s.drop_first(), k);
    }
}

/// Seven cards hold twenty-one choices of five.
pub proof fn lemma_seven_choose_five(s: Seq<Card>)
    requires
        s.len() == 7,
    ensures
        combinations_of(s, 5).len() == 21,
{
    lemma_combinations_count(s, 5);
    assert(binomial(7, 5) == 21) by {
        reveal_with_fuel(binomial, 8);
    }
}

} // verus!
