//! Counting how often each hand category was seen.

use crate::hand_rank::{HandRank, CATEGORY_COUNT};
use vstd::prelude::*;

verus! {

/// The sum of a list of counts.
pub open spec fn sum_counts(counts: Seq<usize>) -> nat
    decreases counts.len(),
{
    if counts.len() == 0 {
        0
    } else {
        sum_counts(counts.drop_last()) + counts.last() as nat
    }
}

/// One entry precedes another in a frequency table: it has the larger count,
/// or the same count and the weaker category.
pub open spec fn precedes(a: (usize, usize), b: (usize, usize)) -> bool {
    a.1 > b.1 || (a.1 == b.1 && a.0 < b.0)
}

/// A tally of hand categories: for each of the ten categories, by its
/// position in ascending order of strength, how many hands fell into it.
pub struct HandRankCounts {
    pub counts: Vec<usize>,
}

impl HandRankCounts {
    /// There is one count for each category.
    pub open spec fn well_formed(&self) -> bool {
        self.counts@.len() == CATEGORY_COUNT
    }

    /// How many hands of the category at position `category` were seen.
    pub open spec fn spec_count(&self, category: int) -> nat {
        self.counts@[category] as nat
    }

    /// How many hands were seen in all.
    pub open spec fn spec_total(&self) -> nat {
        sum_counts(self.counts@)
    }

    /// `table` lists the categories seen at least once, each once with its
    /// count, the most frequent first and, among equally frequent ones, the
    /// weaker category first.
    pub open spec fn is_frequency_table(&self, table: Seq<(usize, usize)>) -> bool {
        &&& forall|i: int|
            0 <= i < table.len() ==> {
                let entry = #[trigger] table[i];
                entry.0 < CATEGORY_COUNT && entry.1 > 0 && entry.1 == self.counts@[entry.0 as int]
            }
        &&& forall|c: int|
            0 <= c < CATEGORY_COUNT && #[trigger] self.counts@[c] > 0 ==> exists|i: int|
                0 <= i < table.len() && (#[trigger] table[i]).0 == c
        &&& forall|i: int, j: int|
            0 <= i < j < table.len() ==> precedes(#[trigger] table[i], #[trigger] table[j])
    }

    /// An empty tally.
    pub fn new() -> (tally: HandRankCounts)
        ensures
            tally.well_formed(),
            tally.counts@ == Seq::new(CATEGORY_COUNT as nat, |c: int| 0usize),
            tally.spec_total() == 0,
    {
        let mut counts: Vec<usize> = Vec::new();
        let mut k: usize = 0;
        while k < CATEGORY_COUNT
            invariant
                k <= CATEGORY_COUNT,
                counts@.len() == k,
                forall|j: int| 0 <= j < k ==> counts@[j] == 0,
                sum_counts(counts@) == 0,
            decreases CATEGORY_COUNT - k,
        {
            proof {
                assert(counts@.push(0usize).drop_last() == counts@);
            }
            counts.push(0);
            k += 1;
        }
        proof {
            assert(counts@ =~= Seq::new(CATEGORY_COUNT as nat, |c: int| 0usize));
        }
        HandRankCounts { counts }
    }

    /// How many hands of the category at position `category` were seen.
    pub fn count(&self, category: usize) -> (n: usize)
        requires
            self.well_formed(),
            category < CATEGORY_COUNT,
        ensures
            n == self.spec_count(category as int),
    {
        self.counts[category]
    }

    /// Counts one more hand of the category of `hand_rank`.
    pub fn record(&mut self, hand_rank: &HandRank)
        requires
            old(self).well_formed(),
            old(self).spec_total() < usize::MAX,
        ensures
            final(self).well_formed(),
            final(self).counts@ == old(self).counts@.update(
                hand_rank.spec_category_index(),
                (old(self).counts@[hand_rank.spec_category_index()] + 1) as usize,
            ),
            final(self).spec_count(hand_rank.spec_category_index()) == old(self).spec_count(
                hand_rank.spec_category_index(),
            ) + 1,
            final(self).spec_total() == old(self).spec_total() + 1,
    {
        let category = hand_rank.category_index();
        proof {
            lemma_sum_bounds_entry(self.counts@, category as int);
            lemma_sum_update(self.counts@, category as int, (self.counts@[category as int] + 1) as usize);
        }
        let n = self.counts[category];
        self.counts.set(category, n + 1);
    }

    /// Adds every count of `other` to the matching count of `self`.
    pub fn merge(&mut self, other: &HandRankCounts)
        requires
            old(self).well_formed(),
            other.well_formed(),
            old(self).spec_total() + other.spec_total() <= usize::MAX,
        ensures
            final(self).well_formed(),
            forall|c: int|
                0 <= c < CATEGORY_COUNT ==> #[trigger] final(self).spec_count(c)
                    == old(self).spec_count(c) + other.spec_count(c),
            final(self).spec_total() == old(self).spec_total() + other.spec_total(),
    {
        let ghost before = self.counts@;
        let mut c: usize = 0;
        while c < CATEGORY_COUNT
            invariant
                c <= CATEGORY_COUNT,
                self.counts@.len() == CATEGORY_COUNT,
                other.counts@.len() == CATEGORY_COUNT,
                before.len() == CATEGORY_COUNT,
                sum_counts(before) + sum_counts(other.counts@) <= usize::MAX,
                forall|j: int| 0 <= j < c ==> #[trigger] self.counts@[j] == before[j] + other.counts@[j],
                forall|j: int| c <= j < CATEGORY_COUNT ==> #[trigger] self.counts@[j] == before[j],
            decreases CATEGORY_COUNT - c,
        {
            proof {
                lemma_sum_bounds_entry(before, c as int);
                lemma_sum_bounds_entry(other.counts@, c as int);
            }
            let n = self.counts[c] + other.counts[c];
            self.counts.set(c, n);
            c += 1;
        }
        proof {
            lemma_sum_pointwise(before, other.counts@, self.counts@);
        }
    }

    /// The categories seen at least once with their counts, the most
    /// frequent first.
    pub fn sorted_by_frequency(&self) -> (table: Vec<(usize, usize)>)
        requires
            self.well_formed(),
        ensures
            self.is_frequency_table(table@),
    {
        let mut table: Vec<(usize, usize)> = Vec::new();
        let mut c: usize = 0;
        while c < CATEGORY_COUNT
            invariant
                c <= CATEGORY_COUNT,
                self.counts@.len() == CATEGORY_COUNT,
                forall|i: int|
                    0 <= i < table@.len() ==> {
                        let entry = #[trigger] table@[i];
                        entry.0 < c && entry.1 > 0 && entry.1 == self.counts@[entry.0 as int]
                    },
                forall|d: int|
                    0 <= d < c && #[trigger] self.counts@[d] > 0 ==> exists|i: int|
                        0 <= i < table@.len() && (#[trigger] table@[i]).0 == d,
                forall|i: int, j: int|
                    0 <= i < j < table@.len() ==> precedes(#[trigger] table@[i], #[trigger] table@[j]),
            decreases CATEGORY_COUNT - c,
        {
            let n = self.counts[c];
            if n > 0 {
                let mut p: usize = 0;
                while p < table.len() && table[p].1 >= n
                    invariant
                        p <= table@.len(),
                        forall|i: int| 0 <= i < p ==> (#[trigger] table@[i]).1 >= n,
                    decreases table@.len() - p,
                {
                    p += 1;
                }
                let ghost before = table@;
                table.insert(p, (c, n));
                proof {
                    before.insert_ensures(p as int, (c, n));
                    let after = table@;
                    assert(after[p as int] == (c, n));
                    assert forall|i: int, j: int| 0 <= i < j < after.len() implies precedes(
                        #[trigger] after[i],
                        #[trigger] after[j],
                    ) by {
                        if j < p {
                            assert(after[i] == before[i] && after[j] == before[j]);
                        } else if j == p {
                            assert(after[i] == before[i]);
                        } else if i < p {
                            assert(after[i] == before[i]);
                            assert(after[j] == before[j - 1]);
                        } else if i == p {
                            assert(after[j] == before[j - 1]);
                            if j - 1 > p {
                                assert(precedes(before[p as int], before[j - 1]));
                            }
                        } else {
                            assert(after[i] == before[i - 1]);
                            assert(after[j] == before[j - 1]);
                        }
                    }
                    assert forall|i: int| 0 <= i < after.len() implies {
                        let entry = #[trigger] after[i];
                        entry.0 < c + 1 && entry.1 > 0 && entry.1 == self.counts@[entry.0 as int]
                    } by {
                        if i < p {
                            assert(after[i] == before[i]);
                        } else if i > p {
                            assert(after[i] == before[i - 1]);
                        }
                    }
                    assert forall|d: int| 0 <= d < c + 1 && #[trigger] self.counts@[d] > 0 implies exists|
                        i: int,
                    | 0 <= i < after.len() && (#[trigger] after[i]).0 == d by {
                        if d == c {
                            assert(after[p as int].0 == d);
                        } else {
                            let i0 = choose|i: int| 0 <= i < before.len() && (#[trigger] before[i]).0 == d;
                            if i0 < p {
                                assert(after[i0] == before[i0]);
                                assert(after[i0].0 == d);
                            } else {
                                assert(after[i0 + 1] == before[i0]);
                                assert(after[i0 + 1].0 == d);
                            }
                        }
                    }
                }
            }
            c += 1;
        }
        table
    }
}

/// No entry of a list of counts exceeds the sum of the list.
pub proof fn lemma_sum_bounds_entry(counts: Seq<usize>, i: int)
    requires
        0 <= i < counts.len(),
    ensures
        counts[i] <= sum_counts(counts),
    decreases counts.len(),
{
    if i < counts.len() - 1 {
        lemma_sum_bounds_entry(counts.drop_last(), i);
    }
}

/// Replacing one entry changes the sum by the difference of old and new.
pub proof fn lemma_sum_update(counts: Seq<usize>, i: int, v: usize)
    requires
        0 <= i < counts.len(),
    ensures
        sum_counts(counts.update(i, v)) == sum_counts(counts) - counts[i] + v,
    decreases counts.len(),
{
    let updated = counts.update(i, v);
    if i < counts.len() - 1 {
        lemma_sum_update(counts.drop_last(), i, v);
        assert(updated.drop_last() == counts.drop_last().update(i, v));
    } else {
        assert(updated.drop_last() == counts.drop_last());
    }
}

/// The sum of entry-wise sums is the sum of the sums.
pub proof fn lemma_sum_pointwise(a: Seq<usize>, b: Seq<usize>, c: Seq<usize>)
    requires
        a.len() == b.len(),
        a.len() == c.len(),
        forall|j: int| 0 <= j < c.len() ==> #[trigger] c[j] == a[j] + b[j],
    ensures
        sum_counts(c) == sum_counts(a) + sum_counts(b),
    decreases c.len(),
{
    if c.len() > 0 {
        lemma_sum_pointwise(a.drop_last(), b.drop_last(), c.drop_last());
    }
}

} // verus!
