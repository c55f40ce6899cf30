//! The straight test on plain rank values.

use vstd::prelude::*;

verus! {

/// The values present are exactly the five consecutive numbers starting at
/// `lo`.
pub open spec fn is_run_from(values: Seq<u8>, lo: u8) -> bool {
    &&& lo + 4 <= u8::MAX
    &&& forall|v: u8| #[trigger] values.contains(v) <==> lo <= v <= lo + 4
}

/// The values present are exactly 2, 3, 4, 5 and 14: the straight in which
/// the ace plays low.
pub open spec fn is_wheel(values: Seq<u8>) -> bool {
    forall|v: u8| #[trigger]
        values.contains(v) <==> (v == 2 || v == 3 || v == 4 || v == 5 || v == 14)
}

/// The distinct values are five consecutive numbers, or they are the wheel.
/// Repeated values do not count twice, so five values with a repeat never
/// qualify; there is no other wrap-around.
pub open spec fn is_sequence_spec(values: Seq<u8>) -> bool {
    (exists|lo: u8| is_run_from(values, lo)) || is_wheel(values)
}

/// Whether `v` occurs among `values`.
pub fn contains_value(values: &Vec<u8>, v: u8) -> (found: bool)
    ensures
        found == values@.contains(v),
{
    let mut i: usize = 0;
    while i < values.len()
        invariant
            i <= values.len(),
            forall|j: int| 0 <= j < i ==> values@[j] != v,
        decreases values.len() - i,
    {
        if values[i] == v {
            return true;
        }
        i += 1;
    }
    false
}

/// The smallest of a non-empty list of values.
pub fn min_value(values: &Vec<u8>) -> (lo: u8)
    requires
        values@.len() > 0,
    ensures
        values@.contains(lo),
        forall|j: int| 0 <= j < values@.len() ==> lo <= values@[j],
{
    let mut lo: u8 = values[0];
    let mut i: usize = 1;
    while i < values.len()
        invariant
            1 <= i <= values.len(),
            values@.contains(lo),
            forall|j: int| 0 <= j < i ==> lo <= values@[j],
        decreases values.len() - i,
    {
        if values[i] < lo {
            lo = values[i];
        }
        i += 1;
    }
    lo
}

/// Whether every value lies in `lo..=hi`.
pub fn all_within(values: &Vec<u8>, lo: u8, hi: u8) -> (ok: bool)
    ensures
        ok == (forall|j: int| 0 <= j < values@.len() ==> lo <= #[trigger] values@[j] <= hi),
{
    let mut i: usize = 0;
    while i < values.len()
        invariant
            i <= values.len(),
            forall|j: int| 0 <= j < i ==> lo <= #[trigger] values@[j] <= hi,
        decreases values.len() - i,
    {
        if values[i] < lo || values[i] > hi {
            return false;
        }
        i += 1;
    }
    true
}

/// Whether every value is one of 2, 3, 4, 5 and 14.
pub fn all_wheel_values(values: &Vec<u8>) -> (ok: bool)
    ensures
        ok == (forall|j: int|
            0 <= j < values@.len() ==> {
                let v = #[trigger] values@[j];
                v == 2 || v == 3 || v == 4 || v == 5 || v == 14
            }),
{
    let mut i: usize = 0;
    while i < values.len()
        invariant
            i <= values.len(),
            forall|j: int|
                0 <= j < i ==> {
                    let v = #[trigger] values@[j];
                    v == 2 || v == 3 || v == 4 || v == 5 || v == 14
                },
        decreases values.len() - i,
    {
        let v = values[i];
        if !(v == 2 || v == 3 || v == 4 || v == 5 || v == 14) {
            return false;
        }
        i += 1;
    }
    true
}

/// The straight test: whether the distinct values among `ranks` are five
/// consecutive numbers or the wheel 2, 3, 4, 5, 14.
pub fn is_sequence(ranks: Vec<u8>) -> (b: bool)
    ensures
        b == is_sequence_spec(ranks@),
{
    if ranks.len() == 0 {
        proof {
            assert(!ranks@.contains(2u8));
            assert forall|lo: u8| !is_run_from(ranks@, lo) by {
                assert(!ranks@.contains(lo));
            }
        }
        return false;
    }
    let lo = min_value(&ranks);
    let is_regular_straight = lo <= 251 && all_within(&ranks, lo, lo + 4) && contains_value(
        &ranks,
        lo + 1,
    ) && contains_value(&ranks, lo + 2) && contains_value(&ranks, lo + 3) && contains_value(
        &ranks,
        lo + 4,
    );
    let is_wheel_straight = all_wheel_values(&ranks) && contains_value(&ranks, 2)
        && contains_value(&ranks, 3) && contains_value(&ranks, 4) && contains_value(&ranks, 5)
        && contains_value(&ranks, 14);
    proof {
        if is_regular_straight {
            assert(is_run_from(ranks@, lo));
        } else {
            assert forall|lo2: u8| !is_run_from(ranks@, lo2) by {
                if is_run_from(ranks@, lo2) {
                    assert(ranks@.contains(lo2));
                    assert(lo <= lo2);
                    assert(ranks@.contains(lo));
                    assert(lo2 == lo);
                    assert(ranks@.contains((lo + 1) as u8));
                    assert(ranks@.contains((lo + 2) as u8));
                    assert(ranks@.contains((lo + 3) as u8));
                    assert(ranks@.contains((lo + 4) as u8));
                    assert forall|j: int| 0 <= j < ranks@.len() implies lo <= #[trigger] ranks@[j]
                        <= lo + 4 by {
                        assert(ranks@.contains(ranks@[j]));
                    }
                }
            }
        }
        if is_wheel_straight {
            assert(is_wheel(ranks@));
        } else {
            if is_wheel(ranks@) {
                assert(ranks@.contains(2u8));
                assert(ranks@.contains(3u8));
                assert(ranks@.contains(4u8));
                assert(ranks@.contains(5u8));
                assert(ranks@.contains(14u8));
                assert forall|j: int| 0 <= j < ranks@.len() implies {
                    let v = #[trigger] ranks@[j];
                    v == 2 || v == 3 || v == 4 || v == 5 || v == 14
                } by {
                    assert(ranks@.contains(ranks@[j]));
                }
            }
        }
    }
    is_regular_straight || is_wheel_straight
}

} // verus!
