//! Register pressure: how many registers the live values hold at each instruction.

use crate::live_range::LiveRange;
use crate::ratio::Ratio;
use vstd::prelude::*;

verus! {

/// Register pressure at `point`: the registers of all values that are alive there.
pub open spec fn pressure(loads: Seq<(LiveRange, u32)>, point: u32) -> nat
    decreases loads.len(),
{
    if loads.len() == 0 {
        0
    } else {
        let rest = pressure(loads.drop_last(), point);
        if loads.last().0.covers(point) {
            rest + loads.last().1 as nat
        } else {
            rest
        }
    }
}

/// The pressure is representable in 32 bits at every point.
pub open spec fn pressure_fits(loads: Seq<(LiveRange, u32)>) -> bool {
    forall|point: u32| #[trigger] pressure(loads, point) <= u32::MAX
}

/// `peak` is the largest pressure over all points.
pub open spec fn is_peak(loads: Seq<(LiveRange, u32)>, peak: nat) -> bool {
    &&& forall|point: u32| #[trigger] pressure(loads, point) <= peak
    &&& exists|point: u32| #[trigger] pressure(loads, point) == peak
}

/// The end of the range that ends last.
pub open spec fn last_end(loads: Seq<(LiveRange, u32)>) -> u32
    decreases loads.len(),
{
    if loads.len() == 0 {
        0
    } else {
        let rest = last_end(loads.drop_last());
        if rest < loads.last().0.end {
            loads.last().0.end
        } else {
            rest
        }
    }
}

/// Sum over all values of range length times register count.
pub open spec fn area(loads: Seq<(LiveRange, u32)>) -> int
    decreases loads.len(),
{
    if loads.len() == 0 {
        0
    } else {
        area(loads.drop_last()) + (loads.last().0.end - loads.last().0.start) * loads.last().1
    }
}

/// Sum of the pressure over the points before `bound`.
pub open spec fn pressure_sum(loads: Seq<(LiveRange, u32)>, bound: nat) -> nat
    decreases bound,
{
    if bound == 0 {
        0
    } else {
        pressure_sum(loads, (bound - 1) as nat) + pressure(loads, (bound - 1) as u32)
    }
}

/// All ranges run forwards.
pub open spec fn all_valid(loads: Seq<(LiveRange, u32)>) -> bool {
    forall|i: int| 0 <= i < loads.len() ==> (#[trigger] loads[i]).0.valid()
}

/// `spots` lists, by ascending point, every point whose pressure exceeds `threshold`, each with
/// its pressure.
pub open spec fn lists_hotspots(
    spots: Seq<(u32, u32)>,
    loads: Seq<(LiveRange, u32)>,
    threshold: u32,
) -> bool {
    &&& forall|i: int, j: int| 0 <= i < j < spots.len() ==> (#[trigger] spots[i]).0 < (
    #[trigger] spots[j]).0
    &&& forall|i: int|
        0 <= i < spots.len() ==> (#[trigger] spots[i]).1 > threshold && spots[i].1 == pressure(
            loads,
            spots[i].0,
        )
    &&& forall|point: u32| #[trigger]
        pressure(loads, point) > threshold ==> exists|i: int|
            0 <= i < spots.len() && (#[trigger] spots[i]).0 == point
}

/// A prefix of the values presses no harder than all of them.
pub proof fn lemma_pressure_of_prefix(loads: Seq<(LiveRange, u32)>, n: int, point: u32)
    requires
        0 <= n <= loads.len(),
    ensures
        pressure(loads.take(n), point) <= pressure(loads, point),
    decreases loads.len() - n,
{
    if n == loads.len() {
        assert(loads.take(n) =~= loads);
    } else {
        lemma_pressure_of_prefix(loads, n + 1, point);
        assert(loads.take(n + 1).drop_last() =~= loads.take(n));
    }
}

/// Every range ends at or before the last end.
proof fn lemma_last_end_bounds(loads: Seq<(LiveRange, u32)>, i: int)
    requires
        0 <= i < loads.len(),
    ensures
        loads[i].0.end <= last_end(loads),
    decreases loads.len(),
{
    if i < loads.len() - 1 {
        lemma_last_end_bounds(loads.drop_last(), i);
    }
}

/// Nothing is alive at the last end or later.
pub proof fn lemma_no_pressure_after_last_end(loads: Seq<(LiveRange, u32)>, point: u32)
    requires
        last_end(loads) <= point,
    ensures
        pressure(loads, point) == 0,
    decreases loads.len(),
{
    if loads.len() > 0 {
        lemma_no_pressure_after_last_end(loads.drop_last(), point);
    }
}

/// The last end is the largest end: no range ends after it and, where there are ranges, one ends
/// exactly there. Without ranges it is zero.
pub proof fn lemma_last_end_is_the_largest_end(loads: Seq<(LiveRange, u32)>)
    ensures
        forall|i: int| 0 <= i < loads.len() ==> (#[trigger] loads[i]).0.end <= last_end(loads),
        loads.len() > 0 ==> exists|i: int|
            0 <= i < loads.len() && (#[trigger] loads[i]).0.end == last_end(loads),
        loads.len() == 0 ==> last_end(loads) == 0,
    decreases loads.len(),
{
    assert forall|i: int| 0 <= i < loads.len() implies (#[trigger] loads[i]).0.end <= last_end(
        loads,
    ) by {
        lemma_last_end_bounds(loads, i);
    }
    if loads.len() > 0 {
        let rest = loads.drop_last();
        lemma_last_end_is_the_largest_end(rest);
        if last_end(loads) == loads.last().0.end {
            assert(loads[loads.len() - 1].0.end == last_end(loads));
        } else {
            let i = choose|i: int|
                0 <= i < rest.len() && (#[trigger] rest[i]).0.end == last_end(rest);
            assert(loads[i].0.end == last_end(loads));
        }
    }
}

/// The pressure of a single value: its registers while it is alive, and nothing before or after.
pub proof fn lemma_pressure_of_one_value(range: LiveRange, count: u32, point: u32)
    ensures
        range.start <= point && point < range.end ==> pressure(seq![(range, count)], point)
            == count,
        point < range.start || range.end <= point ==> pressure(seq![(range, count)], point) == 0,
        pressure(Seq::<(LiveRange, u32)>::empty(), point) == 0,
{
    let one = seq![(range, count)];
    assert(one.last() == (range, count));
    assert(one.drop_last().len() == 0);
    assert(pressure(one.drop_last(), point) == 0);
}

/// The pressures of two groups of values add up.
pub proof fn lemma_pressures_add_up(
    a: Seq<(LiveRange, u32)>,
    b: Seq<(LiveRange, u32)>,
    point: u32,
)
    ensures
        pressure(a + b, point) == pressure(a, point) + pressure(b, point),
    decreases b.len(),
{
    if b.len() == 0 {
        assert(a + b =~= a);
    } else {
        assert((a + b).drop_last() =~= a + b.drop_last());
        assert((a + b).last() == b.last());
        lemma_pressures_add_up(a, b.drop_last(), point);
    }
}

/// The area of a single value is the length of its range times its registers.
pub proof fn lemma_area_of_one_value(range: LiveRange, count: u32)
    ensures
        area(seq![(range, count)]) == (range.end - range.start) * count,
        area(Seq::<(LiveRange, u32)>::empty()) == 0,
{
    let one = seq![(range, count)];
    assert(one.last() == (range, count));
    assert(one.drop_last().len() == 0);
    assert(area(one.drop_last()) == 0);
}

/// The areas of two groups of values add up.
pub proof fn lemma_areas_add_up(a: Seq<(LiveRange, u32)>, b: Seq<(LiveRange, u32)>)
    ensures
        area(a + b) == area(a) + area(b),
    decreases b.len(),
{
    if b.len() == 0 {
        assert(a + b =~= a);
    } else {
        assert((a + b).drop_last() =~= a + b.drop_last());
        assert((a + b).last() == b.last());
        lemma_areas_add_up(a, b.drop_last());
    }
}

/// The pressure fits unless it is too large at some point, and a group of values is valid unless
/// one of its ranges runs backwards.
pub proof fn lemma_what_can_be_estimated(loads: Seq<(LiveRange, u32)>)
    ensures
        pressure_fits(loads) <==> !exists|point: u32| #[trigger]
            pressure(loads, point) > u32::MAX,
        all_valid(loads) <==> !exists|i: int|
            0 <= i < loads.len() && (#[trigger] loads[i]).0.end < loads[i].0.start,
{
    if !pressure_fits(loads) {
        let point = choose|point: u32| #[trigger] pressure(loads, point) > u32::MAX;
        assert(pressure(loads, point) > u32::MAX);
    }
    if all_valid(loads) {
        assert forall|i: int| 0 <= i < loads.len() implies (#[trigger] loads[i]).0.end
            >= loads[i].0.start by {
            assert(loads[i].0.valid());
        }
    } else {
        let i = choose|i: int| 0 <= i < loads.len() && !(#[trigger] loads[i]).0.valid();
        assert(loads[i].0.end < loads[i].0.start);
    }
}

/// There is one peak: a pressure that is reached and nowhere exceeded.
pub proof fn lemma_peak_is_reached_and_not_exceeded(loads: Seq<(LiveRange, u32)>, peak: nat)
    ensures
        is_peak(loads, peak) <==> (forall|point: u32| #[trigger] pressure(loads, point) <= peak)
            && !(forall|point: u32| #[trigger] pressure(loads, point) < peak),
{
    if is_peak(loads, peak) {
        let point = choose|point: u32| #[trigger] pressure(loads, point) == peak;
        assert(pressure(loads, point) == peak);
    } else if forall|point: u32| #[trigger] pressure(loads, point) <= peak {
        assert forall|point: u32| #[trigger] pressure(loads, point) < peak by {
            assert(pressure(loads, point) <= peak);
        }
    }
}

/// The end of the range that ends last; 0 if there is none.
fn latest_end(ranges: &[(LiveRange, u32)]) -> (end: u32)
    ensures
        end == last_end(ranges@),
{
    let mut end: u32 = 0;
    let mut k: usize = 0;
    while k < ranges.len()
        invariant
            k <= ranges.len(),
            end == last_end(ranges@.take(k as int)),
        decreases ranges.len() - k,
    {
        assert(ranges@.take(k + 1).drop_last() =~= ranges@.take(k as int));
        if end < ranges[k].0.end {
            end = ranges[k].0.end;
        }
        k = k + 1;
    }
    assert(ranges@.take(k as int) =~= ranges@);
    end
}

/// The pressure at every point before the last end.
fn pressure_profile(ranges: &[(LiveRange, u32)]) -> (profile: Vec<u32>)
    requires
        pressure_fits(ranges@),
    ensures
        profile.len() == last_end(ranges@),
        forall|i: int|
            0 <= i < profile.len() ==> #[trigger] profile@[i] == pressure(ranges@, i as u32),
{
    let max_end = latest_end(ranges);
    let mut profile: Vec<u32> = vec![0u32; max_end as usize];
    let mut k: usize = 0;
    assert(ranges@.take(0) =~= Seq::empty());
    while k < ranges.len()
        invariant
            k <= ranges.len(),
            pressure_fits(ranges@),
            max_end == last_end(ranges@),
            profile.len() == max_end,
            forall|j: int|
                0 <= j < max_end ==> #[trigger] profile@[j] == pressure(
                    ranges@.take(k as int),
                    j as u32,
                ),
        decreases ranges.len() - k,
    {
        let (range, count) = ranges[k];
        let ghost before = ranges@.take(k as int);
        let ghost after = ranges@.take(k + 1);
        proof {
            assert(after.drop_last() =~= before);
            lemma_last_end_bounds(ranges@, k as int);
        }
        let mut i: u32 = range.start;
        while i < range.end
            invariant
                k < ranges.len(),
                before == ranges@.take(k as int),
                after == ranges@.take(k + 1),
                after.drop_last() == before,
                after.last() == (range, count),
                pressure_fits(ranges@),
                range.end <= max_end,
                range.start <= i,
                profile.len() == max_end,
                forall|j: int|
                    0 <= j < max_end ==> #[trigger] profile@[j] == (if range.start <= j < i {
                        pressure(after, j as u32)
                    } else {
                        pressure(before, j as u32)
                    }),
            decreases range.end - i,
        {
            proof {
                lemma_pressure_of_prefix(ranges@, k + 1, i);
                assert(pressure(ranges@, i) <= u32::MAX);
                assert(pressure(before, i) + count == pressure(after, i));
            }
            profile[i as usize] = profile[i as usize] + count;
            i = i + 1;
        }
        k = k + 1;
    }
    assert(ranges@.take(k as int) =~= ranges@);
    profile
}

/// Register pressure estimator.
pub struct RegisterPressureEstimator;

impl RegisterPressureEstimator {
    /// The maximum register pressure across all program points.
    pub fn max_pressure(ranges: &[(LiveRange, u32)]) -> (peak: u32)
        requires
            pressure_fits(ranges@),
        ensures
            is_peak(ranges@, peak as nat),
            forall|point: u32| #[trigger] pressure(ranges@, point) <= peak,
            exists|point: u32| #[trigger] pressure(ranges@, point) == peak,
    {
        let profile = pressure_profile(ranges);
        let mut peak: u32 = 0;
        let mut k: usize = 0;
        let ghost mut witness: u32 = last_end(ranges@);
        proof {
            lemma_no_pressure_after_last_end(ranges@, witness);
        }
        while k < profile.len()
            invariant
                k <= profile.len(),
                profile.len() == last_end(ranges@),
                forall|i: int|
                    0 <= i < profile.len() ==> #[trigger] profile@[i] == pressure(
                        ranges@,
                        i as u32,
                    ),
                forall|point: u32| point < k ==> #[trigger] pressure(ranges@, point) <= peak,
                pressure(ranges@, witness) == peak,
            decreases profile.len() - k,
        {
            assert(profile@[k as int] == pressure(ranges@, k as u32));
            if peak < profile[k] {
                peak = profile[k];
                proof {
                    witness = k as u32;
                }
            }
            k = k + 1;
        }
        proof {
            assert forall|point: u32| #[trigger] pressure(ranges@, point) <= peak by {
                if point >= last_end(ranges@) {
                    lemma_no_pressure_after_last_end(ranges@, point);
                }
            }
        }
        peak
    }

    /// The average register pressure over the program points before the last range ends: the
    /// exact fraction, and zero where there is no such point.
    pub fn avg_pressure(ranges: &[(LiveRange, u32)]) -> (average: Ratio)
        requires
            last_end(ranges@) == 0 || all_valid(ranges@) && area(ranges@) <= u64::MAX,
        ensures
            last_end(ranges@) == 0 ==> average.numerator == 0 && average.denominator == 1,
            last_end(ranges@) != 0 ==> average.numerator == area(ranges@) && average.denominator
                == last_end(ranges@),
            (exists|i: int| 0 <= i < ranges.len() && (#[trigger] ranges@[i]).0.end > 0) ==> {
                &&& average.numerator == area(ranges@)
                &&& forall|i: int|
                    0 <= i < ranges.len() ==> (#[trigger] ranges@[i]).0.end <= average.denominator
                &&& exists|i: int|
                    0 <= i < ranges.len() && (#[trigger] ranges@[i]).0.end == average.denominator
            },
    {
        proof {
            lemma_last_end_is_the_largest_end(ranges@);
        }
        let max_end = latest_end(ranges);
        if max_end == 0 {
            return Ratio { numerator: 0, denominator: 1 };
        }
        let mut total: u64 = 0;
        let mut k: usize = 0;
        while k < ranges.len()
            invariant
                k <= ranges.len(),
                all_valid(ranges@),
                area(ranges@) <= u64::MAX,
                total == area(ranges@.take(k as int)),
            decreases ranges.len() - k,
        {
            let (range, count) = ranges[k];
            let length = range.len();
            proof {
                let after = ranges@.take(k + 1);
                assert(after.drop_last() =~= ranges@.take(k as int));
                assert(after.last() == ranges@[k as int]);
                lemma_area_of_prefix(ranges@, k + 1);
                assert(0 <= length * count <= u64::MAX) by (nonlinear_arith)
                    requires
                        0 <= length <= u32::MAX,
                        0 <= count <= u32::MAX,
                ;
            }
            total = total + (length as u64) * (count as u64);
            k = k + 1;
        }
        assert(ranges@.take(k as int) =~= ranges@);
        Ratio { numerator: total, denominator: max_end as u64 }
    }

    /// The program points where the pressure exceeds `threshold`, each with its pressure.
    pub fn pressure_hotspots(ranges: &[(LiveRange, u32)], threshold: u32) -> (spots: Vec<
        (u32, u32),
    >)
        requires
            pressure_fits(ranges@),
        ensures
            lists_hotspots(spots@, ranges@, threshold),
            forall|i: int, j: int|
                0 <= i < j < spots.len() ==> (#[trigger] spots@[i]).0 < (#[trigger] spots@[j]).0,
            forall|i: int|
                0 <= i < spots.len() ==> (#[trigger] spots@[i]).1 > threshold && spots@[i].1
                    == pressure(ranges@, spots@[i].0),
            forall|point: u32| #[trigger]
                pressure(ranges@, point) > threshold ==> exists|i: int|
                    0 <= i < spots.len() && (#[trigger] spots@[i]).0 == point,
    {
        let profile = pressure_profile(ranges);
        let mut spots: Vec<(u32, u32)> = Vec::new();
        let mut k: usize = 0;
        while k < profile.len()
            invariant
                k <= profile.len(),
                profile.len() == last_end(ranges@),
                forall|i: int|
                    0 <= i < profile.len() ==> #[trigger] profile@[i] == pressure(
                        ranges@,
                        i as u32,
                    ),
                forall|i: int| 0 <= i < spots.len() ==> (#[trigger] spots@[i]).0 < k,
                forall|i: int, j: int|
                    0 <= i < j < spots.len() ==> (#[trigger] spots@[i]).0 < (#[trigger] spots@[j]).0,
                forall|i: int|
                    0 <= i < spots.len() ==> (#[trigger] spots@[i]).1 > threshold && spots@[i].1
                        == pressure(ranges@, spots@[i].0),
                forall|point: u32|
                    point < k && #[trigger] pressure(ranges@, point) > threshold ==> exists|i: int|
                        0 <= i < spots.len() && (#[trigger] spots@[i]).0 == point,
            decreases profile.len() - k,
        {
            let ghost earlier = spots@;
            assert(profile@[k as int] == pressure(ranges@, k as u32));
            if profile[k] > threshold {
                spots.push((k as u32, profile[k]));
                proof {
                    assert(spots@[earlier.len() as int].0 == k);
                    assert forall|point: u32|
                        point < k + 1 && #[trigger] pressure(ranges@, point)
                            > threshold implies exists|i: int|
                        0 <= i < spots.len() && (#[trigger] spots@[i]).0 == point by {
                        if point < k {
                            let i = choose|i: int|
                                0 <= i < earlier.len() && (#[trigger] earlier[i]).0 == point;
                            assert(spots@[i].0 == point);
                        }
                    }
                }
            }
            k = k + 1;
        }
        proof {
            assert forall|point: u32| #[trigger] pressure(ranges@, point) > threshold implies point
                < k by {
                if point >= k {
                    lemma_no_pressure_after_last_end(ranges@, point);
                }
            }
        }
        spots
    }
}

/// A prefix of the values covers no larger area than all of them.
proof fn lemma_area_of_prefix(loads: Seq<(LiveRange, u32)>, n: int)
    requires
        0 <= n <= loads.len(),
        all_valid(loads),
    ensures
        0 <= area(loads.take(n)) <= area(loads),
    decreases loads.len(),
{
    if loads.len() > 0 {
        let rest = loads.drop_last();
        let last = loads.last();
        assert(all_valid(rest)) by {
            assert forall|i: int| 0 <= i < rest.len() implies (#[trigger] rest[i]).0.valid() by {
                assert(rest[i] == loads[i]);
            }
        }
        assert(loads[loads.len() - 1].0.valid());
        assert(0 <= (last.0.end - last.0.start) * last.1) by (nonlinear_arith)
            requires
                last.0.end >= last.0.start,
                last.1 >= 0,
        ;
        if n == loads.len() {
            lemma_area_of_prefix(rest, n - 1);
            assert(rest.take(n - 1) =~= rest);
            assert(loads.take(n) =~= loads);
        } else {
            lemma_area_of_prefix(rest, n);
            assert(loads.take(n) =~= rest.take(n));
        }
    } else {
        assert(loads.take(n) =~= loads);
    }
}

/// There is a hotspot exactly when the peak exceeds the threshold.
pub proof fn lemma_hotspots_iff_peak_exceeds(
    loads: Seq<(LiveRange, u32)>,
    peak: nat,
    spots: Seq<(u32, u32)>,
    threshold: u32,
)
    requires
        is_peak(loads, peak),
        lists_hotspots(spots, loads, threshold),
    ensures
        spots.len() > 0 <==> peak > threshold,
{
    if spots.len() > 0 {
        assert(spots[0].1 == pressure(loads, spots[0].0));
    }
    let point = choose|point: u32| #[trigger] pressure(loads, point) == peak;
    if peak > threshold {
        assert(pressure(loads, point) > threshold);
    }
}

/// The points before `bound` that `[start, end)` holds.
spec fn points_before(range: LiveRange, bound: nat) -> int {
    let end = if bound < range.end {
        bound as int
    } else {
        range.end as int
    };
    if end < range.start {
        0
    } else {
        end - range.start
    }
}

proof fn lemma_pressure_sum_step(loads: Seq<(LiveRange, u32)>, bound: nat)
    requires
        loads.len() > 0,
        bound <= u32::MAX,
    ensures
        pressure_sum(loads, bound) == pressure_sum(loads.drop_last(), bound) + points_before(
            loads.last().0,
            bound,
        ) * loads.last().1,
    decreases bound,
{
    let range = loads.last().0;
    let count = loads.last().1;
    if bound == 0 {
        assert(points_before(range, 0) * count == 0) by (nonlinear_arith)
            requires
                points_before(range, 0) == 0,
        ;
    } else {
        let less = (bound - 1) as nat;
        lemma_pressure_sum_step(loads, less);
        let a = points_before(range, bound);
        let b = points_before(range, less);
        if range.covers(less as u32) {
            assert(a * count == b * count + count) by (nonlinear_arith)
                requires
                    a == b + 1,
            ;
        } else {
            assert(a == b);
        }
    }
}

proof fn lemma_pressure_sum_is_area(loads: Seq<(LiveRange, u32)>, bound: nat)
    requires
        all_valid(loads),
        last_end(loads) <= bound <= u32::MAX,
    ensures
        pressure_sum(loads, bound) == area(loads),
    decreases loads.len(),
{
    if loads.len() == 0 {
        lemma_pressure_sum_of_nothing(loads, bound);
    } else {
        let rest = loads.drop_last();
        assert(all_valid(rest)) by {
            assert forall|i: int| 0 <= i < rest.len() implies (#[trigger] rest[i]).0.valid() by {
                assert(rest[i] == loads[i]);
            }
        }
        assert(loads[loads.len() - 1].0.valid());
        lemma_pressure_sum_step(loads, bound);
        lemma_pressure_sum_is_area(rest, bound);
    }
}

proof fn lemma_pressure_sum_of_nothing(loads: Seq<(LiveRange, u32)>, bound: nat)
    requires
        loads.len() == 0,
    ensures
        pressure_sum(loads, bound) == 0,
    decreases bound,
{
    if bound > 0 {
        lemma_pressure_sum_of_nothing(loads, (bound - 1) as nat);
    }
}

proof fn lemma_pressure_sum_bounded(loads: Seq<(LiveRange, u32)>, peak: nat, bound: nat)
    requires
        is_peak(loads, peak),
    ensures
        pressure_sum(loads, bound) <= peak * bound,
    decreases bound,
{
    if bound > 0 {
        lemma_pressure_sum_bounded(loads, peak, (bound - 1) as nat);
        assert(pressure(loads, (bound - 1) as u32) <= peak);
        assert(peak * bound == peak * (bound - 1) + peak) by (nonlinear_arith);
    }
}

/// The average is one: its numerator is the sum of the pressure over all points before the last
/// end, and it does not exceed the peak.
pub proof fn lemma_average_is_mean_pressure(loads: Seq<(LiveRange, u32)>, peak: nat)
    requires
        all_valid(loads),
        is_peak(loads, peak),
    ensures
        area(loads) == pressure_sum(loads, last_end(loads) as nat),
        area(loads) <= peak * last_end(loads),
{
    lemma_pressure_sum_is_area(loads, last_end(loads) as nat);
    lemma_pressure_sum_bounded(loads, peak, last_end(loads) as nat);
}

} // verus!
