//! Spill costs, as exact integers.

use crate::live_range::LiveRange;
use crate::request::{AllocationRequest, VirtualReg, TRITS_PER_REGISTER};
use vstd::prelude::*;

verus! {

/// Live range length times register count.
pub open spec fn cost(range: LiveRange, register_count: nat) -> int {
    (range.end - range.start) * register_count
}

/// The cost, tenfold for each loop around the value and once more for each reuse.
pub open spec fn weighted_cost(
    range: LiveRange,
    register_count: nat,
    reuse_count: nat,
    loop_depth: nat,
) -> int {
    cost(range, register_count) * vstd::arithmetic::power::pow(10, loop_depth) * (reuse_count + 1)
}

/// Sum of the costs of the given requests.
pub open spec fn total_cost(requests: Seq<AllocationRequest>) -> int
    decreases requests.len(),
{
    if requests.len() == 0 {
        0
    } else {
        total_cost(requests.drop_last()) + cost(
            requests.last().live_range,
            requests.last().demand(),
        )
    }
}

/// Spill cost calculation.
pub struct SpillCostCalculator;

impl SpillCostCalculator {
    /// Simple spill cost: live range length times register count.
    /// Longer-lived, wider values are more expensive to spill.
    pub fn spill_cost(live_range: &LiveRange, register_count: u32) -> (result: u64)
        requires
            live_range.valid(),
        ensures
            result == cost(*live_range, register_count as nat),
            result == (live_range.end - live_range.start) * register_count,
    {
        let length = live_range.len();
        assert(0 <= length * register_count <= u64::MAX) by (nonlinear_arith)
            requires
                0 <= length <= u32::MAX,
                0 <= register_count <= u32::MAX,
        ;
        (length as u64) * (register_count as u64)
    }

    /// Weighted spill cost considering reuse frequency. The weight of the loop nest has to fit in
    /// 32 bits, which it does up to a depth of nine.
    pub fn weighted_spill_cost(
        live_range: &LiveRange,
        register_count: u32,
        reuse_count: u32,
        loop_depth: u32,
    ) -> (result: u128)
        requires
            live_range.valid(),
            loop_depth <= 9,
            reuse_count < u32::MAX,
        ensures
            result == weighted_cost(
                *live_range,
                register_count as nat,
                reuse_count as nat,
                loop_depth as nat,
            ),
            result == (live_range.end - live_range.start) * register_count
                * vstd::arithmetic::power::pow(10, loop_depth as nat) * (reuse_count + 1),
    {
        let base: u64 = Self::spill_cost(live_range, register_count);
        let mut loop_factor: u32 = 1;
        let mut depth: u32 = 0;
        proof {
            reveal(vstd::arithmetic::power::pow);
        }
        while depth < loop_depth
            invariant
                depth <= loop_depth <= 9,
                loop_factor == vstd::arithmetic::power::pow(10, depth as nat),
            decreases loop_depth - depth,
        {
            proof {
                lemma_ten_to_the(depth as nat);
                lemma_ten_to_the((depth + 1) as nat);
                reveal(vstd::arithmetic::power::pow);
            }
            loop_factor = loop_factor * 10;
            depth = depth + 1;
        }
        let reuse_factor: u32 = reuse_count + 1;
        proof {
            lemma_ten_to_the(loop_depth as nat);
            assert(0 <= base * loop_factor <= 0xffff_ffff_ffff_ffff * 1_000_000_000)
                by (nonlinear_arith)
                requires
                    0 <= base <= 0xffff_ffff_ffff_ffff,
                    0 <= loop_factor <= 1_000_000_000,
            ;
            let weighted = base * loop_factor;
            assert(0 <= weighted * reuse_factor <= 0xffff_ffff_ffff_ffff * 1_000_000_000
                * 0xffff_ffff) by (nonlinear_arith)
                requires
                    0 <= weighted <= 0xffff_ffff_ffff_ffff * 1_000_000_000,
                    0 <= reuse_factor <= 0xffff_ffff,
            ;
        }
        (base as u128) * (loop_factor as u128) * (reuse_factor as u128)
    }

    /// Select the best candidate for spilling (lowest cost; the first one among equals).
    pub fn select_spill_candidate(candidates: &[(VirtualReg, LiveRange, u32, u128)]) -> (result:
        Option<VirtualReg>)
        ensures
            result is None <==> candidates.len() == 0,
            result matches Some(vreg) ==> exists|i: int|
                0 <= i < candidates.len() && cheapest(candidates@, i) && (
                #[trigger] candidates@[i]).0 == vreg,
            result matches Some(vreg) ==> exists|i: int|
                0 <= i < candidates.len() && (#[trigger] candidates@[i]).0 == vreg && forall|j: int|
                    0 <= j < candidates.len() ==> candidates@[i].3 <= (#[trigger] candidates@[j]).3
                        && (j < i ==> candidates@[i].3 < candidates@[j].3),
    {
        if candidates.len() == 0 {
            return None;
        }
        let mut best: usize = 0;
        let mut k: usize = 1;
        while k < candidates.len()
            invariant
                best < k <= candidates.len(),
                forall|j: int|
                    0 <= j < k ==> candidates@[best as int].3 <= (#[trigger] candidates@[j]).3,
                forall|j: int|
                    0 <= j < best ==> candidates@[best as int].3 < (#[trigger] candidates@[j]).3,
            decreases candidates.len() - k,
        {
            if candidates[k].3 < candidates[best].3 {
                best = k;
            }
            k = k + 1;
        }
        assert(cheapest(candidates@, best as int));
        Some(candidates[best].0)
    }

    /// Estimate total spill cost for all spilled allocations.
    pub fn total_spill_cost(spilled: &[AllocationRequest]) -> (total: u128)
        requires
            forall|i: int|
                0 <= i < spilled.len() ==> (#[trigger] spilled@[i]).live_range.valid()
                    && spilled@[i].countable(),
        ensures
            total == total_cost(spilled@),
    {
        let mut total: u128 = 0;
        let mut k: usize = 0;
        while k < spilled.len()
            invariant
                k <= spilled.len(),
                forall|i: int|
                    0 <= i < spilled.len() ==> (#[trigger] spilled@[i]).live_range.valid()
                        && spilled@[i].countable(),
                total == total_cost(spilled@.take(k as int)),
                total <= k * 0xffff_ffff_ffff_ffff,
            decreases spilled.len() - k,
        {
            let req = spilled[k];
            assert(spilled@[k as int].live_range.valid());
            let one: u64 = Self::spill_cost(&req.live_range, req.registers_needed());
            proof {
                assert(spilled@.take(k + 1).drop_last() =~= spilled@.take(k as int));
                assert((k + 1) * 0xffff_ffff_ffff_ffff <= 0xffff_ffff_ffff_ffff
                    * 0xffff_ffff_ffff_ffff) by (nonlinear_arith)
                    requires
                        0 <= k < 0xffff_ffff_ffff_ffff,
                ;
            }
            total = total + one as u128;
            k = k + 1;
        }
        assert(spilled@.take(k as int) =~= spilled@);
        total
    }
}

/// Candidate `i` costs no more than any other, and less than those before it.
pub open spec fn cheapest(candidates: Seq<(VirtualReg, LiveRange, u32, u128)>, i: int) -> bool {
    &&& forall|j: int|
        0 <= j < candidates.len() ==> candidates[i].3 <= (#[trigger] candidates[j]).3
    &&& forall|j: int| 0 <= j < i ==> candidates[i].3 < (#[trigger] candidates[j]).3
}

proof fn lemma_ten_to_the(depth: nat)
    requires
        depth <= 9,
    ensures
        1 <= vstd::arithmetic::power::pow(10, depth) <= 1_000_000_000,
{
    reveal_with_fuel(vstd::arithmetic::power::pow, 10);
}

/// A candidate is cheapest exactly if no other one undercuts it and none before it costs the same;
/// so there is only one.
pub proof fn lemma_one_candidate_is_cheapest(
    candidates: Seq<(VirtualReg, LiveRange, u32, u128)>,
    i: int,
    j: int,
)
    requires
        0 <= i < candidates.len(),
        0 <= j < candidates.len(),
    ensures
        cheapest(candidates, i) ==> candidates[i].3 <= candidates[j].3,
        cheapest(candidates, i) && cheapest(candidates, j) ==> i == j,
        !cheapest(candidates, i) ==> exists|k: int|
            0 <= k < candidates.len() && ((#[trigger] candidates[k]).3 < candidates[i].3 || k < i
                && candidates[k].3 == candidates[i].3),
{
    if cheapest(candidates, i) && cheapest(candidates, j) {
        if i < j {
            assert(candidates[j].3 < candidates[i].3);
        } else if j < i {
            assert(candidates[i].3 < candidates[j].3);
        }
    }
    if !cheapest(candidates, i) {
        if forall|k: int|
            0 <= k < candidates.len() ==> candidates[i].3 <= (#[trigger] candidates[k]).3 {
            let k = choose|k: int| 0 <= k < i && !(candidates[i].3 < (#[trigger] candidates[k]).3);
            assert(candidates[k].3 == candidates[i].3);
        } else {
            let k = choose|k: int|
                0 <= k < candidates.len() && !(candidates[i].3 <= (#[trigger] candidates[k]).3);
            assert(candidates[k].3 < candidates[i].3);
        }
    }
}

/// The total of one request is the length of its live range times the least number of registers
/// that hold its trits, whatever its other fields. Without requests the total is zero.
pub proof fn lemma_total_of_one_request(req: AllocationRequest, registers: nat)
    requires
        registers * TRITS_PER_REGISTER >= req.trit_count,
        registers == 0 || (registers - 1) * TRITS_PER_REGISTER < req.trit_count,
    ensures
        total_cost(seq![req]) == (req.live_range.end - req.live_range.start) * registers,
        total_cost(Seq::<AllocationRequest>::empty()) == 0,
{
    let one = seq![req];
    assert(one.last() == req);
    assert(one.drop_last().len() == 0);
    assert(total_cost(one.drop_last()) == 0);
    assert(req.demand() == registers);
}

/// The total of two lists of requests put together is the sum of their totals.
pub proof fn lemma_totals_add_up(a: Seq<AllocationRequest>, b: Seq<AllocationRequest>)
    ensures
        total_cost(a + b) == total_cost(a) + total_cost(b),
    decreases b.len(),
{
    if b.len() == 0 {
        assert(a + b =~= a);
    } else {
        assert((a + b).drop_last() =~= a + b.drop_last());
        assert((a + b).last() == b.last());
        lemma_totals_add_up(a, b.drop_last());
    }
}

/// A longer-lived value is dearer, and so is a wider one.
pub proof fn lemma_longer_and_wider_cost_more(
    a: LiveRange,
    a_registers: nat,
    b: LiveRange,
    b_registers: nat,
)
    requires
        a.valid(),
        b.valid(),
        a.end - a.start <= b.end - b.start,
        a_registers <= b_registers,
    ensures
        cost(a, a_registers) <= cost(b, b_registers),
        a.end - a.start < b.end - b.start && b_registers > 0 ==> cost(a, a_registers) < cost(
            b,
            b_registers,
        ),
        a_registers < b_registers && b.start < b.end ==> cost(a, a_registers) < cost(
            b,
            b_registers,
        ),
{
    let x = a.end - a.start;
    let y = b.end - b.start;
    assert(x * a_registers <= y * b_registers) by (nonlinear_arith)
        requires
            0 <= x <= y,
            0 <= a_registers <= b_registers,
    ;
    if x < y && b_registers > 0 {
        assert(x * a_registers < y * b_registers) by (nonlinear_arith)
            requires
                0 <= x < y,
                0 <= a_registers <= b_registers,
                b_registers > 0,
        ;
    }
    if a_registers < b_registers && y > 0 {
        assert(x * a_registers < y * b_registers) by (nonlinear_arith)
            requires
                0 <= x <= y,
                0 <= a_registers < b_registers,
                y > 0,
        ;
    }
}

/// Each further loop around a value makes it ten times as expensive to spill.
pub proof fn lemma_loop_costs_tenfold(
    range: LiveRange,
    register_count: nat,
    reuse_count: nat,
    loop_depth: nat,
)
    ensures
        weighted_cost(range, register_count, reuse_count, loop_depth + 1) == 10 * weighted_cost(
            range,
            register_count,
            reuse_count,
            loop_depth,
        ),
        weighted_cost(range, register_count, reuse_count, 0) == cost(range, register_count) * (
        reuse_count + 1),
        cost(range, register_count) == (range.end - range.start) * register_count,
{
    reveal(vstd::arithmetic::power::pow);
    let base = cost(range, register_count);
    let factor = vstd::arithmetic::power::pow(10, loop_depth);
    let reuse = reuse_count + 1;
    assert(vstd::arithmetic::power::pow(10, loop_depth + 1) == 10 * factor);
    assert(base * (10 * factor) * reuse == 10 * (base * factor * reuse)) by (nonlinear_arith);
}

} // verus!
