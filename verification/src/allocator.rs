//! Linear-scan register allocation.

use crate::guarantees;
use crate::live_range::LiveRange;
use crate::order;
use crate::order::{sort_by_key, Keyed};
use crate::pressure;
use crate::pressure::RegisterPressureEstimator;
use crate::register_file;
use crate::register_file::{FileModel, RegisterFile};
use crate::request::{Allocation, AllocationModel, AllocationRequest, VirtualReg};
use crate::scan;
use crate::scan::{AllocatorModel, ScanState};
use std::collections::BTreeMap;
use vstd::prelude::*;

verus! {

impl Keyed for AllocationRequest {
    open spec fn sort_key(self) -> u32 {
        self.live_range.start
    }

    fn key(&self) -> (key: u32) {
        self.live_range.start
    }
}

/// The contents of an [`AllocationResult`].
#[verifier::ext_equal]
pub struct ResultModel {
    pub allocations: Seq<AllocationModel>,
    pub spilled: Seq<AllocationRequest>,
    pub total_registers: u32,
    pub peak_utilization: u32,
}

/// Result of running the allocator.
#[derive(Debug)]
pub struct AllocationResult {
    pub allocations: Vec<Allocation>,
    pub spilled: Vec<AllocationRequest>,
    pub total_registers: u32,
    pub peak_utilization: u32,
}

impl View for AllocationResult {
    type V = ResultModel;

    open spec fn view(&self) -> ResultModel {
        ResultModel {
            allocations: scan::models(self.allocations@),
            spilled: self.spilled@,
            total_registers: self.total_registers,
            peak_utilization: self.peak_utilization,
        }
    }
}

/// The contents of the allocations filed under each end.
spec fn bucket_models(m: Map<u32, Vec<Allocation>>) -> Map<u32, Seq<AllocationModel>> {
    Map::new(|k: u32| m.contains_key(k), |k: u32| scan::models(m[k]@))
}

/// Linear-scan register allocator.
#[derive(Debug)]
pub struct RegisterAllocator {
    register_file: RegisterFile,
    /// The requests; sorted by live range start once a run has begun.
    sorted_requests: Vec<AllocationRequest>,
    /// Active allocations by live range end.
    active: BTreeMap<u32, Vec<Allocation>>,
    /// Spilled requests.
    spilled: Vec<AllocationRequest>,
    next_vreg: u32,
}

impl View for RegisterAllocator {
    type V = AllocatorModel;

    closed spec fn view(&self) -> AllocatorModel {
        AllocatorModel {
            file: self.register_file@,
            requests: self.sorted_requests@,
            active: bucket_models(self.active@),
            spilled: self.spilled@,
            next_vreg: self.next_vreg,
        }
    }
}

impl RegisterAllocator {
    /// The state in which a run stands, with the allocations it has made so far.
    spec fn scan_state(self, allocations: Seq<Allocation>) -> ScanState {
        ScanState {
            file: self@.file,
            active: self@.active,
            spilled: self@.spilled,
            allocations: scan::models(allocations),
        }
    }

    /// An allocator without requests over a fresh file of `total_registers` registers.
    pub fn new(total_registers: u32) -> (allocator: Self)
        ensures
            allocator@ == AllocatorModel::fresh(total_registers),
            allocator@.wf(),
            allocator@.unused(),
            allocator@.numbered(),
            allocator@.file.total == total_registers,
            forall|r: u32| #[trigger] allocator@.file.free.contains(r) <==> r < total_registers,
            forall|v: u32| !#[trigger] allocator@.file.by_vreg.contains_key(v),
            forall|end: u32| !#[trigger] allocator@.active.contains_key(end),
            allocator@.requests.len() == 0,
            allocator@.spilled.len() == 0,
            allocator@.next_vreg == 0,
    {
        let allocator = Self {
            register_file: RegisterFile::new(total_registers),
            sorted_requests: Vec::new(),
            active: BTreeMap::new(),
            spilled: Vec::new(),
            next_vreg: 0,
        };
        proof {
            assert(allocator@ =~= AllocatorModel::fresh(total_registers));
            guarantees::lemma_fresh_wf(total_registers);
        }
        allocator
    }

    /// Add a request for register allocation.
    pub fn add_request(&mut self, req: AllocationRequest)
        requires
            old(self)@.wf(),
        ensures
            final(self)@ == old(self)@.with_request(req),
            final(self)@.wf(),
            final(self)@.requests == old(self)@.requests.push(req),
            final(self)@.file == old(self)@.file,
            final(self)@.active == old(self)@.active,
            final(self)@.spilled == old(self)@.spilled,
            final(self)@.next_vreg == old(self)@.next_vreg,
    {
        proof {
            guarantees::lemma_with_request_wf(self@, req);
        }
        self.sorted_requests.push(req);
    }

    /// Create and add a request with auto-incremented vreg.
    pub fn request(&mut self, live_range: LiveRange, trit_count: u32, packed: bool) -> (vreg:
        VirtualReg)
        requires
            old(self)@.wf(),
            old(self)@.next_vreg < u32::MAX,
        ensures
            vreg.0 == old(self)@.next_vreg,
            final(self)@ == (AllocatorModel {
                next_vreg: (old(self)@.next_vreg + 1) as u32,
                ..old(self)@.with_request(
                    AllocationRequest { vreg, live_range, trit_count, packed },
                )
            }),
            final(self)@.wf(),
            old(self)@.numbered() ==> final(self)@.numbered(),
            final(self)@.requests == old(self)@.requests.push(
                AllocationRequest { vreg, live_range, trit_count, packed },
            ),
            final(self)@.file == old(self)@.file,
            final(self)@.active == old(self)@.active,
            final(self)@.spilled == old(self)@.spilled,
            final(self)@.next_vreg == old(self)@.next_vreg + 1,
    {
        let vreg = VirtualReg(self.next_vreg);
        let ghost before = self@;
        self.next_vreg = self.next_vreg + 1;
        assert(self@.scan_start() == before.scan_start());
        self.add_request(AllocationRequest { vreg, live_range, trit_count, packed });
        vreg
    }

    /// Run the linear-scan allocation algorithm.
    pub fn allocate_all(&mut self) -> (result: AllocationResult)
        requires
            old(self)@.wf(),
            old(self)@.all_countable(),
            scan::distinct_vregs(old(self)@.requests) || old(self)@.peak_fits(),
        ensures
            final(self)@ == old(self)@.after_run(),
            final(self)@.wf(),
            final(self)@.all_countable(),
            old(self)@.numbered() ==> final(self)@.numbered(),
            result@.allocations == old(self)@.scan_end().allocations,
            result@.spilled == old(self)@.scan_end().spilled,
            result@.total_registers == old(self)@.file.total,
            pressure::is_peak(
                scan::loads(result@.allocations),
                result@.peak_utilization as nat,
            ),
            scan::distinct_vregs(old(self)@.requests) ==> result@.peak_utilization
                <= result@.total_registers,
            result.allocations.len() == old(self)@.scan_end().allocations.len(),
            forall|i: int|
                0 <= i < result.allocations.len() ==> (#[trigger] result.allocations@[i])@
                    == old(self)@.scan_end().allocations[i],
            result.spilled@ == old(self)@.scan_end().spilled,
            result.spilled@ == final(self)@.spilled,
            result.total_registers == old(self)@.file.total,
            forall|point: u32| #[trigger]
                pressure::pressure(scan::loads(old(self)@.scan_end().allocations), point)
                    <= result.peak_utilization,
            exists|point: u32| #[trigger]
                pressure::pressure(scan::loads(old(self)@.scan_end().allocations), point)
                    == result.peak_utilization,
    {
        let ghost before = self@;
        proof {
            if scan::distinct_vregs(before.requests) {
                guarantees::lemma_run_conflict_free(before);
            }
            guarantees::lemma_run_serves_requests(before);
            if before.numbered() {
                guarantees::lemma_run_numbered(before);
            }
        }
        let ghost start = self@.scan_start();
        // Sort requests by live range start.
        self.sorted_requests = sort_by_key(&self.sorted_requests);
        let ghost sorted = self.sorted_requests@;
        let mut allocations: Vec<Allocation> = Vec::new();
        proof {
            lemma_sorting_keeps_countable(before.requests);
            assert(self.scan_state(allocations@) =~= start);
            assert(sorted.take(0) =~= Seq::empty());
        }
        let mut k: usize = 0;
        while k < self.sorted_requests.len()
            invariant
                k <= sorted.len(),
                self.sorted_requests@ == sorted,
                self.next_vreg == before.next_vreg,
                self@.file.total == before.file.total,
                forall|i: int| 0 <= i < sorted.len() ==> (#[trigger] sorted[i]).countable(),
                self.scan_state(allocations@) == scan::scan(sorted.take(k as int), start),
            decreases sorted.len() - k,
        {
            let req = self.sorted_requests[k];
            assert(sorted[k as int].countable());
            let ghost state = self.scan_state(allocations@);
            // Expire intervals that ended before this one starts.
            self.expire_old(req.live_range.start);
            let ghost cleared = state.expire(req.live_range.start);
            assert(self.scan_state(allocations@) =~= cleared);
            let needed: u32 = req.registers_needed();
            if let Some(regs) = self.register_file.allocate(needed) {
                assert(regs@ =~= scan::registers(register_file::numbers(regs@)));
                let alloc = Allocation {
                    vreg: req.vreg,
                    physical_regs: regs,
                    live_range: req.live_range,
                    registers_used: needed,
                };
                assert(alloc@ =~= cleared.allocation_for(req));
                self.register_file.assign(alloc.clone());
                let ghost raw = self.active@;
                assert(bucket_models(raw) == cleared.active);
                let mut bucket: Vec<Allocation> = match self.active.remove(&req.live_range.end) {
                    Some(bucket) => bucket,
                    None => Vec::new(),
                };
                let ghost earlier = bucket@;
                proof {
                    let end = req.live_range.end;
                    assert(raw.contains_key(end) == cleared.active.contains_key(end));
                    if raw.contains_key(end) {
                        assert(cleared.active[end] == scan::models(raw[end]@));
                    } else {
                        assert(scan::models(earlier) =~= Seq::empty());
                    }
                }
                bucket.push(alloc.clone());
                assert(scan::models(bucket@) =~= scan::models(earlier).push(alloc@));
                self.active.insert(req.live_range.end, bucket);
                assert(self@.active =~= scan::activate(cleared.active, alloc@));
                let ghost made = allocations@;
                allocations.push(alloc);
                assert(scan::models(allocations@) =~= scan::models(made).push(
                    cleared.allocation_for(req),
                ));
            } else {
                self.spilled.push(req);
            }
            proof {
                assert(self.scan_state(allocations@) =~= cleared.place(req));
                assert(sorted.take(k + 1).drop_last() =~= sorted.take(k as int));
            }
            k = k + 1;
        }
        assert(sorted.take(k as int) =~= sorted);
        let peak = self.estimate_peak_pressure(allocations.as_slice());
        let spilled = self.spilled.clone();
        assert(spilled@ =~= self.spilled@);
        assert(self@ =~= before.after_run());
        let result = AllocationResult {
            allocations,
            spilled,
            total_registers: self.register_file.total_registers(),
            peak_utilization: peak,
        };
        assert forall|i: int| 0 <= i < result.allocations.len() implies (
        #[trigger] result.allocations@[i])@ == before.scan_end().allocations[i] by {
            assert(scan::models(result.allocations@)[i] == result.allocations@[i]@);
        }
        result
    }

    /// Try to spill a currently-active allocation to make room. Nothing is spilled: a request
    /// that finds no room is spilled itself.
    #[allow(dead_code)]
    fn try_spill_for(&mut self, _req: &AllocationRequest) -> (spilled: bool)
        ensures
            !spilled,
            *final(self) == *old(self),
    {
        false
    }

    /// Estimate peak register pressure across the allocation result.
    fn estimate_peak_pressure(&self, allocations: &[Allocation]) -> (peak: u32)
        requires
            pressure::pressure_fits(scan::loads(scan::models(allocations@))),
        ensures
            pressure::is_peak(scan::loads(scan::models(allocations@)), peak as nat),
    {
        let mut ranges: Vec<(LiveRange, u32)> = Vec::new();
        let mut k: usize = 0;
        while k < allocations.len()
            invariant
                k <= allocations.len(),
                ranges@ == scan::loads(scan::models(allocations@)).take(k as int),
            decreases allocations.len() - k,
        {
            ranges.push((allocations[k].live_range, allocations[k].registers_used));
            assert(ranges@ =~= scan::loads(scan::models(allocations@)).take(k + 1));
            k = k + 1;
        }
        assert(ranges@ =~= scan::loads(scan::models(allocations@)));
        RegisterPressureEstimator::max_pressure(ranges.as_slice())
    }

    /// Get a reference to the register file.
    pub fn register_file(&self) -> (file: &RegisterFile)
        ensures
            file@ == self@.file,
    {
        &self.register_file
    }

    /// Get spilled requests.
    pub fn spilled(&self) -> (spilled: &[AllocationRequest])
        ensures
            spilled@ == self@.spilled,
    {
        self.spilled.as_slice()
    }

    /// Expire old allocations that are no longer live at `current_point`.
    fn expire_old(&mut self, current_point: u32)
        ensures
            final(self)@ == old(self)@.expire(current_point),
    {
        let mut ends: Vec<u32> = Vec::new();
        for end in it: self.active.keys()
            invariant
                ends.len() == it.index(),
                forall|j: int| 0 <= j < ends.len() ==> #[trigger] ends@[j] == *it.seq()[j],
        {
            ends.push(*end);
        }
        let ghost before = self@;
        proof {
            let keys = vstd::std_specs::iter::IteratorSpec::remaining(
                &vstd::std_specs::btree::spec_keys_iter(&self.active),
            );
            assert(ends@ =~= keys.unref());
            assert(ends@.no_duplicates());
            assert(ends@.to_set() == self.active@.dom());
            assert(self@.file =~= before.file.drop_vregs(
                expired_among(before.active, ends@.take(0), current_point),
            ));
            assert(self@.active =~= before.active.remove_keys(
                ended_among(ends@.take(0), current_point),
            ));
        }
        let mut k: usize = 0;
        while k < ends.len()
            invariant
                k <= ends.len(),
                ends@.no_duplicates(),
                ends@.to_set() == before.active.dom(),
                self@ == (AllocatorModel {
                    file: before.file.drop_vregs(
                        expired_among(before.active, ends@.take(k as int), current_point),
                    ),
                    active: before.active.remove_keys(
                        ended_among(ends@.take(k as int), current_point),
                    ),
                    ..before
                }),
            decreases ends.len() - k,
        {
            let end: u32 = ends[k];
            let ghost seen = ends@.take(k as int);
            let ghost gone = expired_among(before.active, seen, current_point);
            assert(ends@.take(k + 1) =~= seen.push(end));
            assert(!seen.contains(end));
            assert(ends@.to_set().contains(end));
            if end <= current_point {
                let ghost active = self@.active;
                let ghost raw = self.active@;
                proof {
                    assert(!ended_among(seen, current_point).contains(end));
                    assert(active.contains_key(end) && active[end] == before.active[end]);
                    assert(raw.contains_key(end) && active[end] == scan::models(raw[end]@));
                }
                let removed = self.active.remove(&end);
                assert(self@.active =~= active.remove(end));
                if let Some(bucket) = removed {
                    assert(scan::models(bucket@) == before.active[end]);
                    proof {
                        assert(gone =~= gone.union(vregs_of(scan::models(bucket@).take(0))));
                    }
                    let mut j: usize = 0;
                    while j < bucket.len()
                        invariant
                            j <= bucket.len(),
                            self@ == (AllocatorModel {
                                file: before.file.drop_vregs(
                                    gone.union(vregs_of(scan::models(bucket@).take(j as int))),
                                ),
                                active: active.remove(end),
                                ..before
                            }),
                        decreases bucket.len() - j,
                    {
                        let vreg = bucket[j].vreg;
                        self.register_file.deallocate(vreg);
                        proof {
                            let sofar = gone.union(vregs_of(scan::models(bucket@).take(j as int)));
                            lemma_drop_one_more(before.file, sofar, vreg.0);
                            let list = scan::models(bucket@);
                            assert(sofar.insert(vreg.0) =~= gone.union(vregs_of(list.take(j + 1))))
                                by {
                                assert(list.take(j + 1) =~= list.take(j as int).push(
                                    list[j as int],
                                ));
                                lemma_vregs_of_push(list.take(j as int), list[j as int]);
                            }
                        }
                        j = j + 1;
                    }
                    assert(scan::models(bucket@).take(j as int) =~= scan::models(bucket@));
                    proof {
                        lemma_expired_among_push(before.active, seen, end, current_point);
                    }
                }
            } else {
                proof {
                    lemma_expired_among_push(before.active, seen, end, current_point);
                }
            }
            proof {
                lemma_ended_among_push(seen, end, current_point);
                assert(self@.active =~= before.active.remove_keys(
                    ended_among(seen.push(end), current_point),
                ));
            }
            k = k + 1;
        }
        proof {
            assert(ends@.take(k as int) =~= ends@);
            assert forall|v: u32| #[trigger]
                expired_among(before.active, ends@, current_point).contains(v) <==> scan::expired(
                    before.active,
                    current_point,
                ).contains(v) by {
                if scan::expired(before.active, current_point).contains(v) {
                    let end = choose|end: u32|
                        end <= current_point && #[trigger] scan::ends_at(before.active, end, v);
                    assert(ends@.to_set().contains(end));
                }
            }
            assert(expired_among(before.active, ends@, current_point) =~= scan::expired(
                before.active,
                current_point,
            ));
            assert(self@.active =~= scan::unexpired(before.active, current_point)) by {
                assert forall|end: u32| before.active.contains_key(end) implies ends@.contains(
                    end,
                ) by {
                    assert(ends@.to_set().contains(end));
                }
            }
        }
    }
}

impl AllocationResult {
    /// Number of successfully allocated vregs.
    pub fn allocated_count(&self) -> (count: usize)
        ensures
            count == self@.allocations.len(),
            count == self.allocations.len(),
    {
        self.allocations.len()
    }

    /// Number of spilled vregs.
    pub fn spilled_count(&self) -> (count: usize)
        ensures
            count == self@.spilled.len(),
            count == self.spilled.len(),
    {
        self.spilled.len()
    }

    /// Total registers used across all allocations (summing individual register counts).
    pub fn total_register_uses(&self) -> (total: u32)
        requires
            scan::register_uses(self@.allocations) <= u32::MAX,
        ensures
            total == scan::register_uses(self@.allocations),
    {
        let mut total: u32 = 0;
        let mut k: usize = 0;
        while k < self.allocations.len()
            invariant
                k <= self.allocations.len(),
                scan::register_uses(self@.allocations) <= u32::MAX,
                total == scan::register_uses(self@.allocations.take(k as int)),
            decreases self.allocations.len() - k,
        {
            proof {
                let all = self@.allocations;
                lemma_register_uses_of_prefix(all, k + 1);
                assert(all.take(k + 1).drop_last() =~= all.take(k as int));
            }
            total = total + self.allocations[k].registers_used;
            k = k + 1;
        }
        assert(self@.allocations.take(k as int) =~= self@.allocations);
        total
    }
}

impl Clone for AllocationResult {
    fn clone(&self) -> (copy: Self)
        ensures
            copy@ == self@,
            copy.spilled@ == self.spilled@,
            copy.total_registers == self.total_registers,
            copy.peak_utilization == self.peak_utilization,
    {
        let allocations = self.allocations.clone();
        let spilled = self.spilled.clone();
        assert(scan::models(allocations@) =~= scan::models(self.allocations@)) by {
            assert forall|i: int| 0 <= i < allocations.len() implies (#[trigger] allocations@[i])@
                == self.allocations@[i]@ by {
                assert(cloned(self.allocations[i], allocations[i]));
            }
        }
        assert(spilled@ =~= self.spilled@);
        AllocationResult {
            allocations,
            spilled,
            total_registers: self.total_registers,
            peak_utilization: self.peak_utilization,
        }
    }
}

/// The contents of a result are its fields, allocation by allocation.
pub proof fn lemma_contents_of_result(result: AllocationResult, i: int)
    ensures
        result@.allocations.len() == result.allocations.len(),
        0 <= i < result.allocations.len() ==> result@.allocations[i] == result.allocations@[i]@,
        result@.spilled == result.spilled@,
        result@.total_registers == result.total_registers,
        result@.peak_utilization == result.peak_utilization,
{
}

proof fn lemma_register_uses_of_prefix(allocations: Seq<AllocationModel>, n: int)
    requires
        0 <= n <= allocations.len(),
    ensures
        scan::register_uses(allocations.take(n)) <= scan::register_uses(allocations),
    decreases allocations.len() - n,
{
    if n == allocations.len() {
        assert(allocations.take(n) =~= allocations);
    } else {
        lemma_register_uses_of_prefix(allocations, n + 1);
        assert(allocations.take(n + 1).drop_last() =~= allocations.take(n));
    }
}

proof fn lemma_sorting_keeps_countable(requests: Seq<AllocationRequest>)
    requires
        forall|i: int| 0 <= i < requests.len() ==> (#[trigger] requests[i]).countable(),
    ensures
        ({
            let sorted = order::stable_sort(requests);
            forall|i: int| 0 <= i < sorted.len() ==> (#[trigger] sorted[i]).countable()
        }),
{
    broadcast use vstd::seq_lib::group_to_multiset_ensures;

    let sorted = order::stable_sort(requests);
    order::lemma_stable_sort(requests);
    assert forall|i: int| 0 <= i < sorted.len() implies (#[trigger] sorted[i]).countable() by {
        assert(sorted.contains(sorted[i]));
        assert(sorted.to_multiset().count(sorted[i]) > 0);
        assert(requests.contains(sorted[i]));
        let j = choose|j: int| 0 <= j < requests.len() && requests[j] == sorted[i];
        assert(requests[j].countable());
    }
}

/// The virtual registers of the given allocations.
spec fn vregs_of(allocations: Seq<AllocationModel>) -> Set<u32> {
    Set::new(
        |v: u32|
            exists|i: int| 0 <= i < allocations.len() && (#[trigger] allocations[i]).vreg.0 == v,
    )
}

/// The virtual registers with an active allocation at one of `ends` that has ended at `point`.
spec fn expired_among(
    active: Map<u32, Seq<AllocationModel>>,
    ends: Seq<u32>,
    point: u32,
) -> Set<u32> {
    Set::new(
        |v: u32|
            exists|end: u32|
                ends.contains(end) && end <= point && #[trigger] scan::ends_at(active, end, v),
    )
}

/// Those of `ends` that are not after `point`.
spec fn ended_among(ends: Seq<u32>, point: u32) -> Set<u32> {
    Set::new(|end: u32| ends.contains(end) && end <= point)
}

proof fn lemma_ended_among_push(ends: Seq<u32>, end: u32, point: u32)
    ensures
        ended_among(ends.push(end), point) == (if end <= point {
            ended_among(ends, point).insert(end)
        } else {
            ended_among(ends, point)
        }),
{
    order::lemma_push_contains(ends, end);
    assert(ended_among(ends.push(end), point) =~= (if end <= point {
        ended_among(ends, point).insert(end)
    } else {
        ended_among(ends, point)
    }));
}

proof fn lemma_expired_among_push(
    active: Map<u32, Seq<AllocationModel>>,
    ends: Seq<u32>,
    end: u32,
    point: u32,
)
    requires
        active.contains_key(end),
    ensures
        expired_among(active, ends.push(end), point) == (if end <= point {
            expired_among(active, ends, point).union(vregs_of(active[end]))
        } else {
            expired_among(active, ends, point)
        }),
{
    order::lemma_push_contains(ends, end);
    let more = expired_among(active, ends.push(end), point);
    let less = expired_among(active, ends, point);
    assert forall|v: u32| #[trigger] more.contains(v) <==> less.contains(v) || (end <= point
        && vregs_of(active[end]).contains(v)) by {
        if less.contains(v) {
            let e = choose|e: u32|
                ends.contains(e) && e <= point && #[trigger] scan::ends_at(active, e, v);
            assert(ends.push(end).contains(e));
        }
        if end <= point && vregs_of(active[end]).contains(v) {
            assert(scan::ends_at(active, end, v));
            assert(ends.push(end).contains(end));
        }
    }
    assert(more =~= (if end <= point {
        less.union(vregs_of(active[end]))
    } else {
        less
    }));
}

proof fn lemma_vregs_of_push(allocations: Seq<AllocationModel>, alloc: AllocationModel)
    ensures
        vregs_of(allocations.push(alloc)) == vregs_of(allocations).insert(alloc.vreg.0),
{
    let more = allocations.push(alloc);
    assert forall|v: u32| #[trigger] vregs_of(more).contains(v) <==> vregs_of(
        allocations,
    ).contains(v) || v == alloc.vreg.0 by {
        if vregs_of(allocations).contains(v) {
            let i = choose|i: int|
                0 <= i < allocations.len() && (#[trigger] allocations[i]).vreg.0 == v;
            assert(more[i].vreg.0 == v);
        }
        if v == alloc.vreg.0 {
            assert(more[allocations.len() as int].vreg.0 == v);
        }
    }
    assert(vregs_of(more) =~= vregs_of(allocations).insert(alloc.vreg.0));
}

/// Dropping the virtual registers of a set and then one more drops them all.
proof fn lemma_drop_one_more(file: FileModel, vregs: Set<u32>, vreg: u32)
    ensures
        file.drop_vregs(vregs).drop_vreg(vreg) == file.drop_vregs(vregs.insert(vreg)),
{
    let one = file.drop_vregs(vregs).drop_vreg(vreg);
    let all = file.drop_vregs(vregs.insert(vreg));
    assert forall|r: u32| #[trigger] file.held_by(vregs.insert(vreg)).contains(r) <==> file.held_by(
        vregs,
    ).contains(r) || file.holds(vreg, r) by {
        if file.held_by(vregs).contains(r) {
            let v = choose|v: u32| vregs.contains(v) && #[trigger] file.holds(v, r);
            assert(vregs.insert(vreg).contains(v));
        }
        if file.holds(vreg, r) {
            assert(vregs.insert(vreg).contains(vreg));
        }
    }
    if vregs.contains(vreg) {
        assert(vregs.insert(vreg) =~= vregs);
    }
    assert(one.free =~= all.free);
    assert(one.owner =~= all.owner);
    assert(one.by_vreg =~= all.by_vreg);
}

} // verus!
