//! The linear scan as a function of its requests and of the state in which it starts.

use crate::live_range::LiveRange;
use crate::order;
use crate::pressure;
use crate::register_file;
use crate::register_file::FileModel;
use crate::request::{Allocation, AllocationModel, AllocationRequest, RegisterId};
use vstd::prelude::*;

verus! {

/// The contents of each of the given allocations.
pub open spec fn models(allocations: Seq<Allocation>) -> Seq<AllocationModel> {
    Seq::new(allocations.len(), |i: int| allocations[i]@)
}

/// The live range and the register count of each allocation.
pub open spec fn loads(allocations: Seq<AllocationModel>) -> Seq<(LiveRange, u32)> {
    Seq::new(
        allocations.len(),
        |i: int| (allocations[i].live_range, allocations[i].registers_used),
    )
}

/// The live range and the register demand of each request.
pub open spec fn demands(requests: Seq<AllocationRequest>) -> Seq<(LiveRange, u32)> {
    Seq::new(
        requests.len(),
        |i: int| (requests[i].live_range, requests[i].demand() as u32),
    )
}

/// Sum of the register counts of the given allocations.
pub open spec fn register_uses(allocations: Seq<AllocationModel>) -> nat
    decreases allocations.len(),
{
    if allocations.len() == 0 {
        0
    } else {
        register_uses(allocations.drop_last()) + allocations.last().registers_used as nat
    }
}

/// Sum of the register demands of the given requests.
pub open spec fn total_demand(requests: Seq<AllocationRequest>) -> nat
    decreases requests.len(),
{
    if requests.len() == 0 {
        0
    } else {
        total_demand(requests.drop_last()) + requests.last().demand()
    }
}

/// The registers with the given numbers.
pub open spec fn registers(numbers: Seq<u32>) -> Seq<RegisterId> {
    Seq::new(numbers.len(), |i: int| RegisterId(numbers[i]))
}

impl FileModel {
    /// Virtual register `vreg` holds register `r`.
    pub open spec fn holds(self, vreg: u32, r: u32) -> bool {
        self.by_vreg.contains_key(vreg) && register_file::numbers(
            self.by_vreg[vreg].physical_regs,
        ).contains(r)
    }

    /// The registers that the virtual registers in `vregs` hold.
    pub open spec fn held_by(self, vregs: Set<u32>) -> Set<u32> {
        Set::new(|r: u32| exists|v: u32| vregs.contains(v) && #[trigger] self.holds(v, r))
    }

    /// The file after the allocations of all virtual registers in `vregs` were dropped.
    pub open spec fn drop_vregs(self, vregs: Set<u32>) -> FileModel {
        FileModel {
            free: self.free.union(self.held_by(vregs)),
            owner: self.owner.remove_keys(self.held_by(vregs)),
            by_vreg: self.by_vreg.remove_keys(vregs),
            ..self
        }
    }

    /// The books are straight: only registers of the file are free or held, none is both, and no
    /// two virtual registers hold the same one.
    pub open spec fn consistent(self) -> bool {
        &&& self.in_bounds()
        &&& forall|v: u32, r: u32| #[trigger]
            self.holds(v, r) ==> r < self.total && !self.free.contains(r)
        &&& forall|v: u32, w: u32, r: u32| #[trigger]
            self.holds(v, r) && #[trigger] self.holds(w, r) ==> v == w
    }
}

/// `alloc` answers `req`: same virtual register, same live range.
pub open spec fn answers(alloc: AllocationModel, req: AllocationRequest) -> bool {
    alloc.vreg == req.vreg && alloc.live_range == req.live_range
}

/// `alloc` answers one of `requests`.
pub open spec fn answers_any(alloc: AllocationModel, requests: Seq<AllocationRequest>) -> bool {
    exists|k: int| 0 <= k < requests.len() && answers(alloc, #[trigger] requests[k])
}

/// No two requests are for the same virtual register.
pub open spec fn distinct_vregs(requests: Seq<AllocationRequest>) -> bool {
    forall|i: int, j: int|
        0 <= i < j < requests.len() ==> (#[trigger] requests[i]).vreg != (
        #[trigger] requests[j]).vreg
}

/// The state of a scan: the register file, the active allocations by the end of their live
/// range, the spilled requests, and the allocations made so far.
#[verifier::ext_equal]
pub struct ScanState {
    pub file: FileModel,
    pub active: Map<u32, Seq<AllocationModel>>,
    pub spilled: Seq<AllocationRequest>,
    pub allocations: Seq<AllocationModel>,
}

/// An active allocation of `vreg` ends at `end`.
pub open spec fn ends_at(
    active: Map<u32, Seq<AllocationModel>>,
    end: u32,
    vreg: u32,
) -> bool {
    active.contains_key(end) && exists|i: int|
        0 <= i < active[end].len() && (#[trigger] active[end][i]).vreg.0 == vreg
}

/// The virtual registers with an active allocation that has ended at `point`.
pub open spec fn expired(active: Map<u32, Seq<AllocationModel>>, point: u32) -> Set<u32> {
    Set::new(|v: u32| exists|end: u32| end <= point && #[trigger] ends_at(active, end, v))
}

/// The active allocations that end after `point`.
pub open spec fn unexpired(active: Map<u32, Seq<AllocationModel>>, point: u32) -> Map<
    u32,
    Seq<AllocationModel>,
> {
    active.remove_keys(Set::new(|end: u32| end <= point))
}

/// The active allocations together with `alloc`.
pub open spec fn activate(
    active: Map<u32, Seq<AllocationModel>>,
    alloc: AllocationModel,
) -> Map<u32, Seq<AllocationModel>> {
    let end = alloc.live_range.end;
    let bucket = if active.contains_key(end) {
        active[end]
    } else {
        Seq::empty()
    };
    active.insert(end, bucket.push(alloc))
}

impl ScanState {
    /// The register file is consistent, the active allocations are filed under the end of their
    /// live range, all allocations on record answer one of `requests`, and each virtual register
    /// on record has an active allocation with the same end.
    pub open spec fn tracks(self, requests: Seq<AllocationRequest>) -> bool {
        &&& self.file.consistent()
        &&& forall|v: u32| #[trigger]
            self.file.by_vreg.contains_key(v) ==> {
                &&& self.file.by_vreg[v].vreg.0 == v
                &&& answers_any(self.file.by_vreg[v], requests)
                &&& ends_at(self.active, self.file.by_vreg[v].live_range.end, v)
            }
        &&& forall|end: u32, i: int|
            #![trigger self.active[end][i]]
            self.active.contains_key(end) && 0 <= i < self.active[end].len()
                ==> self.active[end][i].live_range.end == end && answers_any(
                self.active[end][i],
                requests,
            )
    }

    /// The scan after all allocations that have ended at `point` were released.
    pub open spec fn expire(self, point: u32) -> ScanState {
        ScanState {
            file: self.file.drop_vregs(expired(self.active, point)),
            active: unexpired(self.active, point),
            ..self
        }
    }

    /// There are enough free registers for `req`.
    pub open spec fn has_room(self, req: AllocationRequest) -> bool {
        self.file.free_count() >= req.demand()
    }

    /// The allocation that gives `req` the lowest free registers.
    pub open spec fn allocation_for(self, req: AllocationRequest) -> AllocationModel {
        AllocationModel {
            vreg: req.vreg,
            physical_regs: registers(
                order::ascending(self.file.free).take(req.demand() as int),
            ),
            live_range: req.live_range,
            registers_used: req.demand() as u32,
        }
    }

    /// The scan after `req` got its registers, or was spilled for want of them.
    pub open spec fn place(self, req: AllocationRequest) -> ScanState {
        if self.has_room(req) {
            let alloc = self.allocation_for(req);
            ScanState {
                file: self.file.take_lowest(req.demand()).record(alloc),
                active: activate(self.active, alloc),
                allocations: self.allocations.push(alloc),
                ..self
            }
        } else {
            ScanState { spilled: self.spilled.push(req), ..self }
        }
    }

    /// The scan after one more request: what has ended when the request starts is released, then
    /// the request is placed.
    pub open spec fn step(self, req: AllocationRequest) -> ScanState {
        self.expire(req.live_range.start).place(req)
    }
}

/// The scan after all of `requests`, one after the other.
pub open spec fn scan(requests: Seq<AllocationRequest>, start: ScanState) -> ScanState
    decreases requests.len(),
{
    if requests.len() == 0 {
        start
    } else {
        scan(requests.drop_last(), start).step(requests.last())
    }
}

/// The state of an allocator.
#[verifier::ext_equal]
pub struct AllocatorModel {
    pub file: FileModel,
    pub requests: Seq<AllocationRequest>,
    pub active: Map<u32, Seq<AllocationModel>>,
    pub spilled: Seq<AllocationRequest>,
    pub next_vreg: u32,
}

impl AllocatorModel {
    /// An allocator without requests over a fresh file.
    pub open spec fn fresh(total_registers: u32) -> AllocatorModel {
        AllocatorModel {
            file: FileModel::fresh(total_registers),
            requests: Seq::empty(),
            active: Map::empty(),
            spilled: Seq::empty(),
            next_vreg: 0,
        }
    }

    /// The allocator after `req` was added.
    pub open spec fn with_request(self, req: AllocationRequest) -> AllocatorModel {
        AllocatorModel { requests: self.requests.push(req), ..self }
    }

    /// The registers that each request needs can be counted.
    pub open spec fn all_countable(self) -> bool {
        forall|i: int| 0 <= i < self.requests.len() ==> (#[trigger] self.requests[i]).countable()
    }

    /// The allocator after all allocations that have ended at `point` were released.
    pub open spec fn expire(self, point: u32) -> AllocatorModel {
        AllocatorModel {
            file: self.file.drop_vregs(expired(self.active, point)),
            active: unexpired(self.active, point),
            ..self
        }
    }

    /// The state in which a run starts.
    pub open spec fn scan_start(self) -> ScanState {
        ScanState {
            file: self.file,
            active: self.active,
            spilled: self.spilled,
            allocations: Seq::empty(),
        }
    }

    /// The state in which a run over all requests, by ascending start, ends.
    pub open spec fn scan_end(self) -> ScanState {
        scan(order::stable_sort(self.requests), self.scan_start())
    }

    /// No two requests are for the same virtual register, and all their numbers are below the next
    /// one to be given.
    pub open spec fn numbered(self) -> bool {
        &&& distinct_vregs(self.requests)
        &&& forall|i: int|
            0 <= i < self.requests.len() ==> (#[trigger] self.requests[i]).vreg.0 < self.next_vreg
    }

    /// No run has been made yet: all registers are free and nothing is on record.
    pub open spec fn unused(self) -> bool {
        &&& self.file == FileModel::fresh(self.file.total)
        &&& self.active == Map::<u32, Seq<AllocationModel>>::empty()
        &&& self.spilled.len() == 0
    }

    /// The state in which the request at position `k`, in the order of the run, is placed.
    pub open spec fn before_placing(self, k: int) -> ScanState {
        let sorted = order::stable_sort(self.requests);
        scan(sorted.take(k), self.scan_start()).expire(sorted[k].live_range.start)
    }

    /// What every allocator satisfies between calls.
    pub open spec fn wf(self) -> bool {
        self.scan_start().tracks(self.requests)
    }

    /// The pressure of the allocations that a run makes is representable at every point.
    pub open spec fn peak_fits(self) -> bool {
        pressure::pressure_fits(loads(self.scan_end().allocations))
    }

    /// The allocator after a run.
    pub open spec fn after_run(self) -> AllocatorModel {
        AllocatorModel {
            file: self.scan_end().file,
            requests: order::stable_sort(self.requests),
            active: self.scan_end().active,
            spilled: self.scan_end().spilled,
            ..self
        }
    }
}

} // verus!
