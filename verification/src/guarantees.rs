//! What a linear scan guarantees.

use crate::live_range;
use crate::live_range::LiveRange;
use crate::order;
use crate::order::Keyed;
use crate::pressure;
use crate::register_file;
use crate::register_file::FileModel;
use crate::request::{AllocationModel, AllocationRequest, TRITS_PER_REGISTER};
use crate::scan;
use crate::scan::{AllocatorModel, ScanState};
use vstd::prelude::*;

verus! {

/// The numbers of the registers that `alloc` occupies.
pub open spec fn occupied(alloc: AllocationModel) -> Seq<u32> {
    register_file::numbers(alloc.physical_regs)
}

/// `alloc` occupies as many different registers as it says, all of them below `total`.
pub open spec fn sound(alloc: AllocationModel, total: u32) -> bool {
    &&& alloc.physical_regs.len() == alloc.registers_used
    &&& occupied(alloc).no_duplicates()
    &&& forall|r: u32| #[trigger] occupied(alloc).contains(r) ==> r < total
}

/// A consistent file has at most as many free registers as registers.
proof fn lemma_free_bounded(file: FileModel)
    requires
        file.consistent(),
    ensures
        file.free.finite(),
        file.free.len() <= file.total,
        file.free_count() == file.free.len(),
{
    register_file::lemma_bounded_set(file.free, file.total);
}

proof fn lemma_numbers_of_registers(s: Seq<u32>)
    ensures
        register_file::numbers(scan::registers(s)) == s,
{
    assert(register_file::numbers(scan::registers(s)) =~= s);
}

/// Dropping allocations keeps a file consistent.
proof fn lemma_drop_keeps_consistent(file: FileModel, vregs: Set<u32>)
    requires
        file.consistent(),
    ensures
        file.drop_vregs(vregs).consistent(),
{
    let after = file.drop_vregs(vregs);
    assert forall|v: u32, r: u32| #[trigger] after.holds(v, r) implies r < after.total
        && !after.free.contains(r) by {
        assert(file.holds(v, r));
        if file.held_by(vregs).contains(r) {
            let w = choose|w: u32| vregs.contains(w) && #[trigger] file.holds(w, r);
            assert(v == w);
        }
    }
    assert forall|v: u32, w: u32, r: u32| #[trigger]
        after.holds(v, r) && #[trigger] after.holds(w, r) implies v == w by {
        assert(file.holds(v, r) && file.holds(w, r));
    }
}

/// The registers that a placed request gets are free, different, and as many as it needs; the
/// file stays consistent.
proof fn lemma_place(state: ScanState, req: AllocationRequest)
    requires
        state.file.consistent(),
        state.has_room(req),
    ensures
        sound(state.allocation_for(req), state.file.total),
        state.allocation_for(req).registers_used == req.demand(),
        forall|r: u32| #[trigger]
            occupied(state.allocation_for(req)).contains(r) ==> state.file.free.contains(r),
        state.place(req).file.consistent(),
        forall|v: u32, r: u32| #[trigger]
            state.place(req).file.holds(v, r) <==> (if v == req.vreg.0 {
                occupied(state.allocation_for(req)).contains(r)
            } else {
                state.file.holds(v, r)
            }),
        state.place(req).file.free == state.file.free.difference(
            occupied(state.allocation_for(req)).to_set(),
        ),
{
    let file = state.file;
    let n = req.demand();
    let alloc = state.allocation_for(req);
    let list = order::ascending(file.free);
    lemma_free_bounded(file);
    order::lemma_ascending(file.free);
    lemma_numbers_of_registers(list.take(n as int));
    assert(occupied(alloc) == list.take(n as int));
    assert forall|r: u32| #[trigger] occupied(alloc).contains(r) implies file.free.contains(r) by {
        let i = choose|i: int| 0 <= i < n && list.take(n as int)[i] == r;
        assert(list[i] == r);
        assert(list.contains(r));
    }
    let after = state.place(req).file;
    assert forall|v: u32, r: u32| #[trigger]
        after.holds(v, r) <==> (if v == req.vreg.0 {
            occupied(alloc).contains(r)
        } else {
            file.holds(v, r)
        }) by {
    }
    assert forall|v: u32, r: u32| #[trigger] after.holds(v, r) implies r < after.total
        && !after.free.contains(r) by {
        if v == req.vreg.0 {
            assert(occupied(alloc).contains(r));
            assert(file.free.contains(r));
        } else {
            assert(file.holds(v, r));
        }
    }
    assert forall|v: u32, w: u32, r: u32| #[trigger]
        after.holds(v, r) && #[trigger] after.holds(w, r) implies v == w by {
        if v == req.vreg.0 && w != req.vreg.0 {
            assert(occupied(alloc).contains(r) && file.holds(w, r));
        } else if w == req.vreg.0 && v != req.vreg.0 {
            assert(occupied(alloc).contains(r) && file.holds(v, r));
        } else if v != req.vreg.0 {
            assert(file.holds(v, r) && file.holds(w, r));
        }
    }
}

/// `alloc` answers one of `requests` with as many registers as it needs.
pub open spec fn serves(
    alloc: AllocationModel,
    requests: Seq<AllocationRequest>,
    total: u32,
) -> bool {
    &&& sound(alloc, total)
    &&& exists|k: int|
        0 <= k < requests.len() && scan::answers(alloc, #[trigger] requests[k])
            && alloc.registers_used == requests[k].demand()
}

/// Releasing what has ended keeps the scan on track, and leaves nothing on record that has ended.
proof fn lemma_expire_tracks(state: ScanState, requests: Seq<AllocationRequest>, point: u32)
    requires
        state.tracks(requests),
    ensures
        state.expire(point).tracks(requests),
        forall|v: u32| #[trigger]
            state.expire(point).file.by_vreg.contains_key(v) ==> state.expire(
                point,
            ).file.by_vreg[v].live_range.end > point,
{
    let cleared = state.expire(point);
    let gone = scan::expired(state.active, point);
    lemma_drop_keeps_consistent(state.file, gone);
    assert forall|v: u32| #[trigger] cleared.file.by_vreg.contains_key(v) implies {
        &&& cleared.file.by_vreg[v].vreg.0 == v
        &&& scan::answers_any(cleared.file.by_vreg[v], requests)
        &&& scan::ends_at(cleared.active, cleared.file.by_vreg[v].live_range.end, v)
        &&& cleared.file.by_vreg[v].live_range.end > point
    } by {
        assert(state.file.by_vreg.contains_key(v));
        let end = state.file.by_vreg[v].live_range.end;
        assert(scan::ends_at(state.active, end, v));
        if end <= point {
            assert(gone.contains(v));
        }
        let i = choose|i: int|
            0 <= i < state.active[end].len() && (#[trigger] state.active[end][i]).vreg.0 == v;
        assert(cleared.active[end][i].vreg.0 == v);
    }
    assert forall|end: u32, i: int|
        #![trigger cleared.active[end][i]]
        cleared.active.contains_key(end) && 0 <= i
            < cleared.active[end].len() implies cleared.active[end][i].live_range.end == end
        && scan::answers_any(cleared.active[end][i], requests) by {
        assert(state.active[end][i].live_range.end == end);
    }
}

/// With requests for different virtual registers, what is on record stays so while it lasts.
proof fn lemma_expire_keeps_unended(
    state: ScanState,
    requests: Seq<AllocationRequest>,
    v: u32,
    point: u32,
)
    requires
        state.tracks(requests),
        scan::distinct_vregs(requests),
        state.file.by_vreg.contains_key(v),
        state.file.by_vreg[v].live_range.end > point,
    ensures
        state.expire(point).file.by_vreg.contains_key(v),
        state.expire(point).file.by_vreg[v] == state.file.by_vreg[v],
{
    let alloc = state.file.by_vreg[v];
    if scan::expired(state.active, point).contains(v) {
        let end = choose|end: u32|
            end <= point && #[trigger] scan::ends_at(state.active, end, v);
        let m = choose|m: int|
            0 <= m < state.active[end].len() && (#[trigger] state.active[end][m]).vreg.0 == v;
        let other = state.active[end][m];
        assert(other.live_range.end == end);
        let k = choose|k: int|
            0 <= k < requests.len() && scan::answers(alloc, #[trigger] requests[k]);
        let j = choose|j: int|
            0 <= j < requests.len() && scan::answers(other, #[trigger] requests[j]);
        assert(requests[j].vreg == requests[k].vreg);
        if j < k {
            assert(requests[j].vreg != requests[k].vreg);
        } else if k < j {
            assert(requests[k].vreg != requests[j].vreg);
        }
    }
}

/// A step keeps the scan on track.
proof fn lemma_step_tracks(state: ScanState, requests: Seq<AllocationRequest>, k: int)
    requires
        state.tracks(requests),
        0 <= k < requests.len(),
    ensures
        state.expire(requests[k].live_range.start).tracks(requests),
        state.step(requests[k]).tracks(requests),
        state.step(requests[k]).file.total == state.file.total,
{
    let req = requests[k];
    let cleared = state.expire(req.live_range.start);
    lemma_expire_tracks(state, requests, req.live_range.start);
    if cleared.has_room(req) {
        lemma_place(cleared, req);
        let alloc = cleared.allocation_for(req);
        let after = cleared.place(req);
        assert(scan::answers(alloc, requests[k]));
        assert forall|v: u32| #[trigger] after.file.by_vreg.contains_key(v) implies {
            &&& after.file.by_vreg[v].vreg.0 == v
            &&& scan::answers_any(after.file.by_vreg[v], requests)
            &&& scan::ends_at(after.active, after.file.by_vreg[v].live_range.end, v)
        } by {
            let end = after.file.by_vreg[v].live_range.end;
            if v == alloc.vreg.0 {
                assert(after.active[end][after.active[end].len() - 1].vreg.0 == v);
            } else {
                assert(cleared.file.by_vreg.contains_key(v));
                let i = choose|i: int|
                    0 <= i < cleared.active[end].len() && (#[trigger] cleared.active[end][i]).vreg.0
                        == v;
                assert(after.active[end][i].vreg.0 == v);
            }
        }
        assert forall|end: u32, i: int|
            #![trigger after.active[end][i]]
            after.active.contains_key(end) && 0 <= i
                < after.active[end].len() implies after.active[end][i].live_range.end == end
            && scan::answers_any(after.active[end][i], requests) by {
            if cleared.active.contains_key(end) && i < cleared.active[end].len() {
                assert(cleared.active[end][i].live_range.end == end);
                assert(after.active[end][i] == cleared.active[end][i]);
            } else {
                assert(after.active[end][i] == alloc);
            }
        }
    }
}

/// After any number of requests the scan is on track, and each allocation serves one of them.
proof fn lemma_scan_tracks(requests: Seq<AllocationRequest>, n: int, start: ScanState)
    requires
        start.tracks(requests),
        start.allocations.len() == 0,
        0 <= n <= requests.len(),
    ensures
        scan::scan(requests.take(n), start).tracks(requests),
        scan::scan(requests.take(n), start).file.total == start.file.total,
        forall|i: int|
            0 <= i < scan::scan(requests.take(n), start).allocations.len() ==> serves(
                #[trigger] scan::scan(requests.take(n), start).allocations[i],
                requests.take(n),
                start.file.total,
            ),
    decreases n,
{
    if n > 0 {
        lemma_scan_tracks(requests, n - 1, start);
        let earlier = requests.take(n - 1);
        let done = requests.take(n);
        assert(done.drop_last() =~= earlier);
        let state = scan::scan(earlier, start);
        let req = requests[n - 1];
        lemma_step_tracks(state, requests, n - 1);
        let cleared = state.expire(req.live_range.start);
        let after = scan::scan(done, start);
        if cleared.has_room(req) {
            lemma_place(cleared, req);
        }
        assert forall|i: int| 0 <= i < after.allocations.len() implies serves(
            #[trigger] after.allocations[i],
            done,
            start.file.total,
        ) by {
            if i < state.allocations.len() {
                assert(serves(state.allocations[i], earlier, start.file.total));
                let k = choose|k: int|
                    0 <= k < earlier.len() && scan::answers(
                        state.allocations[i],
                        #[trigger] earlier[k],
                    ) && state.allocations[i].registers_used == earlier[k].demand();
                assert(done[k] == earlier[k]);
            } else {
                assert(scan::answers(after.allocations[i], done[n - 1]));
            }
        }
    }
}

/// Sorting keeps the requests.
proof fn lemma_sorted_contains(requests: Seq<AllocationRequest>)
    ensures
        order::stable_sort(requests).len() == requests.len(),
        forall|req: AllocationRequest|
            order::stable_sort(requests).contains(req) <==> requests.contains(req),
{
    broadcast use vstd::seq_lib::group_to_multiset_ensures;

    let sorted = order::stable_sort(requests);
    order::lemma_stable_sort(requests);
    assert forall|req: AllocationRequest| sorted.contains(req) <==> requests.contains(req) by {
        assert(sorted.contains(req) <==> sorted.to_multiset().count(req) > 0);
        assert(requests.contains(req) <==> requests.to_multiset().count(req) > 0);
    }
}

/// Requests for different virtual registers are still so after sorting.
proof fn lemma_sorted_distinct_vregs(requests: Seq<AllocationRequest>)
    requires
        scan::distinct_vregs(requests),
    ensures
        scan::distinct_vregs(order::stable_sort(requests)),
{
    broadcast use vstd::seq_lib::group_to_multiset_ensures;

    let sorted = order::stable_sort(requests);
    order::lemma_stable_sort(requests);
    lemma_sorted_contains(requests);
    assert(requests.no_duplicates()) by {
        assert forall|i: int, j: int|
            0 <= i < requests.len() && 0 <= j < requests.len() && i != j implies requests[i]
            != requests[j] by {
            if i < j {
                assert(requests[i].vreg != requests[j].vreg);
            } else {
                assert(requests[j].vreg != requests[i].vreg);
            }
        }
    }
    requests.lemma_multiset_has_no_duplicates();
    sorted.lemma_multiset_has_no_duplicates_conv();
    assert forall|i: int, j: int| 0 <= i < j < sorted.len() implies (#[trigger] sorted[i]).vreg != (
    #[trigger] sorted[j]).vreg by {
        assert(sorted[i] != sorted[j]);
        assert(sorted.contains(sorted[i]) && sorted.contains(sorted[j]));
        assert(requests.contains(sorted[i]) && requests.contains(sorted[j]));
        let a = choose|a: int| 0 <= a < requests.len() && requests[a] == sorted[i];
        let b = choose|b: int| 0 <= b < requests.len() && requests[b] == sorted[j];
        if a < b {
            assert(requests[a].vreg != requests[b].vreg);
        } else {
            assert(requests[b].vreg != requests[a].vreg);
        }
    }
}

/// What answers a request answers it whatever the order of the requests, and when there are more.
proof fn lemma_answers_any_monotone(
    alloc: AllocationModel,
    some: Seq<AllocationRequest>,
    more: Seq<AllocationRequest>,
)
    requires
        scan::answers_any(alloc, some),
        forall|req: AllocationRequest| some.contains(req) ==> more.contains(req),
    ensures
        scan::answers_any(alloc, more),
{
    let k = choose|k: int| 0 <= k < some.len() && scan::answers(alloc, #[trigger] some[k]);
    assert(some.contains(some[k]));
    assert(more.contains(some[k]));
    let j = choose|j: int| 0 <= j < more.len() && more[j] == some[k];
    assert(scan::answers(alloc, more[j]));
}

proof fn lemma_tracks_monotone(
    state: ScanState,
    some: Seq<AllocationRequest>,
    more: Seq<AllocationRequest>,
)
    requires
        state.tracks(some),
        forall|req: AllocationRequest| some.contains(req) ==> more.contains(req),
    ensures
        state.tracks(more),
{
    assert forall|v: u32| #[trigger] state.file.by_vreg.contains_key(v) implies {
        &&& state.file.by_vreg[v].vreg.0 == v
        &&& scan::answers_any(state.file.by_vreg[v], more)
        &&& scan::ends_at(state.active, state.file.by_vreg[v].live_range.end, v)
    } by {
        lemma_answers_any_monotone(state.file.by_vreg[v], some, more);
    }
    assert forall|end: u32, i: int|
        #![trigger state.active[end][i]]
        state.active.contains_key(end) && 0 <= i
            < state.active[end].len() implies state.active[end][i].live_range.end == end
        && scan::answers_any(state.active[end][i], more) by {
        lemma_answers_any_monotone(state.active[end][i], some, more);
    }
}

/// Adding a request keeps an allocator well formed.
pub proof fn lemma_with_request_wf(model: AllocatorModel, req: AllocationRequest)
    requires
        model.wf(),
    ensures
        model.with_request(req).wf(),
{
    let more = model.with_request(req);
    assert forall|r: AllocationRequest| model.requests.contains(r) implies more.requests.contains(
        r,
    ) by {
        let i = choose|i: int| 0 <= i < model.requests.len() && model.requests[i] == r;
        assert(more.requests[i] == r);
    }
    lemma_tracks_monotone(model.scan_start(), model.requests, more.requests);
    assert(more.scan_start() =~= model.scan_start());
}

/// A fresh allocator is well formed.
pub proof fn lemma_fresh_wf(total_registers: u32)
    ensures
        AllocatorModel::fresh(total_registers).wf(),
{
}

/// A run keeps an allocator well formed, and each allocation it makes serves one of its requests:
/// as many registers as the request needs, all different, all of the file.
pub proof fn lemma_run_serves_requests(model: AllocatorModel)
    requires
        model.wf(),
    ensures
        model.after_run().wf(),
        model.after_run().file.total == model.file.total,
        forall|i: int|
            0 <= i < model.scan_end().allocations.len() ==> serves(
                #[trigger] model.scan_end().allocations[i],
                model.requests,
                model.file.total,
            ),
{
    let sorted = order::stable_sort(model.requests);
    let start = model.scan_start();
    let end = model.scan_end();
    lemma_sorted_contains(model.requests);
    lemma_tracks_monotone(start, model.requests, sorted);
    lemma_scan_tracks(sorted, sorted.len() as int, start);
    assert(sorted.take(sorted.len() as int) =~= sorted);
    assert(end.tracks(sorted));
    assert forall|i: int| 0 <= i < end.allocations.len() implies serves(
        #[trigger] end.allocations[i],
        model.requests,
        model.file.total,
    ) by {
        let alloc = end.allocations[i];
        assert(serves(alloc, sorted, model.file.total));
        let k = choose|k: int|
            0 <= k < sorted.len() && scan::answers(alloc, #[trigger] sorted[k])
                && alloc.registers_used == sorted[k].demand();
        assert(sorted.contains(sorted[k]));
        assert(model.requests.contains(sorted[k]));
        let j = choose|j: int| 0 <= j < model.requests.len() && model.requests[j] == sorted[k];
        assert(scan::answers(alloc, model.requests[j]));
    }
}

/// No register is occupied by two of the allocations at the same point.
pub open spec fn conflict_free(allocations: Seq<AllocationModel>) -> bool {
    forall|i: int, j: int, point: u32, r: u32|
        #![trigger allocations[i].live_range.covers(point), allocations[j].live_range.covers(point), occupied(allocations[i]).contains(r)]
        0 <= i < j < allocations.len() && allocations[i].live_range.covers(point)
            && allocations[j].live_range.covers(point) ==> !(occupied(allocations[i]).contains(r)
            && occupied(allocations[j]).contains(r))
}

/// No allocation has a register of an earlier one that ends after it starts.
pub open spec fn kept_apart(allocations: Seq<AllocationModel>) -> bool {
    forall|i: int, j: int, r: u32|
        #![trigger occupied(allocations[i]).contains(r), occupied(allocations[j]).contains(r)]
        0 <= i < j < allocations.len() && allocations[j].live_range.start
            < allocations[i].live_range.end ==> !(occupied(allocations[i]).contains(r) && occupied(
            allocations[j],
        ).contains(r))
}

/// Allocations that are kept apart do not conflict.
proof fn lemma_kept_apart_conflict_free(allocations: Seq<AllocationModel>)
    requires
        kept_apart(allocations),
    ensures
        conflict_free(allocations),
{
    assert forall|i: int, j: int, point: u32, r: u32|
        #![trigger allocations[i].live_range.covers(point), allocations[j].live_range.covers(point), occupied(allocations[i]).contains(r)]
        0 <= i < j < allocations.len() && allocations[i].live_range.covers(point)
            && allocations[j].live_range.covers(point) implies !(occupied(allocations[i]).contains(r)
        && occupied(allocations[j]).contains(r)) by {
        assert(allocations[j].live_range.start < allocations[i].live_range.end);
    }
}

/// An allocation of the run that its virtual register has on record is there unchanged, and those
/// that are not over at `point` are on record.
spec fn retained(state: ScanState, point: u32) -> bool {
    forall|i: int|
        #![trigger state.allocations[i]]
        0 <= i < state.allocations.len() ==> {
            &&& state.file.by_vreg.contains_key(state.allocations[i].vreg.0)
                ==> state.file.by_vreg[state.allocations[i].vreg.0] == state.allocations[i]
            &&& state.allocations[i].live_range.end > point ==> state.file.by_vreg.contains_key(
                state.allocations[i].vreg.0,
            )
        }
}

/// What is not over at `point` survives the release of what is.
proof fn lemma_expire_retains(
    state: ScanState,
    requests: Seq<AllocationRequest>,
    last: u32,
    point: u32,
)
    requires
        scan::distinct_vregs(requests),
        state.tracks(requests),
        retained(state, last),
        last <= point,
    ensures
        retained(state.expire(point), point),
{
    let cleared = state.expire(point);
    assert forall|i: int| #![trigger cleared.allocations[i]] 0 <= i < cleared.allocations.len() implies {
        &&& cleared.file.by_vreg.contains_key(cleared.allocations[i].vreg.0)
            ==> cleared.file.by_vreg[cleared.allocations[i].vreg.0] == cleared.allocations[i]
        &&& cleared.allocations[i].live_range.end > point ==> cleared.file.by_vreg.contains_key(
            cleared.allocations[i].vreg.0,
        )
    } by {
        let alloc = state.allocations[i];
        if alloc.live_range.end > point {
            lemma_expire_keeps_unended(state, requests, alloc.vreg.0, point);
        }
    }
}

/// An allocation that serves one of the first requests is not for the virtual register of a later
/// one.
proof fn lemma_serves_other_vreg(
    alloc: AllocationModel,
    requests: Seq<AllocationRequest>,
    n: int,
    total: u32,
)
    requires
        0 <= n < requests.len(),
        scan::distinct_vregs(requests),
        serves(alloc, requests.take(n), total),
    ensures
        alloc.vreg != requests[n].vreg,
{
    let earlier = requests.take(n);
    let k = choose|k: int|
        0 <= k < earlier.len() && scan::answers(alloc, #[trigger] earlier[k])
            && alloc.registers_used == earlier[k].demand();
    assert(earlier[k] == requests[k]);
    assert(requests[k].vreg != requests[n].vreg);
}

/// A scan in ascending order over requests for different virtual registers keeps the allocations
/// apart. After a request, an allocation is on record exactly if it ends after the start of that
/// request or answers it.
proof fn lemma_scan_record(requests: Seq<AllocationRequest>, n: int, start: ScanState)
    requires
        start.tracks(requests),
        start.allocations.len() == 0,
        order::sorted(requests),
        scan::distinct_vregs(requests),
        0 <= n <= requests.len(),
    ensures
        ({
            let end = scan::scan(requests.take(n), start);
            &&& kept_apart(end.allocations)
            &&& n > 0 ==> retained(end, requests[n - 1].live_range.start)
            &&& n > 0 ==> forall|i: int|
                #![trigger end.allocations[i]]
                0 <= i < end.allocations.len() ==> (end.file.by_vreg.contains_key(
                    end.allocations[i].vreg.0,
                ) <==> end.allocations[i].live_range.end > requests[n - 1].live_range.start
                    || end.allocations[i].vreg == requests[n - 1].vreg)
        }),
    decreases n,
{
    if n > 0 {
        lemma_scan_record(requests, n - 1, start);
        lemma_scan_tracks(requests, n - 1, start);
        let earlier = requests.take(n - 1);
        let done = requests.take(n);
        assert(done.drop_last() =~= earlier);
        let state = scan::scan(earlier, start);
        let req = requests[n - 1];
        let point = req.live_range.start;
        let cleared = state.expire(point);
        let after = scan::scan(done, start);
        lemma_expire_tracks(state, requests, point);
        if n > 1 {
            assert(requests[n - 2].sort_key() <= requests[n - 1].sort_key());
            lemma_expire_retains(state, requests, requests[n - 2].live_range.start, point);
        }
        assert(retained(cleared, point));
        if cleared.has_room(req) {
            lemma_place(cleared, req);
        }
        assert forall|i: int| #![trigger after.allocations[i]] 0 <= i < after.allocations.len() implies {
            let alloc = after.allocations[i];
            &&& after.file.by_vreg.contains_key(alloc.vreg.0) ==> after.file.by_vreg[alloc.vreg.0]
                == alloc
            &&& after.file.by_vreg.contains_key(alloc.vreg.0) <==> alloc.live_range.end > point
                || alloc.vreg == req.vreg
        } by {
            if i < state.allocations.len() {
                let alloc = cleared.allocations[i];
                assert(serves(state.allocations[i], earlier, start.file.total));
                lemma_serves_other_vreg(alloc, requests, n - 1, start.file.total);
                assert(after.file.by_vreg.contains_key(alloc.vreg.0)
                    == cleared.file.by_vreg.contains_key(alloc.vreg.0));
            }
        }
        let made = after.allocations;
        assert forall|i: int, j: int, r: u32|
            #![trigger occupied(made[i]).contains(r), occupied(made[j]).contains(r)]
            0 <= i < j < made.len() && made[j].live_range.start
                < made[i].live_range.end implies !(occupied(made[i]).contains(r) && occupied(
            made[j],
        ).contains(r)) by {
            let a = cleared.allocations[i];
            assert(made[i] == a);
            if j < state.allocations.len() {
                assert(made[j] == state.allocations[j]);
                assert(!(occupied(state.allocations[i]).contains(r) && occupied(
                    state.allocations[j],
                ).contains(r)));
            } else if occupied(a).contains(r) {
                assert(cleared.file.by_vreg.contains_key(a.vreg.0));
                assert(cleared.file.holds(a.vreg.0, r));
            }
        }
    }
}

/// The registers that are occupied at `point`.
pub open spec fn occupied_at(allocations: Seq<AllocationModel>, point: u32) -> Set<u32> {
    Set::new(
        |r: u32|
            exists|i: int|
                0 <= i < allocations.len() && allocations[i].live_range.covers(point)
                    && #[trigger] occupied(allocations[i]).contains(r),
    )
}

/// Without conflicts, the pressure at a point is the number of registers occupied there.
pub proof fn lemma_pressure_counts_registers(
    allocations: Seq<AllocationModel>,
    point: u32,
    total: u32,
)
    requires
        conflict_free(allocations),
        forall|i: int| 0 <= i < allocations.len() ==> sound(#[trigger] allocations[i], total),
    ensures
        occupied_at(allocations, point).finite(),
        occupied_at(allocations, point).len() == pressure::pressure(
            scan::loads(allocations),
            point,
        ),
        forall|r: u32| #[trigger] occupied_at(allocations, point).contains(r) ==> r < total,
    decreases allocations.len(),
{
    let here = occupied_at(allocations, point);
    if allocations.len() == 0 {
        assert(here =~= Set::empty());
    } else {
        let rest = allocations.drop_last();
        let last = allocations.last();
        assert forall|i: int| 0 <= i < rest.len() implies sound(#[trigger] rest[i], total) by {
            assert(sound(allocations[i], total));
        }
        assert forall|i: int, j: int, p: u32, r: u32|
            #![trigger rest[i].live_range.covers(p), rest[j].live_range.covers(p), occupied(rest[i]).contains(r)]
            0 <= i < j < rest.len() && rest[i].live_range.covers(p) && rest[j].live_range.covers(
                p,
            ) implies !(occupied(rest[i]).contains(r) && occupied(rest[j]).contains(r)) by {
            assert(allocations[i].live_range.covers(p) && allocations[j].live_range.covers(p));
            if occupied(rest[i]).contains(r) {
                assert(occupied(allocations[i]).contains(r));
            }
        }
        lemma_pressure_counts_registers(rest, point, total);
        assert(scan::loads(allocations).drop_last() =~= scan::loads(rest));
        let before = occupied_at(rest, point);
        assert(sound(allocations[allocations.len() - 1], total));
        let own = occupied(last).to_set();
        assert forall|r: u32| #[trigger] here.contains(r) <==> before.contains(r) || (
        last.live_range.covers(point) && own.contains(r)) by {
            if before.contains(r) {
                let i = choose|i: int|
                    0 <= i < rest.len() && rest[i].live_range.covers(point) && #[trigger] occupied(
                        rest[i],
                    ).contains(r);
                assert(occupied(allocations[i]).contains(r));
            }
            if here.contains(r) {
                let i = choose|i: int|
                    0 <= i < allocations.len() && allocations[i].live_range.covers(point)
                        && #[trigger] occupied(allocations[i]).contains(r);
                if i < rest.len() {
                    assert(occupied(rest[i]).contains(r));
                } else {
                    assert(allocations[i] == last);
                }
            }
            if last.live_range.covers(point) && own.contains(r) {
                assert(occupied(allocations[allocations.len() - 1]).contains(r));
            }
        }
        if last.live_range.covers(point) {
            assert(here =~= before + own);
            assert(before.disjoint(own)) by {
                assert forall|r: u32| before.contains(r) implies !own.contains(r) by {
                    let i = choose|i: int|
                        0 <= i < rest.len() && rest[i].live_range.covers(point)
                            && #[trigger] occupied(rest[i]).contains(r);
                    assert(allocations[i].live_range.covers(point));
                    assert(allocations[allocations.len() - 1].live_range.covers(point));
                    assert(occupied(allocations[i]).contains(r));
                }
            }
            occupied(last).unique_seq_to_set();
            vstd::seq_lib::seq_to_set_is_finite(occupied(last));
            vstd::set_lib::lemma_set_disjoint_lens(before, own);
        } else {
            assert(here =~= before);
        }
    }
}

/// A run over requests for different virtual registers never gives a value a register of an earlier
/// one that ends after it starts. So no two values that are alive at the same point share a
/// register, and the run never occupies more registers than there are.
pub proof fn lemma_run_conflict_free(model: AllocatorModel)
    requires
        model.wf(),
        scan::distinct_vregs(model.requests),
    ensures
        kept_apart(model.scan_end().allocations),
        conflict_free(model.scan_end().allocations),
        forall|point: u32| #[trigger]
            pressure::pressure(scan::loads(model.scan_end().allocations), point)
                <= model.file.total,
        model.peak_fits(),
{
    let sorted = order::stable_sort(model.requests);
    let start = model.scan_start();
    let allocations = model.scan_end().allocations;
    order::lemma_stable_sort(model.requests);
    lemma_sorted_contains(model.requests);
    lemma_sorted_distinct_vregs(model.requests);
    lemma_tracks_monotone(start, model.requests, sorted);
    lemma_scan_record(sorted, sorted.len() as int, start);
    assert(sorted.take(sorted.len() as int) =~= sorted);
    lemma_kept_apart_conflict_free(allocations);
    lemma_run_serves_requests(model);
    assert forall|i: int| 0 <= i < allocations.len() implies sound(
        #[trigger] allocations[i],
        model.file.total,
    ) by {
        assert(serves(allocations[i], model.requests, model.file.total));
    }
    assert forall|point: u32| #[trigger]
        pressure::pressure(scan::loads(allocations), point) <= model.file.total by {
        lemma_pressure_counts_registers(allocations, point, model.file.total);
        register_file::lemma_bounded_set(occupied_at(allocations, point), model.file.total);
    }
}

/// Every register of the file is free or held, and everything on record is an allocation of the
/// run.
pub open spec fn accounted(state: ScanState) -> bool {
    &&& forall|r: u32|
        r < state.file.total && !(#[trigger] state.file.free.contains(r)) ==> exists|v: u32| #[trigger]
            state.file.holds(v, r)
    &&& forall|v: u32| #[trigger]
        state.file.by_vreg.contains_key(v) ==> state.allocations.contains(state.file.by_vreg[v])
}

/// Releasing what has ended keeps the accounts.
proof fn lemma_expire_accounted(state: ScanState, point: u32)
    requires
        accounted(state),
    ensures
        accounted(state.expire(point)),
{
    let cleared = state.expire(point);
    let gone = scan::expired(state.active, point);
    assert forall|v: u32| #[trigger]
        cleared.file.by_vreg.contains_key(v) implies cleared.allocations.contains(
        cleared.file.by_vreg[v],
    ) by {
        assert(state.file.by_vreg.contains_key(v));
    }
    assert forall|r: u32|
        r < cleared.file.total && !(#[trigger] cleared.file.free.contains(r)) implies exists|
        v: u32,
    | #[trigger] cleared.file.holds(v, r) by {
        assert(!state.file.free.contains(r));
        let v = choose|v: u32| #[trigger] state.file.holds(v, r);
        if gone.contains(v) {
            assert(state.file.held_by(gone).contains(r));
        }
        assert(cleared.file.holds(v, r));
    }
}

/// Placing a request for a virtual register without allocation keeps the accounts.
proof fn lemma_place_accounted(state: ScanState, req: AllocationRequest)
    requires
        state.file.consistent(),
        accounted(state),
        !state.file.by_vreg.contains_key(req.vreg.0),
    ensures
        accounted(state.place(req)),
{
    if state.has_room(req) {
        lemma_place(state, req);
        let alloc = state.allocation_for(req);
        let after = state.place(req);
        assert forall|r: u32|
            r < after.file.total && !(#[trigger] after.file.free.contains(r)) implies exists|
            v: u32,
        | #[trigger] after.file.holds(v, r) by {
            if occupied(alloc).contains(r) {
                assert(after.file.holds(req.vreg.0, r));
            } else {
                assert(!state.file.free.contains(r));
                let v = choose|v: u32| #[trigger] state.file.holds(v, r);
                assert(after.file.holds(v, r));
            }
        }
        assert forall|v: u32| #[trigger]
            after.file.by_vreg.contains_key(v) implies after.allocations.contains(
            after.file.by_vreg[v],
        ) by {
            if v == req.vreg.0 {
                assert(after.allocations[state.allocations.len() as int] == alloc);
            } else {
                assert(state.file.by_vreg.contains_key(v));
                let held = state.file.by_vreg[v];
                let i = choose|i: int|
                    0 <= i < state.allocations.len() && state.allocations[i] == held;
                assert(after.allocations[i] == held);
            }
        }
    }
}

proof fn lemma_scan_accounted(requests: Seq<AllocationRequest>, n: int, start: ScanState)
    requires
        start.tracks(requests),
        accounted(start),
        start.allocations.len() == 0,
        scan::distinct_vregs(requests),
        0 <= n <= requests.len(),
    ensures
        accounted(scan::scan(requests.take(n), start)),
    decreases n,
{
    if n > 0 {
        lemma_scan_accounted(requests, n - 1, start);
        lemma_scan_tracks(requests, n - 1, start);
        let earlier = requests.take(n - 1);
        assert(requests.take(n).drop_last() =~= earlier);
        let state = scan::scan(earlier, start);
        let req = requests[n - 1];
        let cleared = state.expire(req.live_range.start);
        lemma_expire_tracks(state, requests, req.live_range.start);
        lemma_expire_accounted(state, req.live_range.start);
        if cleared.file.by_vreg.contains_key(req.vreg.0) {
            let held = cleared.file.by_vreg[req.vreg.0];
            let i = choose|i: int|
                0 <= i < cleared.allocations.len() && cleared.allocations[i] == held;
            assert(serves(state.allocations[i], earlier, start.file.total));
            lemma_serves_other_vreg(held, requests, n - 1, start.file.total);
        }
        lemma_place_accounted(cleared, req);
    }
}

/// In the first run of an allocator, over requests for different virtual registers: when a
/// request is placed, the free registers are those that the values alive at its start leave
/// over. So it is spilled exactly if these are too few for it.
pub proof fn lemma_free_registers_are_the_rest(model: AllocatorModel, k: int)
    requires
        model.unused(),
        scan::distinct_vregs(model.requests),
        0 <= k < model.requests.len(),
    ensures
        ({
            let req = order::stable_sort(model.requests)[k];
            let state = model.before_placing(k);
            let alive = pressure::pressure(
                scan::loads(state.allocations),
                req.live_range.start,
            );
            &&& state.file.free_count() + alive == model.file.total
            &&& state.has_room(req) <==> alive + req.demand() <= model.file.total
        }),
{
    let sorted = order::stable_sort(model.requests);
    let start = model.scan_start();
    order::lemma_stable_sort(model.requests);
    lemma_sorted_distinct_vregs(model.requests);
    assert(start.tracks(sorted));
    assert(accounted(start));
    lemma_scan_tracks(sorted, k, start);
    lemma_scan_accounted(sorted, k, start);
    lemma_scan_record(sorted, k, start);
    let done = sorted.take(k);
    let state = scan::scan(done, start);
    let req = sorted[k];
    let point = req.live_range.start;
    let cleared = state.expire(point);
    let total = model.file.total;
    lemma_expire_tracks(state, sorted, point);
    lemma_expire_accounted(state, point);
    if k > 0 {
        assert(sorted[k - 1].sort_key() <= sorted[k].sort_key());
        lemma_expire_retains(state, sorted, sorted[k - 1].live_range.start, point);
    }
    assert(retained(cleared, point));
    let allocations = cleared.allocations;
    assert forall|i: int| 0 <= i < allocations.len() implies sound(#[trigger] allocations[i], total)
        by {
        assert(serves(state.allocations[i], done, total));
    }
    lemma_kept_apart_conflict_free(allocations);
    lemma_pressure_counts_registers(allocations, point, total);
    let busy = occupied_at(allocations, point);
    let free = cleared.file.free;
    assert forall|r: u32| #[trigger] busy.contains(r) <==> r < total && !free.contains(r) by {
        if busy.contains(r) {
            let i = choose|i: int|
                0 <= i < allocations.len() && allocations[i].live_range.covers(point)
                    && #[trigger] occupied(allocations[i]).contains(r);
            assert(cleared.file.holds(allocations[i].vreg.0, r));
        }
        if r < total && !free.contains(r) {
            let v = choose|v: u32| #[trigger] cleared.file.holds(v, r);
            assert(cleared.file.by_vreg.contains_key(v));
            let held = cleared.file.by_vreg[v];
            let i = choose|i: int| 0 <= i < allocations.len() && allocations[i] == held;
            assert(serves(state.allocations[i], done, total));
            let m = choose|m: int|
                0 <= m < done.len() && scan::answers(held, #[trigger] done[m])
                    && held.registers_used == done[m].demand();
            assert(done[m] == sorted[m]);
            assert(sorted[m].sort_key() <= sorted[k].sort_key());
            assert(held.live_range.covers(point));
            assert(occupied(allocations[i]).contains(r));
        }
    }
    lemma_free_bounded(cleared.file);
    let all = FileModel::fresh(total).free;
    lemma_all_registers(total);
    assert(all =~= free + busy);
    vstd::set_lib::lemma_set_disjoint_lens(free, busy);
}

/// A file of `total` registers has that many.
proof fn lemma_all_registers(total: u32)
    ensures
        FileModel::fresh(total).free.finite(),
        FileModel::fresh(total).free.len() == total,
    decreases total,
{
    let all = FileModel::fresh(total).free;
    if total == 0 {
        assert(all =~= Set::empty());
    } else {
        let less = (total - 1) as u32;
        lemma_all_registers(less);
        assert(all =~= FileModel::fresh(less).free.insert(less));
    }
}

/// Spilled requests stay spilled; while none is, every request gets what it needs.
proof fn lemma_all_placed(requests: Seq<AllocationRequest>, n: int, start: ScanState)
    requires
        start.allocations.len() == 0,
        0 <= n <= requests.len(),
    ensures
        scan::scan(requests.take(n), start).spilled.len() >= start.spilled.len(),
        scan::scan(requests.take(n), start).spilled.len() == start.spilled.len() ==> scan::loads(
            scan::scan(requests.take(n), start).allocations,
        ) == scan::demands(requests.take(n)),
    decreases n,
{
    let after = scan::scan(requests.take(n), start);
    if n > 0 {
        lemma_all_placed(requests, n - 1, start);
        let earlier = requests.take(n - 1);
        assert(requests.take(n).drop_last() =~= earlier);
        let state = scan::scan(earlier, start);
        let req = requests[n - 1];
        let cleared = state.expire(req.live_range.start);
        if cleared.has_room(req) && after.spilled.len() == start.spilled.len() {
            assert(scan::loads(after.allocations) =~= scan::loads(state.allocations).push(
                (req.live_range, req.demand() as u32),
            ));
            assert(scan::demands(requests.take(n)) =~= scan::demands(earlier).push(
                (req.live_range, req.demand() as u32),
            ));
        }
    } else {
        assert(scan::loads(after.allocations) =~= scan::demands(requests.take(n)));
    }
}

/// The number of spilled requests does not fall from one request to the next.
proof fn lemma_spilled_grows(requests: Seq<AllocationRequest>, m: int, n: int, start: ScanState)
    requires
        0 <= m <= n <= requests.len(),
    ensures
        scan::scan(requests.take(m), start).spilled.len() <= scan::scan(
            requests.take(n),
            start,
        ).spilled.len(),
    decreases n - m,
{
    if m < n {
        lemma_spilled_grows(requests, m, n - 1, start);
        assert(requests.take(n).drop_last() =~= requests.take(n - 1));
    }
}

/// The request at position `k`, in the order of the run, fits beside those before it that are
/// still alive when it starts.
pub open spec fn fits_beside_earlier(model: AllocatorModel, k: int) -> bool {
    let sorted = order::stable_sort(model.requests);
    pressure::pressure(scan::demands(sorted.take(k)), sorted[k].live_range.start)
        + sorted[k].demand() <= model.file.total
}

/// In the first run of an allocator, over requests for different virtual registers, nothing is
/// spilled exactly if each request fits beside those before it that are still alive when it
/// starts.
pub proof fn lemma_no_spill_iff_each_fits(model: AllocatorModel)
    requires
        model.unused(),
        scan::distinct_vregs(model.requests),
    ensures
        model.scan_end().spilled.len() == 0 <==> forall|k: int|
            0 <= k < model.requests.len() ==> #[trigger] fits_beside_earlier(model, k),
{
    let sorted = order::stable_sort(model.requests);
    let start = model.scan_start();
    order::lemma_stable_sort(model.requests);
    assert(sorted.take(sorted.len() as int) =~= sorted);
    if model.scan_end().spilled.len() == 0 {
        assert forall|k: int| 0 <= k < model.requests.len() implies #[trigger] fits_beside_earlier(
            model,
            k,
        ) by {
            lemma_spilled_grows(sorted, k, sorted.len() as int, start);
            lemma_spilled_grows(sorted, k + 1, sorted.len() as int, start);
            lemma_all_placed(sorted, k, start);
            lemma_free_registers_are_the_rest(model, k);
            assert(sorted.take(k + 1).drop_last() =~= sorted.take(k));
            assert(model.before_placing(k).has_room(sorted[k]));
        }
    }
    if forall|k: int|
        0 <= k < model.requests.len() ==> #[trigger] fits_beside_earlier(model, k) {
        lemma_each_fits_no_spill(model, sorted.len() as int);
    }
}

proof fn lemma_each_fits_no_spill(model: AllocatorModel, n: int)
    requires
        model.unused(),
        scan::distinct_vregs(model.requests),
        0 <= n <= model.requests.len(),
        forall|k: int| 0 <= k < n ==> #[trigger] fits_beside_earlier(model, k),
    ensures
        scan::scan(
            order::stable_sort(model.requests).take(n),
            model.scan_start(),
        ).spilled.len() == 0,
    decreases n,
{
    let sorted = order::stable_sort(model.requests);
    let start = model.scan_start();
    order::lemma_stable_sort(model.requests);
    if n > 0 {
        lemma_each_fits_no_spill(model, n - 1);
        lemma_all_placed(sorted, n - 1, start);
        lemma_free_registers_are_the_rest(model, n - 1);
        assert(sorted.take(n).drop_last() =~= sorted.take(n - 1));
        assert(fits_beside_earlier(model, n - 1));
        assert(model.before_placing(n - 1).has_room(sorted[n - 1]));
    }
}

proof fn lemma_demands_push(requests: Seq<AllocationRequest>, req: AllocationRequest, point: u32)
    ensures
        pressure::pressure(scan::demands(requests.push(req)), point) == pressure::pressure(
            scan::demands(requests),
            point,
        ) + (if req.live_range.covers(point) {
            req.demand()
        } else {
            0
        }),
{
    let more = scan::demands(requests.push(req));
    assert(more.drop_last() =~= scan::demands(requests));
    assert(more.last() == (req.live_range, req.demand() as u32));
}

proof fn lemma_insertion_keeps_pressure(
    requests: Seq<AllocationRequest>,
    req: AllocationRequest,
    point: u32,
)
    ensures
        pressure::pressure(scan::demands(order::insert_sorted(requests, req)), point)
            == pressure::pressure(scan::demands(requests.push(req)), point),
    decreases requests.len(),
{
    if requests.len() > 0 && requests.last().sort_key() > req.sort_key() {
        let rest = requests.drop_last();
        let last = requests.last();
        lemma_insertion_keeps_pressure(rest, req, point);
        lemma_demands_push(order::insert_sorted(rest, req), last, point);
        lemma_demands_push(rest, req, point);
        lemma_demands_push(rest, last, point);
        lemma_demands_push(requests, req, point);
        assert(requests =~= rest.push(last));
    }
}

/// The pressure does not depend on the order of the requests.
pub proof fn lemma_sorting_keeps_pressure(requests: Seq<AllocationRequest>, point: u32)
    ensures
        pressure::pressure(scan::demands(order::stable_sort(requests)), point)
            == pressure::pressure(scan::demands(requests), point),
    decreases requests.len(),
{
    if requests.len() > 0 {
        let rest = requests.drop_last();
        let last = requests.last();
        lemma_sorting_keeps_pressure(rest, point);
        lemma_insertion_keeps_pressure(order::stable_sort(rest), last, point);
        lemma_demands_push(order::stable_sort(rest), last, point);
        lemma_demands_push(rest, last, point);
        assert(requests =~= rest.push(last));
    } else {
        assert(scan::demands(order::stable_sort(requests)) =~= scan::demands(requests));
    }
}

/// In the first run of an allocator, over requests for different virtual registers with no empty
/// live range, nothing is spilled exactly if the pressure of the requests nowhere exceeds the
/// number of registers. (A request with an empty live range needs its registers but adds no
/// pressure.)
pub proof fn lemma_no_spill_iff_pressure_within_file(model: AllocatorModel)
    requires
        model.unused(),
        scan::distinct_vregs(model.requests),
        forall|i: int|
            0 <= i < model.requests.len() ==> (#[trigger] model.requests[i]).live_range.start
                < model.requests[i].live_range.end,
    ensures
        model.scan_end().spilled.len() == 0 <==> forall|point: u32| #[trigger]
            pressure::pressure(scan::demands(model.requests), point) <= model.file.total,
{
    let sorted = order::stable_sort(model.requests);
    let start = model.scan_start();
    let total = model.file.total;
    order::lemma_stable_sort(model.requests);
    lemma_sorted_contains(model.requests);
    assert(sorted.take(sorted.len() as int) =~= sorted);
    lemma_no_spill_iff_each_fits(model);
    if model.scan_end().spilled.len() == 0 {
        lemma_all_placed(sorted, sorted.len() as int, start);
        assert(model.wf());
        lemma_run_conflict_free(model);
        assert forall|point: u32| #[trigger]
            pressure::pressure(scan::demands(model.requests), point) <= total by {
            lemma_sorting_keeps_pressure(model.requests, point);
            assert(pressure::pressure(scan::loads(model.scan_end().allocations), point) <= total);
        }
    }
    if forall|point: u32| #[trigger]
        pressure::pressure(scan::demands(model.requests), point) <= total {
        assert forall|k: int| 0 <= k < model.requests.len() implies #[trigger] fits_beside_earlier(
            model,
            k,
        ) by {
            let req = sorted[k];
            let point = req.live_range.start;
            assert(sorted.contains(req));
            assert(model.requests.contains(req));
            let i = choose|i: int| 0 <= i < model.requests.len() && model.requests[i] == req;
            assert(model.requests[i].live_range.start < model.requests[i].live_range.end);
            lemma_demands_push(sorted.take(k), req, point);
            assert(sorted.take(k + 1) =~= sorted.take(k).push(req));
            pressure::lemma_pressure_of_prefix(scan::demands(sorted), k + 1, point);
            assert(scan::demands(sorted).take(k + 1) =~= scan::demands(sorted.take(k + 1)));
            lemma_sorting_keeps_pressure(model.requests, point);
            assert(pressure::pressure(scan::demands(model.requests), point) <= total);
        }
    }
}

/// A request as it shows in its outcome: virtual register, live range and number of registers.
pub open spec fn outcome_of_request(req: AllocationRequest) -> (u32, LiveRange, nat) {
    (req.vreg.0, req.live_range, req.demand())
}

/// An allocation as the outcome of a request.
pub open spec fn outcome_of_allocation(alloc: AllocationModel) -> (u32, LiveRange, nat) {
    (alloc.vreg.0, alloc.live_range, alloc.registers_used as nat)
}

pub open spec fn outcomes_of_requests(requests: Seq<AllocationRequest>) -> Seq<
    (u32, LiveRange, nat),
> {
    Seq::new(requests.len(), |i: int| outcome_of_request(requests[i]))
}

pub open spec fn outcomes_of_allocations(allocations: Seq<AllocationModel>) -> Seq<
    (u32, LiveRange, nat),
> {
    Seq::new(allocations.len(), |i: int| outcome_of_allocation(allocations[i]))
}

proof fn lemma_scan_partitions(requests: Seq<AllocationRequest>, n: int, start: ScanState)
    requires
        start.allocations.len() == 0,
        0 <= n <= requests.len(),
    ensures
        ({
            let end = scan::scan(requests.take(n), start);
            let before = start.spilled.len() as int;
            &&& start.spilled.len() <= end.spilled.len()
            &&& end.spilled.take(before) == start.spilled
            &&& end.allocations.len() + end.spilled.len() == n + start.spilled.len()
            &&& outcomes_of_allocations(end.allocations).to_multiset().add(
                outcomes_of_requests(end.spilled.skip(before)).to_multiset(),
            ) == outcomes_of_requests(requests.take(n)).to_multiset()
        }),
    decreases n,
{
    broadcast use vstd::seq_lib::group_to_multiset_ensures;

    let end = scan::scan(requests.take(n), start);
    let before = start.spilled.len() as int;
    if n > 0 {
        lemma_scan_partitions(requests, n - 1, start);
        let earlier = requests.take(n - 1);
        assert(requests.take(n).drop_last() =~= earlier);
        let state = scan::scan(earlier, start);
        let req = requests[n - 1];
        let cleared = state.expire(req.live_range.start);
        assert(outcomes_of_requests(requests.take(n)) =~= outcomes_of_requests(earlier).push(
            outcome_of_request(req),
        ));
        if cleared.has_room(req) {
            assert(outcomes_of_allocations(end.allocations) =~= outcomes_of_allocations(
                state.allocations,
            ).push(outcome_of_request(req)));
        } else {
            assert(end.spilled.take(before) =~= state.spilled.take(before));
            assert(outcomes_of_requests(end.spilled.skip(before)) =~= outcomes_of_requests(
                state.spilled.skip(before),
            ).push(outcome_of_request(req)));
        }
    } else {
        assert(end.spilled.take(before) =~= start.spilled);
        assert(outcomes_of_allocations(end.allocations) =~= Seq::empty());
        assert(outcomes_of_requests(end.spilled.skip(before)) =~= Seq::empty());
        assert(outcomes_of_requests(requests.take(n)) =~= Seq::empty());
    }
    assert(outcomes_of_allocations(end.allocations).to_multiset().add(
        outcomes_of_requests(end.spilled.skip(before)).to_multiset(),
    ) =~= outcomes_of_requests(requests.take(n)).to_multiset());
}

proof fn lemma_insertion_keeps_outcomes(requests: Seq<AllocationRequest>, req: AllocationRequest)
    ensures
        outcomes_of_requests(order::insert_sorted(requests, req)).to_multiset()
            == outcomes_of_requests(requests).to_multiset().insert(outcome_of_request(req)),
    decreases requests.len(),
{
    broadcast use vstd::seq_lib::group_to_multiset_ensures;

    let result = order::insert_sorted(requests, req);
    if requests.len() > 0 && requests.last().sort_key() > req.sort_key() {
        let rest = requests.drop_last();
        let last = requests.last();
        lemma_insertion_keeps_outcomes(rest, req);
        assert(outcomes_of_requests(result) =~= outcomes_of_requests(
            order::insert_sorted(rest, req),
        ).push(outcome_of_request(last)));
        assert(outcomes_of_requests(requests) =~= outcomes_of_requests(rest).push(
            outcome_of_request(last),
        ));
    } else {
        assert(outcomes_of_requests(result) =~= outcomes_of_requests(requests).push(
            outcome_of_request(req),
        ));
    }
    assert(outcomes_of_requests(result).to_multiset() =~= outcomes_of_requests(
        requests,
    ).to_multiset().insert(outcome_of_request(req)));
}

proof fn lemma_sorting_keeps_outcomes(requests: Seq<AllocationRequest>)
    ensures
        outcomes_of_requests(order::stable_sort(requests)).to_multiset() == outcomes_of_requests(
            requests,
        ).to_multiset(),
    decreases requests.len(),
{
    broadcast use vstd::seq_lib::group_to_multiset_ensures;

    if requests.len() > 0 {
        let rest = requests.drop_last();
        lemma_sorting_keeps_outcomes(rest);
        lemma_insertion_keeps_outcomes(order::stable_sort(rest), requests.last());
        assert(outcomes_of_requests(requests) =~= outcomes_of_requests(rest).push(
            outcome_of_request(requests.last()),
        ));
    } else {
        assert(outcomes_of_requests(order::stable_sort(requests)) =~= outcomes_of_requests(
            requests,
        ));
    }
}

/// A run answers every request once: with an allocation of the registers it needs, or by adding
/// it to the spilled requests. Requests spilled before stay spilled.
pub proof fn lemma_run_answers_every_request(model: AllocatorModel)
    ensures
        ({
            let end = model.scan_end();
            let before = model.spilled.len() as int;
            &&& model.spilled.len() <= end.spilled.len()
            &&& end.spilled.take(before) == model.spilled
            &&& end.allocations.len() + (end.spilled.len() - before) == model.requests.len()
            &&& outcomes_of_allocations(end.allocations).to_multiset().add(
                outcomes_of_requests(end.spilled.skip(before)).to_multiset(),
            ) == outcomes_of_requests(model.requests).to_multiset()
        }),
{
    let sorted = order::stable_sort(model.requests);
    order::lemma_stable_sort(model.requests);
    assert(sorted.take(sorted.len() as int) =~= sorted);
    lemma_scan_partitions(sorted, sorted.len() as int, model.scan_start());
    lemma_sorting_keeps_outcomes(model.requests);
}

/// A run keeps the numbering of the requests.
pub proof fn lemma_run_numbered(model: AllocatorModel)
    requires
        model.numbered(),
    ensures
        model.after_run().numbered(),
{
    let sorted = order::stable_sort(model.requests);
    lemma_sorted_distinct_vregs(model.requests);
    lemma_sorted_contains(model.requests);
    assert forall|i: int| 0 <= i < sorted.len() implies (#[trigger] sorted[i]).vreg.0
        < model.next_vreg by {
        assert(sorted.contains(sorted[i]));
        assert(model.requests.contains(sorted[i]));
        let j = choose|j: int| 0 <= j < model.requests.len() && model.requests[j] == sorted[i];
        assert(model.requests[j].vreg.0 < model.next_vreg);
    }
}

/// A run over requests for different virtual registers gives values with interfering live ranges
/// different registers.
pub proof fn lemma_interfering_values_get_different_registers(
    model: AllocatorModel,
    i: int,
    j: int,
    r: u32,
)
    requires
        model.wf(),
        scan::distinct_vregs(model.requests),
        0 <= i < model.scan_end().allocations.len(),
        0 <= j < model.scan_end().allocations.len(),
        i != j,
        model.scan_end().allocations[i].live_range.meets(
            model.scan_end().allocations[j].live_range,
        ),
    ensures
        !(occupied(model.scan_end().allocations[i]).contains(r) && occupied(
            model.scan_end().allocations[j],
        ).contains(r)),
{
    lemma_run_conflict_free(model);
}

/// After a run over requests for different virtual registers, an allocation of the run is on
/// record exactly if it ends after the last start or answers the last request; and what is on
/// record for its virtual register is this allocation.
pub proof fn lemma_on_record_after_run(model: AllocatorModel, i: int)
    requires
        model.wf(),
        scan::distinct_vregs(model.requests),
        0 <= i < model.scan_end().allocations.len(),
    ensures
        ({
            let alloc = model.scan_end().allocations[i];
            let last = order::stable_sort(model.requests).last();
            let on_record = model.after_run().file.by_vreg;
            &&& on_record.contains_key(alloc.vreg.0) <==> alloc.live_range.end
                > last.live_range.start || alloc.vreg == last.vreg
            &&& on_record.contains_key(alloc.vreg.0) ==> on_record[alloc.vreg.0] == alloc
        }),
{
    let sorted = order::stable_sort(model.requests);
    let start = model.scan_start();
    order::lemma_stable_sort(model.requests);
    lemma_sorted_contains(model.requests);
    lemma_sorted_distinct_vregs(model.requests);
    lemma_tracks_monotone(start, model.requests, sorted);
    lemma_scan_record(sorted, sorted.len() as int, start);
    assert(sorted.take(sorted.len() as int) =~= sorted);
}

/// After a run over requests for different virtual registers with no empty live range, an
/// allocation of the run is on record exactly if it ends after the last start.
pub proof fn lemma_on_record_iff_unended(model: AllocatorModel, i: int)
    requires
        model.wf(),
        scan::distinct_vregs(model.requests),
        forall|k: int|
            0 <= k < model.requests.len() ==> (#[trigger] model.requests[k]).live_range.start
                < model.requests[k].live_range.end,
        0 <= i < model.scan_end().allocations.len(),
    ensures
        ({
            let alloc = model.scan_end().allocations[i];
            let on_record = model.after_run().file.by_vreg;
            on_record.contains_key(alloc.vreg.0) && on_record[alloc.vreg.0] == alloc
                <==> alloc.live_range.end > order::stable_sort(
                model.requests,
            ).last().live_range.start
        }),
{
    let sorted = order::stable_sort(model.requests);
    let alloc = model.scan_end().allocations[i];
    lemma_on_record_after_run(model, i);
    lemma_run_serves_requests(model);
    lemma_sorted_contains(model.requests);
    if alloc.vreg == sorted.last().vreg {
        assert(serves(alloc, model.requests, model.file.total));
        let k = choose|k: int|
            0 <= k < model.requests.len() && scan::answers(alloc, #[trigger] model.requests[k])
                && alloc.registers_used == model.requests[k].demand();
        assert(sorted.contains(sorted[sorted.len() - 1]));
        assert(model.requests.contains(sorted.last()));
        let j = choose|j: int|
            0 <= j < model.requests.len() && model.requests[j] == sorted.last();
        if j < k {
            assert(model.requests[j].vreg != model.requests[k].vreg);
        } else if k < j {
            assert(model.requests[k].vreg != model.requests[j].vreg);
        }
    }
}

/// After the first run of an allocator, over requests for different virtual registers, everything
/// on record is an allocation of the run, and a register of the file is free exactly if nothing
/// on record holds it.
pub proof fn lemma_registers_are_free_or_on_record(model: AllocatorModel, r: u32)
    requires
        model.unused(),
        scan::distinct_vregs(model.requests),
        r < model.file.total,
    ensures
        accounted(model.scan_end()),
        model.after_run().file.free.contains(r) <==> forall|v: u32| !#[trigger]
            model.after_run().file.holds(v, r),
{
    let sorted = order::stable_sort(model.requests);
    let start = model.scan_start();
    lemma_sorted_distinct_vregs(model.requests);
    assert(start.tracks(sorted));
    lemma_scan_accounted(sorted, sorted.len() as int, start);
    lemma_scan_tracks(sorted, sorted.len() as int, start);
    assert(sorted.take(sorted.len() as int) =~= sorted);
}

/// With requests for different virtual registers, expiry at `point` releases an allocation on
/// record, with its registers and all that is recorded for them, exactly if it has ended at
/// `point`; otherwise it leaves both alone. The requests and the spilled requests stay as they
/// are.
pub proof fn lemma_expire_releases_what_has_ended(model: AllocatorModel, v: u32, point: u32)
    requires
        model.wf(),
        scan::distinct_vregs(model.requests),
        model.file.by_vreg.contains_key(v),
    ensures
        ({
            let alloc = model.file.by_vreg[v];
            let before = model.file;
            let after = model.expire(point).file;
            &&& alloc.live_range.end <= point ==> !after.by_vreg.contains_key(v) && forall|r: u32| #[trigger]
                occupied(alloc).contains(r) ==> after.free.contains(r) && !after.owner.contains_key(
                    r,
                )
            &&& alloc.live_range.end > point ==> after.by_vreg.contains_key(v) && after.by_vreg[v]
                == alloc && forall|r: u32| #[trigger]
                occupied(alloc).contains(r) ==> !after.free.contains(r) && (
                after.owner.contains_key(r) <==> before.owner.contains_key(r)) && (
                after.owner.contains_key(r) ==> after.owner[r] == before.owner[r])
        }),
        model.expire(point).requests == model.requests,
        model.expire(point).spilled == model.spilled,
        model.expire(point).wf(),
{
    let state = model.scan_start();
    let alloc = model.file.by_vreg[v];
    let gone = scan::expired(model.active, point);
    let after = model.expire(point).file;
    lemma_expire_tracks(state, model.requests, point);
    assert(model.expire(point).scan_start() =~= state.expire(point));
    if alloc.live_range.end <= point {
        assert(scan::ends_at(model.active, alloc.live_range.end, v));
        assert(gone.contains(v));
        assert forall|r: u32| #[trigger] occupied(alloc).contains(r) implies after.free.contains(r)
            && !after.owner.contains_key(r) by {
            assert(model.file.holds(v, r));
            assert(model.file.held_by(gone).contains(r));
        }
    } else {
        lemma_expire_keeps_unended(state, model.requests, v, point);
        assert forall|r: u32| #[trigger] occupied(alloc).contains(r) implies !after.free.contains(r)
            && (after.owner.contains_key(r) <==> model.file.owner.contains_key(r)) && (
        after.owner.contains_key(r) ==> after.owner[r] == model.file.owner[r]) by {
            assert(after.holds(v, r));
            assert(model.file.holds(v, r));
            if model.file.held_by(gone).contains(r) {
                let w = choose|w: u32| gone.contains(w) && #[trigger] model.file.holds(w, r);
                assert(w == v);
            }
        }
    }
}

/// Expiry after a run over requests for different virtual registers: an allocation of the run that
/// is still on record goes, and its registers become free, exactly if it has ended at `point`;
/// otherwise it stays, and so do its registers.
pub proof fn lemma_expire_after_run(model: AllocatorModel, i: int, point: u32)
    requires
        model.wf(),
        scan::distinct_vregs(model.requests),
        0 <= i < model.scan_end().allocations.len(),
        model.after_run().file.by_vreg.contains_key(
            model.scan_end().allocations[i].vreg.0,
        ),
    ensures
        ({
            let alloc = model.scan_end().allocations[i];
            let after = model.after_run().expire(point);
            &&& alloc.live_range.end <= point ==> !after.file.by_vreg.contains_key(alloc.vreg.0)
                && forall|r: u32| #[trigger]
                occupied(alloc).contains(r) ==> after.file.free.contains(r)
            &&& alloc.live_range.end > point ==> after.file.by_vreg.contains_key(alloc.vreg.0)
                && after.file.by_vreg[alloc.vreg.0] == alloc && forall|r: u32| #[trigger]
                occupied(alloc).contains(r) ==> !after.file.free.contains(r)
            &&& after.spilled == model.after_run().spilled
        }),
{
    lemma_on_record_after_run(model, i);
    lemma_run_serves_requests(model);
    lemma_sorted_distinct_vregs(model.requests);
    lemma_expire_releases_what_has_ended(
        model.after_run(),
        model.scan_end().allocations[i].vreg.0,
        point,
    );
}

/// Once everything that has ended at `point` was released, expiry at that point or an earlier one
/// changes nothing.
pub proof fn lemma_expire_again_changes_nothing(
    model: AllocatorModel,
    point: u32,
    earlier: u32,
)
    requires
        earlier <= point,
    ensures
        model.expire(point).expire(earlier) == model.expire(point),
{
    let once = model.expire(point);
    let twice = once.expire(earlier);
    let gone = scan::expired(once.active, earlier);
    assert(gone =~= Set::empty());
    assert(once.file.held_by(gone) =~= Set::empty());
    assert(twice.file.free =~= once.file.free);
    assert(twice.file.owner =~= once.file.owner);
    assert(twice.file.by_vreg =~= once.file.by_vreg);
    assert(twice.active =~= once.active);
}

proof fn lemma_total_demand_push(requests: Seq<AllocationRequest>, req: AllocationRequest)
    ensures
        scan::total_demand(requests.push(req)) == scan::total_demand(requests) + req.demand(),
{
    assert(requests.push(req).drop_last() =~= requests);
}

proof fn lemma_insertion_keeps_demand(requests: Seq<AllocationRequest>, req: AllocationRequest)
    ensures
        scan::total_demand(order::insert_sorted(requests, req)) == scan::total_demand(requests)
            + req.demand(),
    decreases requests.len(),
{
    if requests.len() > 0 && requests.last().sort_key() > req.sort_key() {
        let rest = requests.drop_last();
        lemma_insertion_keeps_demand(rest, req);
        lemma_total_demand_push(order::insert_sorted(rest, req), requests.last());
    } else {
        lemma_total_demand_push(requests, req);
    }
}

proof fn lemma_sorting_keeps_demand(requests: Seq<AllocationRequest>)
    ensures
        scan::total_demand(order::stable_sort(requests)) == scan::total_demand(requests),
    decreases requests.len(),
{
    if requests.len() > 0 {
        lemma_sorting_keeps_demand(requests.drop_last());
        lemma_insertion_keeps_demand(order::stable_sort(requests.drop_last()), requests.last());
    }
}

proof fn lemma_scan_balances(requests: Seq<AllocationRequest>, n: int, start: ScanState)
    requires
        start.allocations.len() == 0,
        0 <= n <= requests.len(),
    ensures
        ({
            let end = scan::scan(requests.take(n), start);
            &&& end.spilled.len() >= start.spilled.len()
            &&& scan::register_uses(end.allocations) + scan::total_demand(
                end.spilled.skip(start.spilled.len() as int),
            ) == scan::total_demand(requests.take(n))
        }),
    decreases n,
{
    let end = scan::scan(requests.take(n), start);
    let before = start.spilled.len() as int;
    if n > 0 {
        lemma_scan_balances(requests, n - 1, start);
        let earlier = requests.take(n - 1);
        assert(requests.take(n).drop_last() =~= earlier);
        let state = scan::scan(earlier, start);
        let req = requests[n - 1];
        let cleared = state.expire(req.live_range.start);
        if cleared.has_room(req) {
            assert(end.allocations.drop_last() =~= state.allocations);
        } else {
            assert(end.spilled.skip(before) =~= state.spilled.skip(before).push(req));
            lemma_total_demand_push(state.spilled.skip(before), req);
        }
    }
}

/// A run balances: the registers of the allocations it makes and the demand of the requests it
/// spills add up to the demand of all requests.
pub proof fn lemma_run_balances(model: AllocatorModel)
    ensures
        scan::register_uses(model.scan_end().allocations) + scan::total_demand(
            model.scan_end().spilled.skip(model.spilled.len() as int),
        ) == scan::total_demand(model.requests),
{
    let sorted = order::stable_sort(model.requests);
    lemma_scan_balances(sorted, sorted.len() as int, model.scan_start());
    assert(sorted.take(sorted.len() as int) =~= sorted);
    lemma_sorting_keeps_demand(model.requests);
}

/// Adding a request puts it, as it is, behind the earlier ones. Nothing else about the allocator
/// changes.
pub proof fn lemma_request_is_added_as_it_is(model: AllocatorModel, req: AllocationRequest)
    ensures
        model.with_request(req).requests.len() == model.requests.len() + 1,
        model.with_request(req).requests.last() == req,
        model.with_request(req).requests.drop_last() == model.requests,
        model.with_request(req).file == model.file,
        model.with_request(req).active == model.active,
        model.with_request(req).spilled == model.spilled,
        model.with_request(req).next_vreg == model.next_vreg,
{
    assert(model.with_request(req).requests.drop_last() =~= model.requests);
}

/// A fresh allocator has all its registers free, and neither requests nor records.
pub proof fn lemma_fresh_allocator_is_empty(total: u32)
    ensures
        AllocatorModel::fresh(total).file.total == total,
        forall|r: u32| #[trigger]
            AllocatorModel::fresh(total).file.free.contains(r) <==> r < total,
        forall|v: u32| !#[trigger] AllocatorModel::fresh(total).file.by_vreg.contains_key(v),
        forall|end: u32| !#[trigger] AllocatorModel::fresh(total).active.contains_key(end),
        AllocatorModel::fresh(total).requests.len() == 0,
        AllocatorModel::fresh(total).spilled.len() == 0,
        AllocatorModel::fresh(total).next_vreg == 0,
{
}

/// Requests are for different virtual registers unless two of them name the same one, and can all
/// be counted unless one of them cannot.
pub proof fn lemma_what_can_be_run(model: AllocatorModel)
    ensures
        scan::distinct_vregs(model.requests) <==> !exists|i: int, j: int|
            0 <= i < j < model.requests.len() && (#[trigger] model.requests[i]).vreg == (
            #[trigger] model.requests[j]).vreg,
        model.all_countable() <==> !exists|i: int|
            0 <= i < model.requests.len() && (#[trigger] model.requests[i]).trit_count
                + TRITS_PER_REGISTER > u32::MAX,
        model.peak_fits() <==> !exists|point: u32| #[trigger]
            pressure::pressure(scan::loads(model.scan_end().allocations), point) > u32::MAX,
{
    if !scan::distinct_vregs(model.requests) {
        let (i, j) = choose|i: int, j: int|
            0 <= i < j < model.requests.len() && (#[trigger] model.requests[i]).vreg == (
            #[trigger] model.requests[j]).vreg;
        assert(model.requests[i].vreg == model.requests[j].vreg);
    }
    if model.all_countable() {
        assert forall|i: int| 0 <= i < model.requests.len() implies (
        #[trigger] model.requests[i]).trit_count + TRITS_PER_REGISTER <= u32::MAX by {
            assert(model.requests[i].countable());
        }
    } else {
        let i = choose|i: int|
            0 <= i < model.requests.len() && !(#[trigger] model.requests[i]).countable();
        assert(model.requests[i].trit_count + TRITS_PER_REGISTER > u32::MAX);
    }
    pressure::lemma_what_can_be_estimated(scan::loads(model.scan_end().allocations));
}

/// Allocations press with their own live ranges and register counts, requests with theirs and with
/// what they ask for.
pub proof fn lemma_loads_of_allocations_and_requests(
    allocations: Seq<AllocationModel>,
    requests: Seq<AllocationRequest>,
    i: int,
)
    ensures
        scan::loads(allocations).len() == allocations.len(),
        0 <= i < allocations.len() ==> scan::loads(allocations)[i].0 == allocations[i].live_range
            && scan::loads(allocations)[i].1 == allocations[i].registers_used,
        scan::demands(requests).len() == requests.len(),
        0 <= i < requests.len() ==> scan::demands(requests)[i].0 == requests[i].live_range
            && scan::demands(requests)[i].1 == requests[i].demand(),
{
}

/// The registers of a single allocation are those it says it uses, and those of two groups add up.
pub proof fn lemma_register_uses_add_up(
    alloc: AllocationModel,
    a: Seq<AllocationModel>,
    b: Seq<AllocationModel>,
)
    ensures
        scan::register_uses(Seq::<AllocationModel>::empty()) == 0,
        scan::register_uses(seq![alloc]) == alloc.registers_used,
        scan::register_uses(a + b) == scan::register_uses(a) + scan::register_uses(b),
    decreases b.len(),
{
    let one = seq![alloc];
    assert(one.last() == alloc);
    assert(one.drop_last().len() == 0);
    assert(scan::register_uses(one.drop_last()) == 0);
    if b.len() == 0 {
        assert(a + b =~= a);
    } else {
        assert((a + b).drop_last() =~= a + b.drop_last());
        assert((a + b).last() == b.last());
        lemma_register_uses_add_up(alloc, a, b.drop_last());
    }
}

/// The demand of a single request is what it asks for, and the demands of two groups add up.
pub proof fn lemma_demands_add_up(
    req: AllocationRequest,
    a: Seq<AllocationRequest>,
    b: Seq<AllocationRequest>,
)
    ensures
        scan::total_demand(Seq::<AllocationRequest>::empty()) == 0,
        scan::total_demand(seq![req]) == req.demand(),
        scan::total_demand(a + b) == scan::total_demand(a) + scan::total_demand(b),
    decreases b.len(),
{
    let one = seq![req];
    assert(one.last() == req);
    assert(one.drop_last().len() == 0);
    assert(scan::total_demand(one.drop_last()) == 0);
    if b.len() == 0 {
        assert(a + b =~= a);
    } else {
        assert((a + b).drop_last() =~= a + b.drop_last());
        assert((a + b).last() == b.last());
        lemma_demands_add_up(req, a, b.drop_last());
    }
}

/// What a run hands out as spilled is what the allocator has as spilled afterwards. A run without
/// requests changes nothing and makes no allocation.
pub proof fn lemma_run_without_requests_changes_nothing(model: AllocatorModel)
    ensures
        model.scan_end().spilled == model.after_run().spilled,
        model.requests.len() == 0 ==> {
            &&& model.scan_end().allocations.len() == 0
            &&& model.after_run() == model
        },
{
    if model.requests.len() == 0 {
        assert(model.after_run() =~= model);
    }
}

/// A run takes the requests by ascending start, and those with the same start in the order in
/// which they were made. It depends on nothing but this order: a run over requests that already
/// stand in it comes out the same. The result says where each request was before the run.
pub proof fn lemma_run_goes_by_start(model: AllocatorModel) -> (from: Seq<int>)
    ensures
        ({
            let ordered = model.after_run().requests;
            let again = AllocatorModel { requests: ordered, ..model };
            &&& ordered.len() == model.requests.len()
            &&& from.len() == model.requests.len()
            &&& from.no_duplicates()
            &&& forall|k: int|
                0 <= k < ordered.len() ==> 0 <= #[trigger] from[k] < model.requests.len()
                    && ordered[k] == model.requests[from[k]]
            &&& forall|i: int, j: int|
                0 <= i < j < ordered.len() ==> (#[trigger] ordered[i]).live_range.start <= (
                #[trigger] ordered[j]).live_range.start
            &&& forall|i: int, j: int|
                0 <= i < j < ordered.len() && ordered[i].live_range.start
                    == ordered[j].live_range.start ==> #[trigger] from[i] < #[trigger] from[j]
            &&& again.after_run() == model.after_run()
            &&& again.scan_end() == model.scan_end()
        }),
{
    let sorted = order::stable_sort(model.requests);
    let again = AllocatorModel { requests: sorted, ..model };
    let from = order::lemma_sorting_moves_each_element_once(model.requests);
    order::lemma_sorting_again_changes_nothing(model.requests);
    assert(again.scan_start() =~= model.scan_start());
    assert forall|i: int, j: int| 0 <= i < j < sorted.len() implies (
    #[trigger] sorted[i]).live_range.start <= (#[trigger] sorted[j]).live_range.start by {
        assert(sorted[i].sort_key() <= sorted[j].sort_key());
    }
    assert forall|i: int, j: int|
        0 <= i < j < sorted.len() && sorted[i].live_range.start
            == sorted[j].live_range.start implies #[trigger] from[i] < #[trigger] from[j] by {
        assert(sorted[i].sort_key() == sorted[j].sort_key());
    }
    from
}

proof fn lemma_scan_divides(requests: Seq<AllocationRequest>, n: int, start: ScanState) -> (split: (
    Seq<int>,
    Seq<int>,
))
    requires
        start.allocations.len() == 0,
        0 <= n <= requests.len(),
    ensures
        ({
            let end = scan::scan(requests.take(n), start);
            let before = start.spilled.len() as int;
            let (placed, left) = split;
            &&& placed.len() == end.allocations.len()
            &&& before + left.len() == end.spilled.len()
            &&& placed.len() + left.len() == n
            &&& forall|i: int| 0 <= i < placed.len() ==> 0 <= #[trigger] placed[i] < n
            &&& forall|i: int| 0 <= i < left.len() ==> 0 <= #[trigger] left[i] < n
            &&& forall|i: int, j: int|
                0 <= i < j < placed.len() ==> #[trigger] placed[i] < #[trigger] placed[j]
            &&& forall|i: int, j: int|
                0 <= i < j < left.len() ==> #[trigger] left[i] < #[trigger] left[j]
            &&& forall|i: int, j: int|
                0 <= i < placed.len() && 0 <= j < left.len() ==> #[trigger] placed[i]
                    != #[trigger] left[j]
            &&& end.spilled.take(before) == start.spilled
            &&& forall|i: int|
                #![trigger left[i]]
                0 <= i < left.len() ==> end.spilled[before + i] == requests[left[i]]
            &&& forall|i: int|
                #![trigger placed[i]]
                0 <= i < placed.len() ==> end.allocations[i].vreg == requests[placed[i]].vreg
                    && end.allocations[i].live_range == requests[placed[i]].live_range
                    && end.allocations[i].registers_used == requests[placed[i]].demand()
        }),
    decreases n,
{
    let end = scan::scan(requests.take(n), start);
    let before = start.spilled.len() as int;
    if n == 0 {
        assert(end.spilled.take(before) =~= start.spilled);
        (Seq::empty(), Seq::empty())
    } else {
        let (placed, left) = lemma_scan_divides(requests, n - 1, start);
        assert(requests.take(n).drop_last() =~= requests.take(n - 1));
        let state = scan::scan(requests.take(n - 1), start);
        let req = requests[n - 1];
        if state.expire(req.live_range.start).has_room(req) {
            (placed.push(n - 1), left)
        } else {
            let more = left.push(n - 1);
            assert(end.spilled.take(before) =~= state.spilled.take(before));
            assert forall|i: int|
                #![trigger more[i]]
                0 <= i < more.len() implies end.spilled[before + i] == requests[more[i]] by {
                if i < left.len() {
                    assert(more[i] == left[i]);
                    assert(end.spilled[before + i] == state.spilled[before + i]);
                }
            }
            (placed, more)
        }
    }
}

/// A run divides the requests, taken in its order, into those that get registers and those that
/// are spilled; each group stays in that order. An allocation carries the virtual register and the
/// live range of its request and as many registers as this asks for. A spilled request is handed
/// back as it was made, in all its fields, behind those spilled before. The result says which
/// positions were served and which were spilled.
pub proof fn lemma_run_divides_the_requests(model: AllocatorModel) -> (split: (
    Seq<int>,
    Seq<int>,
))
    ensures
        ({
            let ordered = model.after_run().requests;
            let allocations = model.scan_end().allocations;
            let spilled = model.scan_end().spilled;
            let before = model.spilled.len() as int;
            let (placed, left) = split;
            &&& placed.len() == allocations.len()
            &&& before + left.len() == spilled.len()
            &&& placed.len() + left.len() == ordered.len()
            &&& forall|i: int| 0 <= i < placed.len() ==> 0 <= #[trigger] placed[i] < ordered.len()
            &&& forall|i: int| 0 <= i < left.len() ==> 0 <= #[trigger] left[i] < ordered.len()
            &&& forall|i: int, j: int|
                0 <= i < j < placed.len() ==> #[trigger] placed[i] < #[trigger] placed[j]
            &&& forall|i: int, j: int|
                0 <= i < j < left.len() ==> #[trigger] left[i] < #[trigger] left[j]
            &&& forall|i: int, j: int|
                0 <= i < placed.len() && 0 <= j < left.len() ==> #[trigger] placed[i]
                    != #[trigger] left[j]
            &&& spilled.take(before) == model.spilled
            &&& forall|i: int|
                #![trigger left[i]]
                0 <= i < left.len() ==> spilled[before + i] == ordered[left[i]]
            &&& forall|i: int|
                #![trigger placed[i]]
                0 <= i < placed.len() ==> allocations[i].vreg == ordered[placed[i]].vreg
                    && allocations[i].live_range == ordered[placed[i]].live_range
                    && allocations[i].registers_used == ordered[placed[i]].demand()
        }),
{
    let sorted = order::stable_sort(model.requests);
    assert(sorted.take(sorted.len() as int) =~= sorted);
    lemma_scan_divides(sorted, sorted.len() as int, model.scan_start())
}

/// A request that is placed gets the lowest free registers, as many as it asks for.
proof fn lemma_placed_on_the_lowest(state: ScanState, req: AllocationRequest)
    requires
        state.file.consistent(),
        state.has_room(req),
    ensures
        ({
            let regs = state.allocation_for(req).physical_regs;
            &&& regs.len() == req.demand()
            &&& forall|i: int, j: int|
                0 <= i < j < regs.len() ==> (#[trigger] regs[i]).0 < (#[trigger] regs[j]).0
            &&& forall|i: int|
                0 <= i < regs.len() ==> state.file.free.contains((#[trigger] regs[i]).0)
            &&& forall|i: int, r: u32|
                0 <= i < regs.len() && #[trigger] state.file.free.contains(r) && r < (
                #[trigger] regs[i]).0 ==> exists|m: int|
                    0 <= m < regs.len() && (#[trigger] regs[m]).0 == r
            &&& forall|r: u32| #[trigger]
                state.place(req).file.free.contains(r) <==> state.file.free.contains(r) && forall|
                    m: int,
                | 0 <= m < regs.len() ==> (#[trigger] regs[m]).0 != r
        }),
{
    let regs = state.allocation_for(req).physical_regs;
    let free = state.file.free;
    let list = order::ascending(free);
    let n = req.demand() as int;
    lemma_place(state, req);
    lemma_free_bounded(state.file);
    order::lemma_ascending(free);
    register_file::lemma_numbers_of_the_registers(regs);
    assert forall|i: int| 0 <= i < regs.len() implies (#[trigger] regs[i]).0 == list[i] by {
        assert(list.take(n)[i] == list[i]);
    }
    assert forall|i: int| 0 <= i < regs.len() implies free.contains((#[trigger] regs[i]).0) by {
        assert(list.contains(list[i]));
    }
    assert forall|i: int, r: u32|
        0 <= i < regs.len() && #[trigger] free.contains(r) && r < (
        #[trigger] regs[i]).0 implies exists|m: int|
        0 <= m < regs.len() && (#[trigger] regs[m]).0 == r by {
        assert(list.contains(r));
        let m = choose|m: int| 0 <= m < list.len() && list[m] == r;
        if m >= i && m != i {
            assert(list[i] < list[m]);
        }
        assert(regs[m].0 == r);
    }
}

/// In a well-formed allocator only registers of the file are free or held, none is both, and no
/// two virtual registers hold the same one.
pub proof fn lemma_well_formed_books_are_straight(model: AllocatorModel)
    requires
        model.wf(),
    ensures
        forall|r: u32| #[trigger] model.file.free.contains(r) ==> r < model.file.total,
        forall|v: u32, i: int|
            #![trigger model.file.by_vreg[v].physical_regs[i]]
            model.file.by_vreg.contains_key(v) && 0 <= i < model.file.by_vreg[v].physical_regs.len()
                ==> model.file.by_vreg[v].physical_regs[i].0 < model.file.total
                && !model.file.free.contains(model.file.by_vreg[v].physical_regs[i].0),
        forall|v: u32, w: u32, i: int, j: int|
            #![trigger model.file.by_vreg[v].physical_regs[i], model.file.by_vreg[w].physical_regs[j]]
            model.file.by_vreg.contains_key(v) && 0 <= i < model.file.by_vreg[v].physical_regs.len()
                && model.file.by_vreg.contains_key(w) && 0 <= j
                < model.file.by_vreg[w].physical_regs.len()
                && model.file.by_vreg[v].physical_regs[i]
                == model.file.by_vreg[w].physical_regs[j] ==> v == w,
{
    let file = model.file;
    assert forall|v: u32, i: int|
        #![trigger file.by_vreg[v].physical_regs[i]]
        file.by_vreg.contains_key(v) && 0 <= i
            < file.by_vreg[v].physical_regs.len() implies file.by_vreg[v].physical_regs[i].0
        < file.total && !file.free.contains(file.by_vreg[v].physical_regs[i].0) by {
        register_file::lemma_numbers_of_the_registers(file.by_vreg[v].physical_regs);
        assert(file.holds(v, file.by_vreg[v].physical_regs[i].0));
    }
    assert forall|v: u32, w: u32, i: int, j: int|
        #![trigger file.by_vreg[v].physical_regs[i], file.by_vreg[w].physical_regs[j]]
        file.by_vreg.contains_key(v) && 0 <= i < file.by_vreg[v].physical_regs.len()
            && file.by_vreg.contains_key(w) && 0 <= j < file.by_vreg[w].physical_regs.len()
            && file.by_vreg[v].physical_regs[i] == file.by_vreg[w].physical_regs[j] implies v
        == w by {
        register_file::lemma_numbers_of_the_registers(file.by_vreg[v].physical_regs);
        register_file::lemma_numbers_of_the_registers(file.by_vreg[w].physical_regs);
        assert(file.holds(v, file.by_vreg[v].physical_regs[i].0));
        assert(file.holds(w, file.by_vreg[v].physical_regs[i].0));
    }
}

/// A file whose books are straight register by register is consistent.
proof fn lemma_straight_books_are_consistent(model: AllocatorModel)
    requires
        forall|r: u32| #[trigger] model.file.free.contains(r) ==> r < model.file.total,
        forall|v: u32, i: int|
            #![trigger model.file.by_vreg[v].physical_regs[i]]
            model.file.by_vreg.contains_key(v) && 0 <= i < model.file.by_vreg[v].physical_regs.len()
                ==> model.file.by_vreg[v].physical_regs[i].0 < model.file.total
                && !model.file.free.contains(model.file.by_vreg[v].physical_regs[i].0),
        forall|v: u32, w: u32, i: int, j: int|
            #![trigger model.file.by_vreg[v].physical_regs[i], model.file.by_vreg[w].physical_regs[j]]
            model.file.by_vreg.contains_key(v) && 0 <= i < model.file.by_vreg[v].physical_regs.len()
                && model.file.by_vreg.contains_key(w) && 0 <= j
                < model.file.by_vreg[w].physical_regs.len()
                && model.file.by_vreg[v].physical_regs[i]
                == model.file.by_vreg[w].physical_regs[j] ==> v == w,
    ensures
        model.file.consistent(),
{
    let file = model.file;
    assert forall|v: u32, r: u32| #[trigger] file.holds(v, r) implies r < file.total
        && !file.free.contains(r) by {
        register_file::lemma_numbers_of_the_registers(file.by_vreg[v].physical_regs);
        let i = choose|i: int|
            0 <= i < file.by_vreg[v].physical_regs.len() && (
            #[trigger] file.by_vreg[v].physical_regs[i]).0 == r;
        assert(file.by_vreg[v].physical_regs[i].0 < file.total);
    }
    assert forall|v: u32, w: u32, r: u32| #[trigger]
        file.holds(v, r) && #[trigger] file.holds(w, r) implies v == w by {
        register_file::lemma_numbers_of_the_registers(file.by_vreg[v].physical_regs);
        register_file::lemma_numbers_of_the_registers(file.by_vreg[w].physical_regs);
        let i = choose|i: int|
            0 <= i < file.by_vreg[v].physical_regs.len() && (
            #[trigger] file.by_vreg[v].physical_regs[i]).0 == r;
        let j = choose|j: int|
            0 <= j < file.by_vreg[w].physical_regs.len() && (
            #[trigger] file.by_vreg[w].physical_regs[j]).0 == r;
        assert(file.by_vreg[v].physical_regs[i] == file.by_vreg[w].physical_regs[j]);
    }
}

/// A scan keeps the file consistent.
proof fn lemma_scan_keeps_consistent(requests: Seq<AllocationRequest>, start: ScanState)
    requires
        start.file.consistent(),
    ensures
        scan::scan(requests, start).file.consistent(),
        scan::scan(requests, start).file.total == start.file.total,
    decreases requests.len(),
{
    if requests.len() > 0 {
        lemma_scan_keeps_consistent(requests.drop_last(), start);
        let state = scan::scan(requests.drop_last(), start);
        let req = requests.last();
        let cleared = state.expire(req.live_range.start);
        lemma_drop_keeps_consistent(
            state.file,
            scan::expired(state.active, req.live_range.start),
        );
        if cleared.has_room(req) {
            lemma_place(cleared, req);
        }
    }
}

/// How one more request changes a run, when it starts no earlier than the others. What has ended at
/// its start is released first: the virtual registers in question go off the record, and their
/// registers join the free ones. If there are enough free registers then, the request gets the
/// lowest of them and is put on record; otherwise it is spilled as it is. All else comes out as it
/// does without the request. This holds for any state of the file whose books are straight, not
/// only in the first run.
pub proof fn lemma_run_with_one_later_request(model: AllocatorModel, req: AllocationRequest)
    requires
        forall|r: u32| #[trigger] model.file.free.contains(r) ==> r < model.file.total,
        forall|v: u32, i: int|
            #![trigger model.file.by_vreg[v].physical_regs[i]]
            model.file.by_vreg.contains_key(v) && 0 <= i < model.file.by_vreg[v].physical_regs.len()
                ==> model.file.by_vreg[v].physical_regs[i].0 < model.file.total
                && !model.file.free.contains(model.file.by_vreg[v].physical_regs[i].0),
        forall|v: u32, w: u32, i: int, j: int|
            #![trigger model.file.by_vreg[v].physical_regs[i], model.file.by_vreg[w].physical_regs[j]]
            model.file.by_vreg.contains_key(v) && 0 <= i < model.file.by_vreg[v].physical_regs.len()
                && model.file.by_vreg.contains_key(w) && 0 <= j
                < model.file.by_vreg[w].physical_regs.len()
                && model.file.by_vreg[v].physical_regs[i]
                == model.file.by_vreg[w].physical_regs[j] ==> v == w,
        forall|i: int|
            0 <= i < model.requests.len() ==> (#[trigger] model.requests[i]).live_range.start
                <= req.live_range.start,
    ensures
        ({
            let point = req.live_range.start;
            let end = req.live_range.end;
            let longer = AllocatorModel { requests: model.requests.push(req), ..model };
            let before = model.after_run();
            let after = longer.after_run();
            let made = model.scan_end().allocations;
            let now = longer.scan_end().allocations;
            let gone = Set::new(
                |v: u32|
                    exists|e: u32, i: int|
                        #![trigger before.active[e][i]]
                        e <= point && before.active.contains_key(e) && 0 <= i
                            < before.active[e].len() && before.active[e][i].vreg.0 == v,
            );
            let freed = Set::new(
                |r: u32|
                    exists|v: u32, i: int|
                        #![trigger before.file.by_vreg[v].physical_regs[i]]
                        gone.contains(v) && before.file.by_vreg.contains_key(v) && 0 <= i
                            < before.file.by_vreg[v].physical_regs.len()
                            && before.file.by_vreg[v].physical_regs[i].0 == r,
            );
            let free = before.file.free.union(freed);
            let kept = before.active.remove_keys(Set::new(|e: u32| e <= point));
            &&& free.finite()
            &&& after.requests == before.requests.push(req)
            &&& after.next_vreg == model.next_vreg
            &&& after.file.total == model.file.total
            &&& req.demand() > free.len() ==> {
                &&& now == made
                &&& after.spilled == before.spilled.push(req)
                &&& after.active == kept
                &&& after.file.free == free
                &&& after.file.by_vreg == before.file.by_vreg.remove_keys(gone)
                &&& after.file.owner == before.file.owner.remove_keys(freed)
            }
            &&& req.demand() <= free.len() ==> {
                let alloc = now.last();
                let regs = alloc.physical_regs;
                &&& now == made.push(alloc)
                &&& alloc.vreg == req.vreg
                &&& alloc.live_range == req.live_range
                &&& alloc.registers_used == req.demand()
                &&& regs.len() == req.demand()
                &&& forall|i: int, j: int|
                    0 <= i < j < regs.len() ==> (#[trigger] regs[i]).0 < (#[trigger] regs[j]).0
                &&& forall|i: int| 0 <= i < regs.len() ==> free.contains((#[trigger] regs[i]).0)
                &&& forall|i: int, r: u32|
                    0 <= i < regs.len() && #[trigger] free.contains(r) && r < (
                    #[trigger] regs[i]).0 ==> exists|m: int|
                        0 <= m < regs.len() && (#[trigger] regs[m]).0 == r
                &&& forall|r: u32| #[trigger]
                    after.file.free.contains(r) <==> free.contains(r) && forall|m: int|
                        0 <= m < regs.len() ==> (#[trigger] regs[m]).0 != r
                &&& after.spilled == before.spilled
                &&& after.active == kept.insert(
                    end,
                    (if kept.contains_key(end) {
                        kept[end]
                    } else {
                        Seq::empty()
                    }).push(alloc),
                )
                &&& after.file.by_vreg == before.file.by_vreg.remove_keys(gone).insert(
                    req.vreg.0,
                    alloc,
                )
            }
        }),
{
    let point = req.live_range.start;
    let longer = AllocatorModel { requests: model.requests.push(req), ..model };
    let before = model.after_run();
    let sorted = order::stable_sort(model.requests);
    let start = model.scan_start();
    let state = model.scan_end();
    let cleared = state.expire(point);
    assert forall|i: int| 0 <= i < model.requests.len() implies (
    #[trigger] model.requests[i]).sort_key() <= req.sort_key() by {
        assert(model.requests[i].live_range.start <= req.live_range.start);
    }
    order::lemma_sorting_keeps_latest_last(model.requests, req);
    assert(longer.scan_start() =~= start);
    assert(sorted.push(req).drop_last() =~= sorted);
    assert(longer.scan_end() == cleared.place(req));
    lemma_straight_books_are_consistent(model);
    lemma_scan_keeps_consistent(sorted, start);
    lemma_drop_keeps_consistent(state.file, scan::expired(state.active, point));
    lemma_free_bounded(cleared.file);
    let gone = Set::new(
        |v: u32|
            exists|e: u32, i: int|
                #![trigger before.active[e][i]]
                e <= point && before.active.contains_key(e) && 0 <= i < before.active[e].len()
                    && before.active[e][i].vreg.0 == v,
    );
    let freed = Set::new(
        |r: u32|
            exists|v: u32, i: int|
                #![trigger before.file.by_vreg[v].physical_regs[i]]
                gone.contains(v) && before.file.by_vreg.contains_key(v) && 0 <= i
                    < before.file.by_vreg[v].physical_regs.len()
                    && before.file.by_vreg[v].physical_regs[i].0 == r,
    );
    let ended = scan::expired(state.active, point);
    assert forall|v: u32| gone.contains(v) <==> ended.contains(v) by {
        if gone.contains(v) {
            let (e, i) = choose|e: u32, i: int|
                #![trigger before.active[e][i]]
                e <= point && before.active.contains_key(e) && 0 <= i < before.active[e].len()
                    && before.active[e][i].vreg.0 == v;
            assert(scan::ends_at(state.active, e, v));
        }
        if ended.contains(v) {
            let e = choose|e: u32| e <= point && #[trigger] scan::ends_at(state.active, e, v);
            let i = choose|i: int|
                0 <= i < state.active[e].len() && (#[trigger] state.active[e][i]).vreg.0 == v;
            assert(before.active[e][i].vreg.0 == v);
        }
    }
    assert(gone =~= ended);
    assert forall|r: u32| freed.contains(r) <==> state.file.held_by(ended).contains(r) by {
        if freed.contains(r) {
            let (v, i) = choose|v: u32, i: int|
                #![trigger before.file.by_vreg[v].physical_regs[i]]
                gone.contains(v) && before.file.by_vreg.contains_key(v) && 0 <= i
                    < before.file.by_vreg[v].physical_regs.len()
                    && before.file.by_vreg[v].physical_regs[i].0 == r;
            register_file::lemma_numbers_of_the_registers(state.file.by_vreg[v].physical_regs);
            assert(state.file.holds(v, r));
        }
        if state.file.held_by(ended).contains(r) {
            let v = choose|v: u32| ended.contains(v) && #[trigger] state.file.holds(v, r);
            register_file::lemma_numbers_of_the_registers(state.file.by_vreg[v].physical_regs);
            let i = choose|i: int|
                0 <= i < state.file.by_vreg[v].physical_regs.len() && (
                #[trigger] state.file.by_vreg[v].physical_regs[i]).0 == r;
            assert(before.file.by_vreg[v].physical_regs[i].0 == r);
        }
    }
    assert(freed =~= state.file.held_by(ended));
    assert(before.file.free.union(freed) =~= cleared.file.free);
    if cleared.has_room(req) {
        lemma_place(cleared, req);
        lemma_placed_on_the_lowest(cleared, req);
    }
}

/// How one more request changes the first run of an allocator, when it starts no earlier than the
/// others and all are for different virtual registers. The registers left for it are those that no
/// allocation of the run without it holds beyond its start. If they are enough, it gets the lowest
/// of them; otherwise it is spilled as it is. The other requests come out as they do without it.
pub proof fn lemma_first_run_with_one_later_request(model: AllocatorModel, req: AllocationRequest)
    requires
        forall|r: u32| #[trigger] model.file.free.contains(r) <==> r < model.file.total,
        forall|v: u32| !#[trigger] model.file.by_vreg.contains_key(v),
        forall|end: u32| !#[trigger] model.active.contains_key(end),
        forall|i: int, j: int|
            0 <= i < j < model.requests.len() ==> (#[trigger] model.requests[i]).vreg != (
            #[trigger] model.requests[j]).vreg,
        forall|i: int|
            0 <= i < model.requests.len() ==> (#[trigger] model.requests[i]).vreg != req.vreg
                && model.requests[i].live_range.start <= req.live_range.start,
    ensures
        ({
            let point = req.live_range.start;
            let longer = AllocatorModel { requests: model.requests.push(req), ..model };
            let made = model.scan_end().allocations;
            let now = longer.scan_end().allocations;
            let left = Set::new(
                |r: u32|
                    r < model.file.total && !exists|i: int, m: int|
                        #![trigger made[i].physical_regs[m]]
                        0 <= i < made.len() && made[i].live_range.end > point && 0 <= m
                            < made[i].physical_regs.len() && made[i].physical_regs[m].0 == r,
            );
            &&& left.finite()
            &&& req.demand() > left.len() ==> {
                &&& now == made
                &&& longer.scan_end().spilled == model.scan_end().spilled.push(req)
            }
            &&& req.demand() <= left.len() ==> {
                let alloc = now.last();
                let regs = alloc.physical_regs;
                &&& longer.scan_end().spilled == model.scan_end().spilled
                &&& now == made.push(alloc)
                &&& alloc.vreg == req.vreg
                &&& alloc.live_range == req.live_range
                &&& alloc.registers_used == req.demand()
                &&& regs.len() == req.demand()
                &&& forall|i: int, j: int|
                    0 <= i < j < regs.len() ==> (#[trigger] regs[i]).0 < (#[trigger] regs[j]).0
                &&& forall|i: int| 0 <= i < regs.len() ==> left.contains((#[trigger] regs[i]).0)
                &&& forall|i: int, r: u32|
                    0 <= i < regs.len() && #[trigger] left.contains(r) && r < (
                    #[trigger] regs[i]).0 ==> exists|m: int|
                        0 <= m < regs.len() && (#[trigger] regs[m]).0 == r
            }
        }),
{
    let point = req.live_range.start;
    let longer = AllocatorModel { requests: model.requests.push(req), ..model };
    let start = model.scan_start();
    let sorted = order::stable_sort(model.requests);
    let all = sorted.push(req);
    let n = sorted.len() as int;
    let state = model.scan_end();
    let made = state.allocations;
    let cleared = state.expire(point);
    assert forall|i: int| 0 <= i < model.requests.len() implies (
    #[trigger] model.requests[i]).sort_key() <= req.sort_key() by {
        assert(model.requests[i].live_range.start <= req.live_range.start);
    }
    order::lemma_sorting_keeps_latest_last(model.requests, req);
    order::lemma_stable_sort(longer.requests);
    assert(scan::distinct_vregs(longer.requests)) by {
        assert forall|i: int, j: int| 0 <= i < j < longer.requests.len() implies (
        #[trigger] longer.requests[i]).vreg != (#[trigger] longer.requests[j]).vreg by {
            assert(longer.requests[i] == model.requests[i]);
            if j < model.requests.len() {
                assert(longer.requests[j] == model.requests[j]);
            }
        }
    }
    lemma_sorted_distinct_vregs(longer.requests);
    assert(longer.scan_start() =~= start);
    assert(all.drop_last() =~= sorted);
    assert(all.take(n) =~= sorted);
    assert(longer.scan_end() == cleared.place(req));
    assert(start.tracks(all));
    assert(accounted(start));
    lemma_scan_tracks(all, n, start);
    lemma_scan_accounted(all, n, start);
    lemma_scan_record(all, n, start);
    lemma_expire_tracks(state, all, point);
    lemma_expire_accounted(state, point);
    if n > 0 {
        assert(all[n - 1].sort_key() <= all[n].sort_key());
        lemma_expire_retains(state, all, all[n - 1].live_range.start, point);
    }
    assert(retained(cleared, point));
    lemma_free_bounded(cleared.file);
    let left = Set::new(
        |r: u32|
            r < model.file.total && !exists|i: int, m: int|
                #![trigger made[i].physical_regs[m]]
                0 <= i < made.len() && made[i].live_range.end > point && 0 <= m
                    < made[i].physical_regs.len() && made[i].physical_regs[m].0 == r,
    );
    assert forall|r: u32| left.contains(r) <==> cleared.file.free.contains(r) by {
        if cleared.file.free.contains(r) {
            if exists|i: int, m: int|
                #![trigger made[i].physical_regs[m]]
                0 <= i < made.len() && made[i].live_range.end > point && 0 <= m
                    < made[i].physical_regs.len() && made[i].physical_regs[m].0 == r {
                let (i, m) = choose|i: int, m: int|
                    #![trigger made[i].physical_regs[m]]
                    0 <= i < made.len() && made[i].live_range.end > point && 0 <= m
                        < made[i].physical_regs.len() && made[i].physical_regs[m].0 == r;
                register_file::lemma_numbers_of_the_registers(made[i].physical_regs);
                assert(cleared.allocations[i] == made[i]);
                assert(cleared.file.holds(made[i].vreg.0, r));
            }
        } else if r < model.file.total {
            let v = choose|v: u32| #[trigger] cleared.file.holds(v, r);
            let held = cleared.file.by_vreg[v];
            assert(cleared.file.by_vreg.contains_key(v));
            let i = choose|i: int| 0 <= i < made.len() && made[i] == held;
            register_file::lemma_numbers_of_the_registers(held.physical_regs);
            let m = choose|m: int|
                0 <= m < held.physical_regs.len() && (#[trigger] held.physical_regs[m]).0 == r;
            assert(made[i].physical_regs[m].0 == r);
        }
    }
    assert(left =~= cleared.file.free);
    if cleared.has_room(req) {
        lemma_place(cleared, req);
        lemma_placed_on_the_lowest(cleared, req);
    }
}

} // verus!
