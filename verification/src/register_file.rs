//! The register file: which physical registers are free, and what the others hold.

use crate::order;
use crate::order::sort_by_key;
use crate::ratio::Ratio;
use crate::request::{Allocation, AllocationModel, RegisterId, VirtualReg};
use std::collections::{HashMap, HashSet};
use vstd::prelude::*;

verus! {

/// The numbers of the given registers.
pub open spec fn numbers(regs: Seq<RegisterId>) -> Seq<u32> {
    Seq::new(regs.len(), |i: int| regs[i].0)
}

/// Each of the given registers mapped to `alloc`.
pub open spec fn all_owned(regs: Seq<RegisterId>, alloc: AllocationModel) -> Map<
    u32,
    AllocationModel,
> {
    Map::new(|r: u32| numbers(regs).contains(r), |r: u32| alloc)
}

/// `x` is the number of a free register.
pub open spec fn free_at(free: Set<u32>, x: int) -> bool {
    0 <= x <= u32::MAX && free.contains(x as u32)
}

/// The `count` registers from `start` on are all free.
pub open spec fn free_run(free: Set<u32>, start: u32, count: u32) -> bool {
    forall|x: int| start <= x < start + count ==> #[trigger] free_at(free, x)
}

/// The state of a register file.
#[verifier::ext_equal]
pub struct FileModel {
    /// Number of physical registers.
    pub total: u32,
    /// Numbers of the free registers.
    pub free: Set<u32>,
    /// The allocation recorded for each physical register.
    pub owner: Map<u32, AllocationModel>,
    /// The allocation recorded for each virtual register.
    pub by_vreg: Map<u32, AllocationModel>,
}

impl FileModel {
    /// A file whose registers `0..total` are all free.
    pub open spec fn fresh(total: u32) -> FileModel {
        FileModel {
            total,
            free: Set::new(|r: u32| r < total),
            owner: Map::empty(),
            by_vreg: Map::empty(),
        }
    }

    /// Number of free registers, counted in 32 bits.
    pub open spec fn free_count(self) -> nat {
        self.free.len() % 0x1_0000_0000
    }

    /// Only registers of the file are free.
    pub open spec fn in_bounds(self) -> bool {
        forall|r: u32| #[trigger] self.free.contains(r) ==> r < self.total
    }

    /// The file after the `count` lowest free registers were taken.
    pub open spec fn take_lowest(self, count: nat) -> FileModel {
        let taken = order::ascending(self.free).take(count as int);
        FileModel { free: self.free.difference(taken.to_set()), ..self }
    }

    /// The file after `regs` were given back.
    pub open spec fn release(self, regs: Seq<RegisterId>) -> FileModel {
        FileModel {
            free: self.free.union(numbers(regs).to_set()),
            owner: self.owner.remove_keys(numbers(regs).to_set()),
            ..self
        }
    }

    /// The file after `alloc` was recorded.
    pub open spec fn record(self, alloc: AllocationModel) -> FileModel {
        FileModel {
            owner: self.owner.union_prefer_right(all_owned(alloc.physical_regs, alloc)),
            by_vreg: self.by_vreg.insert(alloc.vreg.0, alloc),
            ..self
        }
    }

    /// The file after the allocation of virtual register `vreg` was dropped.
    pub open spec fn drop_vreg(self, vreg: u32) -> FileModel {
        if self.by_vreg.contains_key(vreg) {
            FileModel { by_vreg: self.by_vreg.remove(vreg), ..self }.release(
                self.by_vreg[vreg].physical_regs,
            )
        } else {
            self
        }
    }
}

/// The contents of the allocations recorded in `m`.
spec fn models(m: Map<u32, Allocation>) -> Map<u32, AllocationModel> {
    Map::new(|k: u32| m.contains_key(k), |k: u32| m[k]@)
}

/// The register file: tracks physical registers and their current allocations.
#[derive(Debug)]
pub struct RegisterFile {
    total_registers: u32,
    /// Allocation recorded for each physical register.
    allocations: HashMap<u32, Allocation>,
    /// Allocation recorded for each virtual register.
    vreg_map: HashMap<u32, Allocation>,
    /// Numbers of the free registers.
    free_set: HashSet<u32>,
}

impl View for RegisterFile {
    type V = FileModel;

    closed spec fn view(&self) -> FileModel {
        FileModel {
            total: self.total_registers,
            free: self.free_set@,
            owner: models(self.allocations@),
            by_vreg: models(self.vreg_map@),
        }
    }
}

impl RegisterFile {
    /// Finitely many registers are free.
    pub proof fn lemma_free_is_finite(&self)
        ensures
            self@.free.finite(),
    {
        lemma_hash_set_finite(&self.free_set);
    }

    /// Create a new register file with the given number of physical registers.
    pub fn new(total_registers: u32) -> (file: Self)
        ensures
            file@ == FileModel::fresh(total_registers),
            file@.in_bounds(),
            file@.free.finite(),
            file@.free.len() == total_registers,
            file@.total == total_registers,
            forall|r: u32| #[trigger] file@.free.contains(r) <==> r < total_registers,
            forall|v: u32| !#[trigger] file@.by_vreg.contains_key(v),
    {
        let mut free_set: HashSet<u32> = HashSet::new();
        let mut r: u32 = 0;
        while r < total_registers
            invariant
                r <= total_registers,
                free_set@ == Set::new(|x: u32| x < r),
                free_set@.finite(),
                free_set@.len() == r,
            decreases total_registers - r,
        {
            free_set.insert(r);
            r = r + 1;
            assert(free_set@ =~= Set::new(|x: u32| x < r));
        }
        let file = Self {
            total_registers,
            allocations: HashMap::new(),
            vreg_map: HashMap::new(),
            free_set,
        };
        assert(file@ =~= FileModel::fresh(total_registers));
        file
    }

    /// Total number of physical registers.
    pub fn total_registers(&self) -> (total: u32)
        ensures
            total == self@.total,
    {
        self.total_registers
    }

    /// Number of currently free registers.
    pub fn free_count(&self) -> (count: u32)
        ensures
            count == self@.free_count(),
            count == self@.free.len() % 0x1_0000_0000,
    {
        let len: u64 = self.free_set.len() as u64;
        assert(len as u32 == len % 0x1_0000_0000) by (bit_vector);
        len as u32
    }

    /// Number of currently used registers.
    pub fn used_count(&self) -> (count: u32)
        requires
            self@.in_bounds() || self@.free_count() <= self@.total,
        ensures
            count == self@.total - self@.free_count(),
            count == self@.total - self@.free.len() % 0x1_0000_0000,
    {
        proof {
            if self@.in_bounds() {
                self.lemma_free_is_finite();
                lemma_bounded_set(self@.free, self@.total);
            }
        }
        self.total_registers - self.free_count()
    }

    /// Check if a specific register is free.
    pub fn is_free(&self, reg: RegisterId) -> (result: bool)
        ensures
            result == self@.free.contains(reg.0),
    {
        self.free_set.contains(&reg.0)
    }

    /// The numbers of the free registers in ascending order.
    fn sorted_free(&self) -> (list: Vec<u32>)
        ensures
            list@ == order::ascending(self@.free),
            order::lists(list@, self@.free),
            list@.len() == self@.free.len(),
    {
        let mut list: Vec<u32> = Vec::new();
        for r in it: self.free_set.iter()
            invariant
                list.len() == it.index(),
                forall|j: int| 0 <= j < list.len() ==> #[trigger] list@[j] == *it.seq()[j],
        {
            list.push(*r);
        }
        let result = sort_by_key(&list);
        proof {
            broadcast use vstd::seq_lib::group_to_multiset_ensures;

            let keys = vstd::std_specs::iter::IteratorSpec::remaining(
                &vstd::std_specs::hash::spec_hash_keys_iter(&self.free_set),
            );
            assert(list@ =~= keys.unref());
            assert(list@.no_duplicates());
            assert(list@.to_set() == self.free_set@);
            order::lemma_stable_sort(list@);
            list@.lemma_multiset_has_no_duplicates();
            result@.lemma_multiset_has_no_duplicates_conv();
            order::lemma_sorted_distinct(result@);
            assert forall|x: u32| #[trigger] result@.contains(x) <==> self@.free.contains(x) by {
                assert(result@.contains(x) <==> result@.to_multiset().count(x) > 0);
                assert(list@.contains(x) <==> list@.to_multiset().count(x) > 0);
                assert(list@.contains(x) <==> list@.to_set().contains(x));
            }
            self.lemma_free_is_finite();
            order::lemma_ascending(self@.free);
            order::lemma_listing_unique(
                result@,
                order::ascending(self@.free),
                self@.free,
            );
        }
        result
    }

    /// Allocate `count` contiguous physical registers: the lowest run of free registers that is
    /// long enough. Returns the registers or None.
    pub fn allocate_contiguous(&mut self, count: u32) -> (result: Option<Vec<RegisterId>>)
        ensures
            result is Some <==> count == 0 || (old(self)@.free_count() >= count && exists|
                start: u32,
            | #[trigger] free_run(old(self)@.free, start, count)),
            match result {
                Some(regs) => {
                    &&& regs.len() == count
                    &&& forall|i: int|
                        0 <= i < count ==> old(self)@.free.contains((#[trigger] regs@[i]).0)
                    &&& forall|r: u32| #[trigger]
                        final(self)@.free.contains(r) <==> old(self)@.free.contains(r) && forall|
                            i: int,
                        | 0 <= i < count ==> (#[trigger] regs@[i]).0 != r
                    &&& forall|i: int| 0 <= i < count ==> (#[trigger] regs@[i]).0 == regs@[0].0 + i
                    &&& count > 0 ==> free_run(old(self)@.free, regs@[0].0, count)
                    &&& count > 0 ==> forall|start: u32| #[trigger]
                        free_run(old(self)@.free, start, count) ==> regs@[0].0 <= start
                    &&& final(self)@ == (FileModel {
                        free: old(self)@.free.difference(numbers(regs@).to_set()),
                        ..old(self)@
                    })
                    &&& final(self)@.free.len() == old(self)@.free.len() - count
                    &&& old(self)@.in_bounds() ==> final(self)@.in_bounds()
                },
                None => final(self)@ == old(self)@,
            },
    {
        if count == 0 {
            let regs: Vec<RegisterId> = Vec::new();
            proof {
                lemma_numbers_of_the_registers(regs@);
            }
            assert(numbers(regs@).to_set() =~= Set::empty());
            assert(self@.free.difference(numbers(regs@).to_set()) =~= self@.free);
            return Some(regs);
        }
        if self.free_count() < count {
            return None;
        }
        let list = self.sorted_free();
        let ghost free = self@.free;
        let mut run_start: usize = 0;
        let mut i: usize = 0;
        while i < list.len()
            invariant
                count > 0,
                *self == *old(self),
                free == self@.free,
                self@.free_count() >= count,
                order::lists(list@, free),
                i <= list.len(),
                run_start <= i,
                run_start == i ==> i == 0,
                i - run_start < count,
                forall|m: int|
                    run_start <= m < i ==> #[trigger] list@[m] == list@[run_start as int] + (m
                        - run_start),
                0 < run_start ==> list@[run_start as int] != list@[run_start - 1] + 1,
                forall|start: u32, m: int|
                    #![trigger free_run(free, start, count), list@[m]]
                    free_run(free, start, count) && 0 <= m < i ==> list@[m] != start + count - 1,
            decreases list.len() - i,
        {
            if i > 0 {
                assert(list@[i - 1] < list@[i as int]);
                if list[i] != list[i - 1] + 1 {
                    run_start = i;
                }
            }
            let run_len: usize = i - run_start + 1;
            if run_len >= count as usize {
                let start_idx: usize = i + 1 - count as usize;
                assert(start_idx == run_start);
                let ghost first = list@[run_start as int];
                proof {
                    assert forall|x: int| first <= x < first + count implies #[trigger] free_at(
                        free,
                        x,
                    ) by {
                        let m = run_start + (x - first);
                        assert(list@[m] == x);
                        assert(list@.contains(list@[m]));
                    }
                    assert forall|start: u32| #[trigger]
                        free_run(free, start, count) implies first <= start by {
                        if start < first {
                            let end = start + count - 1;
                            assert(free_at(free, end));
                            assert(list@.contains(end as u32));
                            let m = choose|m: int| 0 <= m < list.len() && list@[m] == end as u32;
                            if m >= i && m != i {
                                assert(list@[i as int] < list@[m]);
                            }
                            assert(list@[i as int] == first + count - 1);
                            assert(m < i);
                        }
                    }
                }
                let mut regs: Vec<RegisterId> = Vec::new();
                proof {
                    self.lemma_free_is_finite();
                    assert(free.difference(numbers(regs@).to_set()) =~= free);
                }
                let mut k: usize = start_idx;
                while k <= i
                    invariant
                        i < list.len(),
                        start_idx <= k <= i + 1,
                        i + 1 - start_idx == count,
                        regs.len() == k - start_idx,
                        forall|m: int|
                            start_idx <= m <= i ==> #[trigger] list@[m] == first + (m - start_idx),
                        forall|m: int|
                            0 <= m < regs.len() ==> (#[trigger] regs@[m]).0 == first + m,
                        self.total_registers == old(self).total_registers,
                        self.allocations == old(self).allocations,
                        self.vreg_map == old(self).vreg_map,
                        free_run(free, first, count),
                        self.free_set@ == free.difference(numbers(regs@).to_set()),
                        self.free_set@.finite(),
                        self.free_set@.len() == free.len() - regs.len(),
                    decreases i + 1 - k,
                {
                    let ghost earlier = regs@;
                    let r: u32 = list[k];
                    proof {
                        assert(free_at(free, r as int));
                        assert(!numbers(earlier).contains(r));
                    }
                    self.free_set.remove(&r);
                    regs.push(RegisterId(r));
                    proof {
                        assert(numbers(regs@) =~= numbers(earlier).push(r));
                        lemma_push_to_set(numbers(earlier), r);
                        assert(self.free_set@ =~= free.difference(numbers(regs@).to_set()));
                    }
                    k = k + 1;
                }
                proof {
                    assert(regs@[0].0 == first);
                    assert(free_run(free, first, count));
                    assert forall|m: int| 0 <= m < count implies free.contains(
                        (#[trigger] regs@[m]).0,
                    ) by {
                        assert(free_at(free, first + m));
                    }
                    lemma_numbers_of_the_registers(regs@);
                    assert forall|r: u32| #[trigger]
                        self@.free.contains(r) <==> free.contains(r) && forall|m: int|
                            0 <= m < count ==> (#[trigger] regs@[m]).0 != r by {
                        assert(self@.free.contains(r) <==> free.contains(r) && !numbers(
                            regs@,
                        ).contains(r));
                    }
                }
                return Some(regs);
            }
            proof {
                assert forall|start: u32, m: int|
                    #![trigger free_run(free, start, count), list@[m]]
                    free_run(free, start, count) && 0 <= m < i + 1 implies list@[m] != start + count
                    - 1 by {
                    if m == i && list@[m] == start + count - 1 {
                        lemma_run_in_list(list@, free, start, count, i as int, count - 1);
                        lemma_run_in_list(list@, free, start, count, i as int, i - run_start);
                        if run_start > 0 {
                            lemma_run_in_list(
                                list@,
                                free,
                                start,
                                count,
                                i as int,
                                i - run_start + 1,
                            );
                        }
                    }
                }
            }
            i = i + 1;
        }
        proof {
            assert forall|start: u32| !#[trigger] free_run(free, start, count) by {
                if free_run(free, start, count) {
                    let end = start + count - 1;
                    assert(free_at(free, end));
                    assert(list@.contains(end as u32));
                    let m = choose|m: int| 0 <= m < list.len() && list@[m] == end as u32;
                    assert(list@[m] != start + count - 1);
                }
            }
        }
        None
    }

    /// Allocate `count` physical registers (not necessarily contiguous): the lowest free ones.
    pub fn allocate(&mut self, count: u32) -> (result: Option<Vec<RegisterId>>)
        ensures
            result is Some <==> old(self)@.free_count() >= count,
            match result {
                Some(regs) => {
                    &&& regs.len() == count
                    &&& numbers(regs@) == order::ascending(old(self)@.free).take(
                        count as int,
                    )
                    &&& final(self)@ == old(self)@.take_lowest(count as nat)
                    &&& final(self)@.free == old(self)@.free.difference(numbers(regs@).to_set())
                    &&& forall|r: u32| #[trigger]
                        final(self)@.free.contains(r) <==> old(self)@.free.contains(r) && forall|
                            i: int,
                        | 0 <= i < count ==> (#[trigger] regs@[i]).0 != r
                    &&& final(self)@.total == old(self)@.total
                    &&& final(self)@.owner == old(self)@.owner
                    &&& final(self)@.by_vreg == old(self)@.by_vreg
                    &&& forall|i: int, j: int|
                        0 <= i < j < count ==> (#[trigger] regs@[i]).0 < (#[trigger] regs@[j]).0
                    &&& forall|i: int|
                        0 <= i < count ==> old(self)@.free.contains((#[trigger] regs@[i]).0)
                    &&& forall|i: int, r: u32|
                        0 <= i < count && #[trigger] final(self)@.free.contains(r) ==> (
                        #[trigger] regs@[i]).0 < r
                    &&& final(self)@.free.len() == old(self)@.free.len() - count
                    &&& old(self)@.in_bounds() ==> final(self)@.in_bounds()
                },
                None => final(self)@ == old(self)@,
            },
    {
        if self.free_count() < count {
            return None;
        }
        let mut regs: Vec<RegisterId> = Vec::with_capacity(count as usize);
        let list = self.sorted_free();
        let ghost free = self@.free;
        proof {
            self.lemma_free_is_finite();
            order::lemma_ascending(free);
            assert(numbers(regs@) =~= list@.take(0));
            assert(free.difference(numbers(regs@).to_set()) =~= free);
        }
        let mut k: usize = 0;
        while k < count as usize
            invariant
                k <= count,
                count <= list.len(),
                free.finite(),
                order::lists(list@, free),
                numbers(regs@) == list@.take(k as int),
                regs.len() == k,
                self.total_registers == old(self).total_registers,
                self.allocations == old(self).allocations,
                self.vreg_map == old(self).vreg_map,
                self.free_set@ == free.difference(numbers(regs@).to_set()),
                self.free_set@.finite(),
                self.free_set@.len() == free.len() - k,
            decreases count - k,
        {
            let ghost earlier = regs@;
            let r: u32 = list[k];
            proof {
                assert(list@.contains(r));
                assert(!numbers(earlier).contains(r));
            }
            self.free_set.remove(&r);
            regs.push(RegisterId(r));
            proof {
                assert(numbers(regs@) =~= numbers(earlier).push(r));
                assert(list@.take(k + 1) =~= list@.take(k as int).push(r));
                lemma_push_to_set(numbers(earlier), r);
                assert(self.free_set@ =~= free.difference(numbers(regs@).to_set()));
            }
            k = k + 1;
        }
        proof {
            lemma_numbers_of_the_registers(regs@);
            assert forall|i: int| 0 <= i < count implies (#[trigger] regs@[i]).0 == list@[i] by {
                assert(numbers(regs@)[i] == regs@[i].0);
            }
            assert forall|i: int| 0 <= i < count implies free.contains((#[trigger] regs@[i]).0) by {
                assert(list@.contains(list@[i]));
            }
            assert forall|i: int, r: u32|
                0 <= i < count && #[trigger] self@.free.contains(r) implies (#[trigger] regs@[i]).0
                < r by {
                assert(list@.contains(r));
                let m = choose|m: int| 0 <= m < list.len() && list@[m] == r;
                if m < count {
                    assert(numbers(regs@)[m] == r);
                }
                assert(list@[i] < list@[m]);
            }
        }
        Some(regs)
    }

    /// Free a set of registers.
    pub fn free(&mut self, regs: &[RegisterId])
        ensures
            final(self)@ == old(self)@.release(regs@),
            old(self)@.in_bounds() && (forall|i: int|
                0 <= i < regs.len() ==> (#[trigger] regs@[i]).0 < old(self)@.total)
                ==> final(self)@.in_bounds(),
    {
        proof {
            assert(numbers(regs@.take(0)).to_set() =~= Set::empty());
            assert(self@ =~= self@.release(regs@.take(0)));
        }
        let mut k: usize = 0;
        while k < regs.len()
            invariant
                k <= regs.len(),
                self@ == old(self)@.release(regs@.take(k as int)),
            decreases regs.len() - k,
        {
            let r: u32 = regs[k].0;
            let ghost earlier = numbers(regs@.take(k as int));
            let ghost owner = self@.owner;
            self.free_set.insert(r);
            self.allocations.remove(&r);
            proof {
                assert(numbers(regs@.take(k + 1)) =~= earlier.push(r));
                lemma_push_to_set(earlier, r);
                assert(self@.owner =~= owner.remove(r));
                assert(self@ =~= old(self)@.release(regs@.take(k + 1)));
            }
            k = k + 1;
        }
        proof {
            assert(regs@.take(k as int) =~= regs@);
            assert forall|r: u32| #[trigger] numbers(regs@).contains(r) implies exists|i: int|
                0 <= i < regs.len() && (#[trigger] regs@[i]).0 == r by {
                let i = choose|i: int| 0 <= i < regs.len() && numbers(regs@)[i] == r;
                assert(regs@[i].0 == r);
            }
        }
    }

    /// Assign an allocation to a virtual register.
    pub fn assign(&mut self, alloc: Allocation)
        ensures
            final(self)@ == old(self)@.record(alloc@),
    {
        let ghost before = self@;
        let mut k: usize = 0;
        proof {
            let none = all_owned(alloc.physical_regs@.take(0), alloc@);
            assert(self@.owner =~= before.owner.union_prefer_right(none));
        }
        while k < alloc.physical_regs.len()
            invariant
                k <= alloc.physical_regs.len(),
                before == old(self)@,
                self@.total == before.total,
                self@.free == before.free,
                self@.by_vreg == before.by_vreg,
                self.vreg_map == old(self).vreg_map,
                self@.owner == before.owner.union_prefer_right(
                    all_owned(alloc.physical_regs@.take(k as int), alloc@),
                ),
            decreases alloc.physical_regs.len() - k,
        {
            let r: u32 = alloc.physical_regs[k].0;
            let ghost earlier = numbers(alloc.physical_regs@.take(k as int));
            let ghost owner = self@.owner;
            self.allocations.insert(r, alloc.clone());
            proof {
                let now = alloc.physical_regs@.take(k + 1);
                assert(numbers(now) =~= earlier.push(r));
                order::lemma_push_contains(earlier, r);
                assert(self@.owner =~= owner.insert(r, alloc@));
                assert(self@.owner =~= before.owner.union_prefer_right(all_owned(now, alloc@)));
            }
            k = k + 1;
        }
        assert(alloc.physical_regs@.take(k as int) =~= alloc.physical_regs@);
        let vreg: u32 = alloc.vreg.0;
        let ghost recorded = alloc@;
        self.vreg_map.insert(vreg, alloc);
        assert(self@ =~= before.record(recorded));
    }

    /// Deallocate a virtual register.
    pub fn deallocate(&mut self, vreg: VirtualReg) -> (result: Option<Allocation>)
        ensures
            final(self)@ == old(self)@.drop_vreg(vreg.0),
            match result {
                Some(alloc) => old(self)@.by_vreg.contains_key(vreg.0) && alloc@
                    == old(self)@.by_vreg[vreg.0],
                None => !old(self)@.by_vreg.contains_key(vreg.0),
            },
            old(self)@.in_bounds() && (forall|r: u32|
                old(self)@.by_vreg.contains_key(vreg.0) && #[trigger] numbers(
                    old(self)@.by_vreg[vreg.0].physical_regs,
                ).contains(r) ==> r < old(self)@.total) ==> final(self)@.in_bounds(),
    {
        let ghost before = self@;
        if let Some(alloc) = self.vreg_map.remove(&vreg.0) {
            assert(self@ =~= (FileModel { by_vreg: before.by_vreg.remove(vreg.0), ..before }));
            self.free(alloc.physical_regs.as_slice());
            proof {
                assert forall|r: u32| #[trigger]
                    self@.free.contains(r) implies before.free.contains(r) || numbers(
                    before.by_vreg[vreg.0].physical_regs,
                ).contains(r) by {
                }
            }
            Some(alloc)
        } else {
            assert(self@ =~= before);
            None
        }
    }

    /// Get allocation for a virtual register.
    pub fn get_allocation(&self, vreg: VirtualReg) -> (result: Option<&Allocation>)
        ensures
            match result {
                Some(alloc) => self@.by_vreg.contains_key(vreg.0) && alloc@
                    == self@.by_vreg[vreg.0],
                None => !self@.by_vreg.contains_key(vreg.0),
            },
    {
        self.vreg_map.get(&vreg.0)
    }

    /// Current register utilization as a fraction between 0 and 1; zero for a file without
    /// registers.
    pub fn utilization(&self) -> (fraction: Ratio)
        requires
            self@.total == 0 || self@.in_bounds() || self@.free_count() <= self@.total,
        ensures
            self@.total == 0 ==> fraction.numerator == 0 && fraction.denominator == 1,
            self@.total != 0 ==> fraction.numerator == self@.total - self@.free_count()
                && fraction.denominator == self@.total,
            fraction.numerator <= fraction.denominator,
            self@.total != 0 ==> fraction.numerator + self@.free.len() % 0x1_0000_0000
                == self@.total && fraction.denominator == self@.total,
    {
        if self.total_registers == 0 {
            Ratio { numerator: 0, denominator: 1 }
        } else {
            Ratio {
                numerator: self.used_count() as u64,
                denominator: self.total_registers as u64,
            }
        }
    }
}

impl Clone for RegisterFile {
    fn clone(&self) -> (copy: Self)
        ensures
            copy@ == self@,
    {
        let list = self.sorted_free();
        let mut free_set: HashSet<u32> = HashSet::new();
        assert(list@.take(0).to_set() =~= Set::empty());
        let mut k: usize = 0;
        while k < list.len()
            invariant
                k <= list.len(),
                free_set@ == list@.take(k as int).to_set(),
            decreases list.len() - k,
        {
            free_set.insert(list[k]);
            proof {
                assert(list@.take(k + 1) =~= list@.take(k as int).push(list@[k as int]));
                lemma_push_to_set(list@.take(k as int), list@[k as int]);
            }
            k = k + 1;
        }
        assert(list@.take(k as int) =~= list@);
        assert(free_set@ =~= self.free_set@) by {
            assert forall|x: u32| free_set@.contains(x) <==> self.free_set@.contains(x) by {
                assert(list@.contains(x) <==> self@.free.contains(x));
            }
        }
        Self {
            total_registers: self.total_registers,
            allocations: self.allocations.clone(),
            vreg_map: self.vreg_map.clone(),
            free_set,
        }
    }
}

proof fn lemma_push_to_set(s: Seq<u32>, x: u32)
    ensures
        s.push(x).to_set() == s.to_set().insert(x),
{
    order::lemma_push_contains(s, x);
    assert forall|y: u32| #[trigger]
        s.push(x).to_set().contains(y) <==> s.to_set().insert(x).contains(y) by {
        assert(s.push(x).contains(y) <==> s.contains(y) || y == x);
    }
    assert(s.push(x).to_set() =~= s.to_set().insert(x));
}

/// The members of a free run stand next to each other in the ascending list.
proof fn lemma_run_in_list(
    list: Seq<u32>,
    free: Set<u32>,
    start: u32,
    count: u32,
    end: int,
    back: int,
)
    requires
        order::lists(list, free),
        free_run(free, start, count),
        0 <= end < list.len(),
        list[end] == start + count - 1,
        0 <= back < count,
    ensures
        end >= back,
        list[end - back] == list[end] - back,
    decreases back,
{
    if back > 0 {
        lemma_run_in_list(list, free, start, count, end, back - 1);
        let x = list[end] - back;
        assert(free_at(free, x));
        assert(list.contains(x as u32));
        let m = choose|m: int| 0 <= m < list.len() && list[m] == x as u32;
        let above = end - back + 1;
        if m > above {
            assert(list[above] < list[m]);
        }
        if m < above - 1 {
            assert(list[m] < list[above - 1]);
            assert(list[above - 1] < list[above]);
        }
    }
}

/// The list of numbers holds the number of each register, in the same order.
pub proof fn lemma_numbers_of_the_registers(regs: Seq<RegisterId>)
    ensures
        numbers(regs).len() == regs.len(),
        forall|i: int| 0 <= i < regs.len() ==> #[trigger] numbers(regs)[i] == regs[i].0,
        forall|r: u32| #[trigger]
            numbers(regs).contains(r) <==> exists|i: int|
                0 <= i < regs.len() && (#[trigger] regs[i]).0 == r,
{
    assert forall|r: u32| #[trigger] numbers(regs).contains(r) <==> exists|i: int|
        0 <= i < regs.len() && (#[trigger] regs[i]).0 == r by {
        if numbers(regs).contains(r) {
            let i = choose|i: int| 0 <= i < regs.len() && numbers(regs)[i] == r;
            assert(regs[i].0 == r);
        }
        if exists|i: int| 0 <= i < regs.len() && (#[trigger] regs[i]).0 == r {
            let i = choose|i: int| 0 <= i < regs.len() && (#[trigger] regs[i]).0 == r;
            assert(numbers(regs)[i] == r);
        }
    }
}

/// In a fresh file the registers below `total` are free and no others, and nothing is on record.
pub proof fn lemma_fresh_file_is_free(total: u32)
    ensures
        FileModel::fresh(total).total == total,
        forall|r: u32| #[trigger] FileModel::fresh(total).free.contains(r) <==> r < total,
        forall|r: u32| !#[trigger] FileModel::fresh(total).owner.contains_key(r),
        forall|v: u32| !#[trigger] FileModel::fresh(total).by_vreg.contains_key(v),
{
}

/// The free count is the number of free registers, as far as 32 bits hold it. It is exact, and at
/// most the number of registers, where only registers of the file are free.
pub proof fn lemma_free_count_is_the_number_of_free_registers(file: FileModel)
    ensures
        file.free_count() == file.free.len() % 0x1_0000_0000,
        file.in_bounds() <==> !exists|r: u32| #[trigger] file.free.contains(r) && r >= file.total,
        (forall|r: u32| #[trigger] file.free.contains(r) ==> r < file.total) ==> file.free.finite()
            && file.free_count() == file.free.len() && file.free.len() <= file.total,
{
    if file.in_bounds() {
        lemma_bounded_set(file.free, file.total);
    }
}

/// A run of registers is free exactly if each register in it is, and it ends within 32 bits.
pub proof fn lemma_run_is_free_if_each_register_is(free: Set<u32>, start: u32, count: u32)
    ensures
        free_run(free, start, count) <==> start + count <= u32::MAX + 1 && forall|r: u32|
            start <= r && r < start + count ==> #[trigger] free.contains(r),
{
    if free_run(free, start, count) {
        if count > 0 {
            assert(free_at(free, start + count - 1));
        }
        assert forall|r: u32| start <= r && r < start + count implies #[trigger] free.contains(
            r,
        ) by {
            assert(free_at(free, r as int));
        }
    } else {
        let x = choose|x: int| start <= x < start + count && !#[trigger] free_at(free, x);
        if start + count <= u32::MAX + 1 {
            assert(!free.contains(x as u32));
        }
    }
}

/// Taking the lowest free registers takes `count` of them, all below the ones that stay free, and
/// changes nothing else.
pub proof fn lemma_the_lowest_are_taken(file: FileModel, count: nat)
    requires
        file.free.finite(),
        count <= file.free.len(),
    ensures
        ({
            let after = file.take_lowest(count);
            &&& after.total == file.total
            &&& after.owner == file.owner
            &&& after.by_vreg == file.by_vreg
            &&& after.free.finite()
            &&& after.free.len() == file.free.len() - count
            &&& forall|r: u32| #[trigger] after.free.contains(r) ==> file.free.contains(r)
            &&& forall|low: u32, high: u32|
                #![trigger file.free.contains(low), after.free.contains(high)]
                file.free.contains(low) && !after.free.contains(low) && after.free.contains(high)
                    ==> low < high
        }),
{
    broadcast use vstd::seq_lib::seq_to_set_is_finite;

    let after = file.take_lowest(count);
    let list = order::ascending(file.free);
    order::lemma_ascending(file.free);
    let taken = list.take(count as int);
    assert forall|x: u32| #[trigger] taken.to_set().contains(x) implies file.free.contains(x) by {
        let i = choose|i: int| 0 <= i < count && taken[i] == x;
        assert(list[i] == x);
        assert(list.contains(x));
    }
    taken.unique_seq_to_set();
    assert(file.free =~= after.free + taken.to_set());
    vstd::set_lib::lemma_set_disjoint_lens(after.free, taken.to_set());
    assert forall|low: u32, high: u32|
        #![trigger file.free.contains(low), after.free.contains(high)]
        file.free.contains(low) && !after.free.contains(low) && after.free.contains(
            high,
        ) implies low < high by {
        assert(taken.contains(low));
        let i = choose|i: int| 0 <= i < count && taken[i] == low;
        assert(list[i] == low);
        assert(list.contains(high));
        let j = choose|j: int| 0 <= j < list.len() && list[j] == high;
        if j < count {
            assert(taken[j] == high);
            assert(taken.to_set().contains(high));
        }
    }
}

/// Giving registers back makes these free and clears what is recorded for them. All others stay as
/// they are, and so do the virtual registers.
pub proof fn lemma_release_concerns_the_given_registers(file: FileModel, regs: Seq<RegisterId>)
    ensures
        file.release(regs).total == file.total,
        file.release(regs).by_vreg == file.by_vreg,
        forall|i: int|
            0 <= i < regs.len() ==> file.release(regs).free.contains((#[trigger] regs[i]).0)
                && !file.release(regs).owner.contains_key(regs[i].0),
        forall|r: u32|
            (forall|i: int| 0 <= i < regs.len() ==> (#[trigger] regs[i]).0 != r) ==> (
            #[trigger] file.release(regs).free.contains(r) <==> file.free.contains(r)) && (
            file.release(regs).owner.contains_key(r) <==> file.owner.contains_key(r)) && (
            file.owner.contains_key(r) ==> file.release(regs).owner[r] == file.owner[r]),
{
    lemma_numbers_of_the_registers(regs);
    assert forall|i: int| 0 <= i < regs.len() implies file.release(regs).free.contains(
        (#[trigger] regs[i]).0,
    ) && !file.release(regs).owner.contains_key(regs[i].0) by {
        assert(numbers(regs).contains(regs[i].0));
    }
}

/// Recording an allocation concerns its virtual register and its registers only, and leaves the
/// free registers as they are.
pub proof fn lemma_record_concerns_the_allocation(file: FileModel, alloc: AllocationModel)
    ensures
        file.record(alloc).total == file.total,
        file.record(alloc).free == file.free,
        file.record(alloc).by_vreg == file.by_vreg.insert(alloc.vreg.0, alloc),
        forall|r: u32|
            (forall|i: int|
                0 <= i < alloc.physical_regs.len() ==> (#[trigger] alloc.physical_regs[i]).0 != r)
                ==> (#[trigger] file.record(alloc).owner.contains_key(r)
                <==> file.owner.contains_key(r)) && (file.owner.contains_key(r) ==> file.record(
                alloc,
            ).owner[r] == file.owner[r]),
{
    lemma_numbers_of_the_registers(alloc.physical_regs);
}

/// Dropping a virtual register frees the registers that it has on record and no others, and takes
/// this virtual register, and no other, off the record. One that has nothing on record changes
/// nothing.
pub proof fn lemma_drop_concerns_the_virtual_register(file: FileModel, vreg: u32)
    ensures
        file.drop_vreg(vreg).total == file.total,
        file.drop_vreg(vreg).by_vreg == file.by_vreg.remove(vreg),
        !file.by_vreg.contains_key(vreg) ==> file.drop_vreg(vreg) == file,
        file.by_vreg.contains_key(vreg) ==> forall|r: u32| #[trigger]
            file.drop_vreg(vreg).free.contains(r) <==> file.free.contains(r) || exists|i: int|
                0 <= i < file.by_vreg[vreg].physical_regs.len() && (
                #[trigger] file.by_vreg[vreg].physical_regs[i]).0 == r,
        file.by_vreg.contains_key(vreg) ==> forall|r: u32| #[trigger]
            file.drop_vreg(vreg).owner.contains_key(r) <==> file.owner.contains_key(r) && forall|
                i: int,
            |
                0 <= i < file.by_vreg[vreg].physical_regs.len() ==> (
                #[trigger] file.by_vreg[vreg].physical_regs[i]).0 != r,
{
    if file.by_vreg.contains_key(vreg) {
        lemma_numbers_of_the_registers(file.by_vreg[vreg].physical_regs);
    } else {
        assert(file.by_vreg.remove(vreg) =~= file.by_vreg);
    }
}

/// Giving back registers that were taken from the free ones frees exactly these: the free
/// registers are as before, and nothing else about the file has changed but that no allocation is
/// recorded for the registers given back.
pub proof fn lemma_take_then_release(file: FileModel, regs: Seq<RegisterId>)
    requires
        forall|i: int| 0 <= i < regs.len() ==> file.free.contains((#[trigger] regs[i]).0),
    ensures
        ({
            let taken = FileModel {
                free: file.free.difference(numbers(regs).to_set()),
                ..file
            };
            taken.release(regs) == (FileModel {
                owner: file.owner.remove_keys(numbers(regs).to_set()),
                ..file
            })
        }),
{
    let all = numbers(regs).to_set();
    assert forall|r: u32| all.contains(r) implies file.free.contains(r) by {
        let i = choose|i: int| 0 <= i < regs.len() && numbers(regs)[i] == r;
        assert(regs[i].0 == r);
    }
    assert(file.free.difference(all).union(all) =~= file.free);
}

/// What was recorded for a virtual register is what is on record for it, and its registers are
/// recorded as its own.
pub proof fn lemma_recorded_is_on_record(file: FileModel, alloc: AllocationModel)
    ensures
        file.record(alloc).by_vreg.contains_key(alloc.vreg.0),
        file.record(alloc).by_vreg[alloc.vreg.0] == alloc,
        forall|i: int|
            0 <= i < alloc.physical_regs.len() ==> file.record(alloc).owner.contains_key(
                (#[trigger] alloc.physical_regs[i]).0,
            ) && file.record(alloc).owner[alloc.physical_regs[i].0] == alloc,
{
    assert forall|i: int| 0 <= i < alloc.physical_regs.len() implies file.record(
        alloc,
    ).owner.contains_key((#[trigger] alloc.physical_regs[i]).0) && file.record(
        alloc,
    ).owner[alloc.physical_regs[i].0] == alloc by {
        assert(numbers(alloc.physical_regs)[i] == alloc.physical_regs[i].0);
        assert(numbers(alloc.physical_regs).contains(alloc.physical_regs[i].0));
    }
}

/// Taking free registers, recording them for a virtual register and deallocating that virtual
/// register again leaves the free registers as they were and the virtual register without an
/// allocation.
pub proof fn lemma_record_then_drop(file: FileModel, alloc: AllocationModel)
    requires
        forall|i: int|
            0 <= i < alloc.physical_regs.len() ==> file.free.contains(
                (#[trigger] alloc.physical_regs[i]).0,
            ),
    ensures
        ({
            let taken = FileModel {
                free: file.free.difference(numbers(alloc.physical_regs).to_set()),
                ..file
            };
            let after = taken.record(alloc).drop_vreg(alloc.vreg.0);
            &&& after.free == file.free
            &&& after.total == file.total
            &&& after.by_vreg == file.by_vreg.remove(alloc.vreg.0)
            &&& after.owner == file.owner.remove_keys(numbers(alloc.physical_regs).to_set())
        }),
{
    let all = numbers(alloc.physical_regs).to_set();
    let taken = FileModel { free: file.free.difference(all), ..file };
    let after = taken.record(alloc).drop_vreg(alloc.vreg.0);
    lemma_take_then_release(file, alloc.physical_regs);
    assert(after.free =~= file.free);
    assert(after.by_vreg =~= file.by_vreg.remove(alloc.vreg.0));
    assert(after.owner =~= file.owner.remove_keys(all));
}

/// Registers that are handed out one after the other are different ones.
pub proof fn lemma_successive_takes_are_disjoint(file: FileModel, first: nat, second: nat, r: u32)
    requires
        file.free.finite(),
        first + second <= file.free.len(),
    ensures
        !(order::ascending(file.free).take(first as int).contains(r)
            && order::ascending(file.take_lowest(first).free).take(
            second as int,
        ).contains(r)),
        file.take_lowest(first).free.len() == file.free.len() - first,
{
    broadcast use vstd::seq_lib::seq_to_set_is_finite;

    let list = order::ascending(file.free);
    order::lemma_ascending(file.free);
    let taken = list.take(first as int);
    let rest = file.take_lowest(first).free;
    assert forall|x: u32| #[trigger] taken.to_set().contains(x) implies file.free.contains(x) by {
        let i = choose|i: int| 0 <= i < first && taken[i] == x;
        assert(list[i] == x);
        assert(list.contains(x));
    }
    taken.unique_seq_to_set();
    assert(file.free =~= rest + taken.to_set());
    vstd::set_lib::lemma_set_disjoint_lens(rest, taken.to_set());
    order::lemma_ascending(rest);
    let later = order::ascending(rest);
    if later.take(second as int).contains(r) {
        let i = choose|i: int| 0 <= i < second && later.take(second as int)[i] == r;
        assert(later[i] == r);
        assert(later.contains(r));
        assert(!taken.to_set().contains(r));
    }
}

/// A set of numbers below `bound` has at most `bound` members.
pub proof fn lemma_bounded_set(set: Set<u32>, bound: u32)
    requires
        forall|r: u32| #[trigger] set.contains(r) ==> r < bound,
    ensures
        set.finite(),
        set.len() <= bound,
    decreases bound,
{
    if bound == 0 {
        assert(set =~= Set::empty());
    } else {
        let top = (bound - 1) as u32;
        lemma_bounded_set(set.remove(top), top);
        assert(set =~= set.remove(top) || set =~= set.remove(top).insert(top));
    }
}

/// A hash set has finitely many members: an iterator lists them all.
proof fn lemma_hash_set_finite(set: &HashSet<u32>)
    ensures
        set@.finite(),
{
    broadcast use vstd::seq_lib::seq_to_set_is_finite;

    let listed = vstd::std_specs::iter::IteratorSpec::remaining(
        &vstd::std_specs::hash::spec_hash_keys_iter(set),
    ).unref();
    assert(listed.to_set() == set@);
}

} // verus!
