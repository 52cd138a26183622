use ternary_register_file::{
    Allocation, AllocationRequest, AllocationResult, LiveRange, RegisterAllocator, RegisterId,
    VirtualReg, TRITS_PER_REGISTER,
};

fn request(vreg: u32, start: u32, end: u32, trit_count: u32) -> AllocationRequest {
    AllocationRequest {
        vreg: VirtualReg(vreg),
        live_range: LiveRange::new(start, end),
        trit_count,
        packed: false,
    }
}

fn placed(result: &AllocationResult) -> Vec<(u32, Vec<u32>)> {
    result
        .allocations
        .iter()
        .map(|a| (a.vreg.0, a.physical_regs.iter().map(|r| r.0).collect()))
        .collect()
}

#[test]
fn test_live_range_tracking() {
    let mut allocator = RegisterAllocator::new(16);
    allocator.request(LiveRange::new(0, 5), 20, false); // 1 reg
    allocator.request(LiveRange::new(3, 8), 20, false); // 1 reg
    allocator.request(LiveRange::new(0, 2), 20, false); // 1 reg

    let result = allocator.allocate_all();
    // First (0-5) and third (0-2) overlap; second (3-8) overlaps with first
    // But third ends at 2, so at point 3 it's freed
    assert_eq!(result.spilled_count(), 0);
}

#[test]
fn test_packed_trits_use_fewer_registers() {
    let mut allocator = RegisterAllocator::new(16);

    // Unpacked: 1 value per register, 5 values = 5 registers
    let unpacked = AllocationRequest {
        vreg: VirtualReg(0),
        live_range: LiveRange::new(0, 10),
        trit_count: 100, // 100 trits: ceil(100/20) = 5 registers
        packed: false,
    };
    assert_eq!(unpacked.registers_needed(), 5);

    // Packed: multiple values in one register
    let packed = AllocationRequest {
        vreg: VirtualReg(1),
        live_range: LiveRange::new(0, 10),
        trit_count: 15, // 15 trits: 1 register
        packed: true,
    };
    assert_eq!(packed.registers_needed(), 1);

    allocator.add_request(unpacked);
    allocator.add_request(packed);
    assert_eq!(allocator.allocate_all().total_register_uses(), 6);
}

#[test]
fn test_allocation_result() {
    let mut allocator = RegisterAllocator::new(64);
    allocator.request(LiveRange::new(0, 5), 20, false);
    allocator.request(LiveRange::new(0, 5), 20, false);
    allocator.request(LiveRange::new(10, 15), 20, false);

    let result = allocator.allocate_all();
    assert_eq!(result.allocated_count(), 3);
    assert_eq!(result.spilled_count(), 0);
}

#[test]
fn registers_needed_rounds_up() {
    assert_eq!(TRITS_PER_REGISTER, 20);
    assert!(3u64.pow(TRITS_PER_REGISTER) <= 1 << 32);
    assert!(3u64.pow(TRITS_PER_REGISTER + 1) > 1 << 32);
    assert_eq!(request(0, 0, 1, 0).registers_needed(), 0);
    assert_eq!(request(0, 0, 1, 1).registers_needed(), 1);
    assert_eq!(request(0, 0, 1, 20).registers_needed(), 1);
    assert_eq!(request(0, 0, 1, 21).registers_needed(), 2);
    assert_eq!(request(0, 0, 1, 64).registers_needed(), 4);
    assert_eq!(request(0, 0, 1, u32::MAX - 20).registers_needed(), 214748364);
}

#[test]
fn packing_saves_registers() {
    let apart = request(0, 0, 1, 10).registers_needed() + request(1, 0, 1, 10).registers_needed();
    let together = request(2, 0, 1, 20).registers_needed();
    assert_eq!((apart, together), (2, 1));
}

#[test]
fn requests_get_consecutive_virtual_registers() {
    let mut allocator = RegisterAllocator::new(1);
    assert_eq!(allocator.request(LiveRange::new(0, 1), 1, false), VirtualReg(0));
    allocator.add_request(request(9, 0, 1, 1));
    assert_eq!(allocator.request(LiveRange::new(0, 1), 1, true), VirtualReg(1));
}

#[test]
fn registers_are_reused_once_their_value_has_ended() {
    let mut allocator = RegisterAllocator::new(4);
    allocator.request(LiveRange::new(0, 5), 20, false);
    allocator.request(LiveRange::new(3, 8), 40, false);
    allocator.request(LiveRange::new(5, 9), 20, false);
    let result = allocator.allocate_all();
    assert_eq!(placed(&result), vec![(0, vec![0]), (1, vec![1, 2]), (2, vec![0])]);
    assert_eq!(result.peak_utilization, 3);
    assert_eq!(result.total_registers, 4);
    assert_eq!(result.total_register_uses(), 4);
}

#[test]
fn requests_are_served_by_start_and_equal_starts_in_order() {
    let mut allocator = RegisterAllocator::new(8);
    allocator.add_request(request(5, 4, 6, 20));
    allocator.add_request(request(3, 0, 9, 20));
    allocator.add_request(request(4, 4, 9, 20));
    allocator.add_request(request(1, 0, 2, 20));
    let result = allocator.allocate_all();
    assert_eq!(
        placed(&result),
        vec![(3, vec![0]), (1, vec![1]), (5, vec![1]), (4, vec![2])]
    );
}

#[test]
fn what_does_not_fit_is_spilled() {
    let mut allocator = RegisterAllocator::new(2);
    allocator.request(LiveRange::new(0, 10), 20, false);
    allocator.request(LiveRange::new(1, 5), 40, false);
    allocator.request(LiveRange::new(2, 4), 20, false);
    let result = allocator.allocate_all();
    assert_eq!(placed(&result), vec![(0, vec![0]), (2, vec![1])]);
    assert_eq!(result.spilled_count(), 1);
    assert_eq!(result.spilled[0].vreg, VirtualReg(1));
    assert_eq!(allocator.spilled().len(), 1);
    assert_eq!(allocator.spilled()[0].trit_count, 40);
    assert_eq!(result.peak_utilization, 2);
    // Every request is allocated or spilled.
    assert_eq!(result.allocated_count() + result.spilled_count(), 3);
    // What is used and what is spilled add up to the whole demand.
    assert_eq!(result.total_register_uses() + result.spilled[0].registers_needed(), 4);
}

#[test]
fn nothing_is_spilled_while_the_pressure_fits() {
    for total in 0..6 {
        let mut allocator = RegisterAllocator::new(total);
        // Pressure: 3 at 0..4, 5 at 4..6, 2 at 6..8.
        allocator.request(LiveRange::new(0, 6), 60, false);
        allocator.request(LiveRange::new(4, 8), 40, false);
        let result = allocator.allocate_all();
        assert_eq!(result.spilled_count() == 0, total >= 5);
        assert!(result.peak_utilization <= total);
    }
}

#[test]
fn an_empty_live_range_needs_registers_without_pressure() {
    let mut allocator = RegisterAllocator::new(1);
    allocator.request(LiveRange::new(3, 3), 40, false);
    allocator.request(LiveRange::new(3, 3), 20, false);
    allocator.request(LiveRange::new(3, 4), 20, false);
    let result = allocator.allocate_all();
    assert_eq!(placed(&result), vec![(1, vec![0]), (2, vec![0])]);
    assert_eq!(result.spilled[0].vreg, VirtualReg(0));
    assert_eq!(result.peak_utilization, 1);
}

#[test]
fn values_alive_together_share_no_register() {
    let mut allocator = RegisterAllocator::new(7);
    for i in 0..12u32 {
        allocator.request(LiveRange::new(i % 5, i % 5 + 1 + i % 4), 20 * (1 + i % 3), false);
    }
    let result = allocator.allocate_all();
    assert_eq!(result.allocated_count() + result.spilled_count(), 12);
    for (i, a) in result.allocations.iter().enumerate() {
        assert_eq!(a.physical_regs.len() as u32, a.registers_used);
        assert!(a.physical_regs.iter().all(|r| r.0 < 7));
        for b in &result.allocations[i + 1..] {
            if a.live_range.overlaps(&b.live_range) {
                assert!(a.physical_regs.iter().all(|r| !b.physical_regs.contains(r)));
            }
        }
    }
    assert!(result.peak_utilization <= 7);
}

#[test]
fn requests_for_one_virtual_register_can_conflict() {
    let mut allocator = RegisterAllocator::new(4);
    allocator.add_request(request(7, 0, 5, 20));
    allocator.add_request(request(7, 0, 10, 20));
    allocator.add_request(request(8, 5, 8, 20));
    let result = allocator.allocate_all();
    // When the first one ends, the registers of the second are given back.
    assert_eq!(placed(&result), vec![(7, vec![0]), (7, vec![1]), (8, vec![1])]);
}

#[test]
fn a_second_run_starts_from_what_the_first_left() {
    let mut allocator = RegisterAllocator::new(2);
    allocator.request(LiveRange::new(0, 4), 20, false);
    let first = allocator.allocate_all();
    assert_eq!(placed(&first), vec![(0, vec![0])]);
    assert_eq!(allocator.register_file().free_count(), 1);
    let second = allocator.allocate_all();
    assert_eq!(placed(&second), vec![(0, vec![1])]);
    assert_eq!(allocator.register_file().free_count(), 0);
    let third = allocator.allocate_all();
    assert_eq!(third.allocated_count(), 0);
    assert_eq!(third.spilled_count(), 1);
    assert_eq!(third.peak_utilization, 0);
}

#[test]
fn the_register_file_shows_the_last_allocations() {
    let mut allocator = RegisterAllocator::new(4);
    allocator.request(LiveRange::new(0, 2), 20, false);
    let late = allocator.request(LiveRange::new(2, 3), 40, false);
    allocator.allocate_all();
    let file = allocator.register_file();
    assert_eq!(file.total_registers(), 4);
    assert_eq!(file.used_count(), 2);
    assert!(file.get_allocation(VirtualReg(0)).is_none());
    assert_eq!(file.get_allocation(late).unwrap().registers_used, 2);
}

#[test]
fn what_ends_after_the_last_start_stays_on_record() {
    let mut allocator = RegisterAllocator::new(4);
    let ended = allocator.request(LiveRange::new(0, 4), 20, false);
    let lasting = allocator.request(LiveRange::new(2, 9), 20, false);
    let last = allocator.request(LiveRange::new(4, 5), 20, false);
    let result = allocator.allocate_all();
    assert_eq!(placed(&result), vec![(0, vec![0]), (1, vec![1]), (2, vec![0])]);
    let file = allocator.register_file();
    assert!(file.get_allocation(ended).is_none());
    assert_eq!(file.get_allocation(lasting).unwrap().live_range, LiveRange::new(2, 9));
    assert_eq!(file.get_allocation(lasting).unwrap().physical_regs, vec![RegisterId(1)]);
    assert_eq!(file.get_allocation(last).unwrap().physical_regs, vec![RegisterId(0)]);
    assert!(!file.is_free(RegisterId(0)));
    assert!(!file.is_free(RegisterId(1)));
    assert!(file.is_free(RegisterId(2)));
    assert!(file.is_free(RegisterId(3)));
}

#[test]
fn an_empty_last_live_range_stays_on_record() {
    let mut allocator = RegisterAllocator::new(2);
    let ended = allocator.request(LiveRange::new(0, 5), 20, false);
    let last = allocator.request(LiveRange::new(5, 5), 20, false);
    allocator.allocate_all();
    let file = allocator.register_file();
    assert!(file.get_allocation(ended).is_none());
    assert_eq!(file.get_allocation(last).unwrap().physical_regs, vec![RegisterId(0)]);
    assert_eq!(file.free_count(), 1);
}

#[test]
fn expiry_frees_all_registers_of_what_has_ended_and_no_others() {
    let mut allocator = RegisterAllocator::new(4);
    allocator.request(LiveRange::new(0, 3), 40, false);
    allocator.request(LiveRange::new(0, 4), 20, false);
    allocator.request(LiveRange::new(3, 6), 60, false);
    let result = allocator.allocate_all();
    // At point 3 both registers of the first value are free, that of the second is not.
    assert_eq!(placed(&result), vec![(0, vec![0, 1]), (1, vec![2]), (2, vec![0, 1, 3])]);
    assert_eq!(allocator.register_file().free_count(), 0);
}

#[test]
fn expiry_at_the_same_point_releases_nothing_more() {
    let mut allocator = RegisterAllocator::new(3);
    allocator.request(LiveRange::new(0, 4), 20, false);
    let first = allocator.request(LiveRange::new(4, 5), 20, false);
    let second = allocator.request(LiveRange::new(4, 6), 20, false);
    let result = allocator.allocate_all();
    assert_eq!(placed(&result), vec![(0, vec![0]), (1, vec![0]), (2, vec![1])]);
    let file = allocator.register_file();
    assert!(file.get_allocation(first).is_some());
    assert!(file.get_allocation(second).is_some());
    assert_eq!(file.free_count(), 1);
}

#[test]
fn an_empty_live_range_inside_another_gets_other_registers() {
    let mut allocator = RegisterAllocator::new(2);
    allocator.request(LiveRange::new(0, 6), 20, false);
    allocator.request(LiveRange::new(3, 3), 20, false);
    let result = allocator.allocate_all();
    assert!(result.allocations[0].live_range.overlaps(&result.allocations[1].live_range));
    assert_eq!(placed(&result), vec![(0, vec![0]), (1, vec![1])]);
}

#[test]
fn quick_start() {
    let mut allocator = RegisterAllocator::new(64);
    allocator.request(LiveRange::new(0, 20), 20, false);
    allocator.request(LiveRange::new(5, 30), 40, false);
    allocator.request(LiveRange::new(15, 25), 10, true);
    allocator.request(LiveRange::new(0, 30), 60, false);
    let result = allocator.allocate_all();
    assert_eq!(result.allocated_count(), 4);
    assert_eq!(result.spilled_count(), 0);
    assert_eq!(result.peak_utilization, 7);
}

#[test]
fn linear_scan_peak() {
    let mut allocator = RegisterAllocator::new(64);
    allocator.request(LiveRange::new(0, 10), 20, false);
    allocator.request(LiveRange::new(5, 15), 20, false);
    allocator.request(LiveRange::new(12, 20), 20, false);
    let result = allocator.allocate_all();
    assert_eq!(result.peak_utilization, 2);
}

#[test]
fn gemm_kernel() {
    let mut allocator = RegisterAllocator::new(255);
    allocator.request(LiveRange::new(0, 100), 20, false);
    allocator.request(LiveRange::new(0, 100), 64, true);
    allocator.request(LiveRange::new(0, 100), 64, true);
    allocator.request(LiveRange::new(0, 100), 20, false);
    allocator.request(LiveRange::new(10, 90), 20, false);
    let result = allocator.allocate_all();
    assert_eq!(result.allocated_count(), 5);
    assert_eq!(result.spilled_count(), 0);
    assert_eq!(result.peak_utilization, 11);
}

#[test]
fn a_run_without_requests_yields_nothing() {
    let mut allocator = RegisterAllocator::new(3);
    let result = allocator.allocate_all();
    assert_eq!(result.allocated_count(), 0);
    assert_eq!(result.spilled_count(), 0);
    assert_eq!(result.peak_utilization, 0);
    assert_eq!(result.total_register_uses(), 0);
}

#[test]
fn results_and_allocations_can_be_copied() {
    let mut allocator = RegisterAllocator::new(1);
    allocator.request(LiveRange::new(0, 4), 20, false);
    allocator.request(LiveRange::new(0, 4), 20, false);
    let result = allocator.allocate_all();
    let copy = result.clone();
    assert_eq!(placed(&copy), placed(&result));
    assert_eq!(copy.spilled[0].vreg, VirtualReg(1));
    assert_eq!(copy.peak_utilization, 1);
    let alloc = Allocation {
        vreg: VirtualReg(2),
        physical_regs: vec![RegisterId(3), RegisterId(1)],
        live_range: LiveRange::new(1, 2),
        registers_used: 2,
    };
    let twin = alloc.clone();
    assert_eq!(twin.physical_regs, vec![RegisterId(3), RegisterId(1)]);
    assert_eq!(twin.vreg, alloc.vreg);
    assert_eq!(twin.live_range, alloc.live_range);
    assert_eq!(twin.registers_used, 2);
}
