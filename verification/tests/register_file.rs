use ternary_register_file::{Allocation, LiveRange, RegisterFile, RegisterId, VirtualReg};

fn ids(regs: &[RegisterId]) -> Vec<u32> {
    regs.iter().map(|r| r.0).collect()
}

#[test]
fn test_register_file_allocate_and_free() {
    let mut rf = RegisterFile::new(32);
    assert_eq!(rf.free_count(), 32);

    let regs = rf.allocate(4).unwrap();
    assert_eq!(regs.len(), 4);
    assert_eq!(rf.free_count(), 28);

    rf.free(&regs);
    assert_eq!(rf.free_count(), 32);
}

#[test]
fn test_register_file_allocate_fails_when_full() {
    let mut rf = RegisterFile::new(4);
    let r1 = rf.allocate(4).unwrap();
    assert!(rf.allocate(1).is_none());
    rf.free(&r1);
    assert!(rf.allocate(1).is_some());
}

#[test]
fn test_register_file_contiguous() {
    let mut rf = RegisterFile::new(8);
    let regs = rf.allocate_contiguous(4).unwrap();
    // Should be contiguous
    for i in 0..3 {
        assert_eq!(regs[i + 1].0, regs[i].0 + 1);
    }
}

#[test]
fn test_register_file_utilization() {
    let mut rf = RegisterFile::new(8);
    let u = rf.utilization();
    assert!((u.numerator as f64 / u.denominator as f64 - 0.0).abs() < 0.001);
    rf.allocate(4).unwrap();
    let u = rf.utilization();
    assert!((u.numerator as f64 / u.denominator as f64 - 0.5).abs() < 0.001);
}

#[test]
fn test_deallocate_virtual_reg() {
    let mut rf = RegisterFile::new(16);
    let regs = rf.allocate(3).unwrap();
    let alloc = Allocation {
        vreg: VirtualReg(42),
        physical_regs: regs,
        live_range: LiveRange::new(0, 10),
        registers_used: 3,
    };
    rf.assign(alloc);
    assert_eq!(rf.free_count(), 13);
    rf.deallocate(VirtualReg(42));
    assert_eq!(rf.free_count(), 16);
}

#[test]
fn new_file_is_all_free() {
    let rf = RegisterFile::new(5);
    assert_eq!(rf.total_registers(), 5);
    assert_eq!(rf.used_count(), 0);
    assert!(rf.is_free(RegisterId(0)));
    assert!(rf.is_free(RegisterId(4)));
    assert!(!rf.is_free(RegisterId(5)));
}

#[test]
fn allocate_takes_the_lowest_free_registers() {
    let mut rf = RegisterFile::new(6);
    assert_eq!(ids(&rf.allocate(4).unwrap()), vec![0, 1, 2, 3]);
    assert_eq!(rf.used_count(), 4);
    rf.free(&[RegisterId(2), RegisterId(0)]);
    assert_eq!(ids(&rf.allocate(3).unwrap()), vec![0, 2, 4]);
    assert_eq!(rf.free_count(), 1);
    assert!(rf.is_free(RegisterId(5)));
    assert!(rf.allocate(2).is_none());
    assert_eq!(rf.free_count(), 1);
}

#[test]
fn allocate_nothing_succeeds() {
    let mut rf = RegisterFile::new(0);
    assert_eq!(rf.allocate(0).unwrap().len(), 0);
    assert_eq!(rf.allocate_contiguous(0).unwrap().len(), 0);
    assert!(rf.allocate(1).is_none());
    assert!(rf.allocate_contiguous(1).is_none());
}

#[test]
fn contiguous_takes_the_lowest_run_that_is_long_enough() {
    let mut rf = RegisterFile::new(10);
    rf.allocate(10).unwrap();
    rf.free(&[1, 2, 4, 5, 6, 8, 9].map(RegisterId));
    assert_eq!(ids(&rf.allocate_contiguous(3).unwrap()), vec![4, 5, 6]);
    assert_eq!(ids(&rf.allocate_contiguous(2).unwrap()), vec![1, 2]);
    assert_eq!(rf.free_count(), 2);
}

#[test]
fn contiguous_fails_on_a_fragmented_file() {
    let mut rf = RegisterFile::new(8);
    rf.allocate(8).unwrap();
    rf.free(&[0, 2, 4, 6].map(RegisterId));
    assert!(rf.allocate_contiguous(2).is_none());
    assert_eq!(rf.free_count(), 4);
    assert_eq!(ids(&rf.allocate_contiguous(1).unwrap()), vec![0]);
    assert!(rf.allocate_contiguous(5).is_none());
}

#[test]
fn contiguous_follows_what_is_taken() {
    let mut rf = RegisterFile::new(32);
    let regs = rf.allocate(4).unwrap();
    let contig = rf.allocate_contiguous(4).unwrap();
    assert_eq!(ids(&contig), vec![4, 5, 6, 7]);
    rf.free(&regs);
    assert_eq!(rf.free_count(), 28);
    rf.free(&contig);
    assert_eq!(rf.free_count(), 32);
}

#[test]
fn freeing_twice_counts_once() {
    let mut rf = RegisterFile::new(4);
    let regs = rf.allocate(2).unwrap();
    rf.free(&regs);
    rf.free(&regs);
    assert_eq!(rf.free_count(), 4);
}

#[test]
fn freed_registers_need_not_be_of_the_file() {
    let mut rf = RegisterFile::new(2);
    rf.free(&[RegisterId(7)]);
    assert_eq!(rf.free_count(), 3);
    assert_eq!(ids(&rf.allocate(3).unwrap()), vec![0, 1, 7]);
}

#[test]
fn assigned_allocation_is_on_record_until_deallocated() {
    let mut rf = RegisterFile::new(4);
    assert!(rf.get_allocation(VirtualReg(3)).is_none());
    assert!(rf.deallocate(VirtualReg(3)).is_none());
    let regs = rf.allocate(2).unwrap();
    rf.assign(Allocation {
        vreg: VirtualReg(3),
        physical_regs: regs,
        live_range: LiveRange::new(1, 9),
        registers_used: 2,
    });
    let on_record = rf.get_allocation(VirtualReg(3)).unwrap();
    assert_eq!(ids(&on_record.physical_regs), vec![0, 1]);
    assert_eq!(on_record.live_range, LiveRange::new(1, 9));
    let dropped = rf.deallocate(VirtualReg(3)).unwrap();
    assert_eq!(dropped.vreg, VirtualReg(3));
    assert_eq!(ids(&dropped.physical_regs), vec![0, 1]);
    assert_eq!(dropped.registers_used, 2);
    assert!(rf.get_allocation(VirtualReg(3)).is_none());
    assert_eq!(rf.free_count(), 4);
}

#[test]
fn reassigning_a_virtual_register_replaces_its_allocation() {
    let mut rf = RegisterFile::new(4);
    for _ in 0..2 {
        let regs = rf.allocate(1).unwrap();
        rf.assign(Allocation {
            vreg: VirtualReg(0),
            physical_regs: regs,
            live_range: LiveRange::new(0, 1),
            registers_used: 1,
        });
    }
    assert_eq!(ids(&rf.get_allocation(VirtualReg(0)).unwrap().physical_regs), vec![1]);
    rf.deallocate(VirtualReg(0));
    // The register of the replaced allocation stays in use.
    assert_eq!(rf.free_count(), 3);
    assert!(!rf.is_free(RegisterId(0)));
}

#[test]
fn a_copy_of_the_file_goes_its_own_way() {
    let mut rf = RegisterFile::new(4);
    rf.allocate(1).unwrap();
    let mut copy = rf.clone();
    assert_eq!(ids(&copy.allocate(2).unwrap()), vec![1, 2]);
    assert_eq!(copy.free_count(), 1);
    assert_eq!(rf.free_count(), 3);
}

#[test]
fn utilization_is_an_exact_fraction() {
    let mut rf = RegisterFile::new(7);
    rf.allocate(3).unwrap();
    let u = rf.utilization();
    assert_eq!((u.numerator, u.denominator), (3, 7));
    let none = RegisterFile::new(0).utilization();
    assert_eq!((none.numerator, none.denominator), (0, 1));
}
