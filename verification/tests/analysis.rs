use ternary_register_file::{
    AllocationRequest, LiveRange, LiveRangeAnalysis, Ratio, RegisterPressureEstimator,
    SpillCostCalculator, VirtualReg,
};

fn as_f64(ratio: Ratio) -> f64 {
    ratio.numerator as f64 / ratio.denominator as f64
}

#[test]
fn test_live_range_overlap() {
    let a = LiveRange::new(0, 5);
    let b = LiveRange::new(3, 8);
    let c = LiveRange::new(5, 10);
    assert!(a.overlaps(&b));
    assert!(!a.overlaps(&c));
    assert!(b.overlaps(&c));
}

#[test]
fn test_pressure_estimation() {
    let ranges = vec![
        (LiveRange::new(0, 10), 2u32),
        (LiveRange::new(5, 15), 3u32),
        (LiveRange::new(0, 5), 1u32),
    ];
    assert_eq!(RegisterPressureEstimator::max_pressure(&ranges), 5); // At point 5-9: 2+3=5
    assert!(as_f64(RegisterPressureEstimator::avg_pressure(&ranges)) > 0.0);
}

#[test]
fn test_pressure_hotspots() {
    let ranges = vec![
        (LiveRange::new(0, 10), 5u32),
        (LiveRange::new(5, 15), 5u32),
    ];
    let hotspots = RegisterPressureEstimator::pressure_hotspots(&ranges, 8);
    // Pressure at 5-9 is 10, which exceeds 8
    assert!(!hotspots.is_empty());
    assert_eq!(hotspots[0].1, 10);
}

#[test]
fn test_spill_cost_high_pressure() {
    let long_range = LiveRange::new(0, 100);
    let short_range = LiveRange::new(0, 5);
    let cost_long = SpillCostCalculator::spill_cost(&long_range, 4);
    let cost_short = SpillCostCalculator::spill_cost(&short_range, 4);
    assert!(cost_long > cost_short);
}

#[test]
fn test_weighted_spill_cost_with_loop_depth() {
    let lr = LiveRange::new(0, 10);
    let shallow = SpillCostCalculator::weighted_spill_cost(&lr, 2, 1, 0);
    let deep = SpillCostCalculator::weighted_spill_cost(&lr, 2, 1, 2);
    assert!(deep > shallow);
}

#[test]
fn test_select_spill_candidate() {
    let candidates = vec![
        (VirtualReg(0), LiveRange::new(0, 2), 1, 10),
        (VirtualReg(1), LiveRange::new(0, 100), 4, 400),
        (VirtualReg(2), LiveRange::new(0, 5), 2, 5),
    ];
    let best = SpillCostCalculator::select_spill_candidate(&candidates);
    assert_eq!(best, Some(VirtualReg(2))); // lowest cost
}

#[test]
fn test_interference_graph() {
    let ranges = vec![
        (VirtualReg(0), LiveRange::new(0, 5)),
        (VirtualReg(1), LiveRange::new(3, 8)),
        (VirtualReg(2), LiveRange::new(10, 15)),
    ];
    let graph = LiveRangeAnalysis::build_interference_graph(&ranges);
    assert!(graph[&VirtualReg(0).0].contains(&VirtualReg(1).0));
    assert!(graph[&VirtualReg(1).0].contains(&VirtualReg(0).0));
    assert!(!graph[&VirtualReg(0).0].contains(&VirtualReg(2).0));
}

#[test]
fn test_compute_from_def_use() {
    let lr = LiveRangeAnalysis::compute_from_def_use(2, &[5, 8, 3]);
    assert_eq!(lr.start, 2);
    assert_eq!(lr.end, 9);
}

#[test]
fn test_total_spill_cost() {
    let spilled = vec![
        AllocationRequest {
            vreg: VirtualReg(0),
            live_range: LiveRange::new(0, 10),
            trit_count: 20,
            packed: false,
        },
        AllocationRequest {
            vreg: VirtualReg(1),
            live_range: LiveRange::new(0, 5),
            trit_count: 40,
            packed: false,
        },
    ];
    let cost = SpillCostCalculator::total_spill_cost(&spilled);
    // vreg 0: 10 * 1 = 10, vreg 1: 5 * 2 = 10, total = 20
    assert!((cost as f64 - 20.0).abs() < 0.001);
}

#[test]
fn live_range_length_and_emptiness() {
    assert_eq!(LiveRange::new(3, 10).len(), 7);
    assert!(!LiveRange::new(3, 10).is_empty());
    assert_eq!(LiveRange::new(3, 3).len(), 0);
    assert!(LiveRange::new(3, 3).is_empty());
}

#[test]
fn an_empty_range_overlaps_what_surrounds_it() {
    let empty = LiveRange::new(3, 3);
    assert!(empty.overlaps(&LiveRange::new(0, 5)));
    assert!(LiveRange::new(0, 5).overlaps(&empty));
    assert!(!empty.overlaps(&LiveRange::new(3, 5)));
    assert!(!empty.overlaps(&empty));
}

#[test]
fn interference_is_overlap() {
    let a = LiveRange::new(0, 5);
    let b = LiveRange::new(4, 6);
    let c = LiveRange::new(5, 6);
    assert!(LiveRangeAnalysis::interferes(&a, &b));
    assert!(LiveRangeAnalysis::interferes(&b, &a));
    assert!(!LiveRangeAnalysis::interferes(&a, &c));
}

#[test]
fn live_range_without_uses_is_the_definition() {
    let lr = LiveRangeAnalysis::compute_from_def_use(7, &[]);
    assert_eq!((lr.start, lr.end), (7, 8));
}

#[test]
fn live_range_starts_at_the_first_point() {
    let lr = LiveRangeAnalysis::compute_from_def_use(6, &[4, 9, 5]);
    assert_eq!((lr.start, lr.end), (4, 10));
    let lr = LiveRangeAnalysis::compute_from_def_use(10, &[3]);
    assert_eq!((lr.start, lr.end), (3, 4));
}

#[test]
fn interference_graph_nodes_and_repeated_entries() {
    let graph = LiveRangeAnalysis::build_interference_graph(&[]);
    assert!(graph.is_empty());
    let ranges = vec![
        (VirtualReg(4), LiveRange::new(0, 3)),
        (VirtualReg(4), LiveRange::new(2, 6)),
        (VirtualReg(9), LiveRange::new(5, 7)),
        (VirtualReg(1), LiveRange::new(8, 9)),
    ];
    let graph = LiveRangeAnalysis::build_interference_graph(&ranges);
    assert_eq!(graph.len(), 3);
    assert!(graph[&4].contains(&4));
    assert!(graph[&4].contains(&9));
    assert_eq!(graph[&4].len(), 2);
    assert_eq!(graph[&9].len(), 1);
    assert!(graph[&9].contains(&4));
    assert!(graph[&1].is_empty());
}

#[test]
fn pressure_at_each_point() {
    let ranges = vec![
        (VirtualReg(0), LiveRange::new(0, 10), 2u32),
        (VirtualReg(1), LiveRange::new(5, 15), 3u32),
        (VirtualReg(2), LiveRange::new(0, 5), 1u32),
    ];
    let at = |point| LiveRangeAnalysis::pressure_at_point(&ranges, point);
    assert_eq!((at(0), at(4), at(5), at(9), at(10), at(14), at(15)), (3, 3, 5, 5, 3, 3, 0));
}

#[test]
fn hotspots_are_the_points_over_the_threshold() {
    let ranges = vec![
        (LiveRange::new(0, 10), 2u32),
        (LiveRange::new(5, 15), 3u32),
        (LiveRange::new(0, 5), 1u32),
    ];
    assert_eq!(
        RegisterPressureEstimator::pressure_hotspots(&ranges, 4),
        vec![(5, 5), (6, 5), (7, 5), (8, 5), (9, 5)]
    );
    assert!(RegisterPressureEstimator::pressure_hotspots(&ranges, 5).is_empty());
    assert_eq!(RegisterPressureEstimator::pressure_hotspots(&ranges, 2).len(), 15);
    assert!(RegisterPressureEstimator::pressure_hotspots(&[], 0).is_empty());
}

#[test]
fn average_is_an_exact_fraction() {
    let ranges = vec![
        (LiveRange::new(0, 10), 2u32),
        (LiveRange::new(5, 15), 3u32),
        (LiveRange::new(0, 5), 1u32),
    ];
    // 10*2 + 10*3 + 5*1 over 15 points.
    let average = RegisterPressureEstimator::avg_pressure(&ranges);
    assert_eq!((average.numerator, average.denominator), (55, 15));
    let none = RegisterPressureEstimator::avg_pressure(&[]);
    assert_eq!((none.numerator, none.denominator), (0, 1));
    let empty = RegisterPressureEstimator::avg_pressure(&[(LiveRange::new(0, 0), 9)]);
    assert_eq!((empty.numerator, empty.denominator), (0, 1));
}

#[test]
fn pressure_of_nothing_is_nothing() {
    assert_eq!(RegisterPressureEstimator::max_pressure(&[]), 0);
    assert_eq!(RegisterPressureEstimator::max_pressure(&[(LiveRange::new(4, 4), 9)]), 0);
}

#[test]
fn spill_costs() {
    assert_eq!(SpillCostCalculator::spill_cost(&LiveRange::new(0, 100), 4), 400);
    assert_eq!(
        SpillCostCalculator::spill_cost(&LiveRange::new(0, u32::MAX), u32::MAX),
        (u32::MAX as u64) * (u32::MAX as u64)
    );
    let range = LiveRange::new(0, 10);
    assert_eq!(SpillCostCalculator::weighted_spill_cost(&range, 2, 5, 2), 12_000);
    assert_eq!(SpillCostCalculator::weighted_spill_cost(&range, 2, 5, 3), 120_000);
    assert_eq!(SpillCostCalculator::weighted_spill_cost(&range, 2, 0, 0), 20);
    assert_eq!(SpillCostCalculator::weighted_spill_cost(&range, 1, 0, 9), 10_000_000_000);
    assert_eq!(SpillCostCalculator::total_spill_cost(&[]), 0);
}

#[test]
fn cheapest_candidate_is_the_first_among_equals() {
    assert_eq!(SpillCostCalculator::select_spill_candidate(&[]), None);
    let range = LiveRange::new(0, 1);
    let candidates = vec![
        (VirtualReg(8), range, 1, 7),
        (VirtualReg(3), range, 1, 2),
        (VirtualReg(5), range, 1, 2),
    ];
    assert_eq!(
        SpillCostCalculator::select_spill_candidate(&candidates),
        Some(VirtualReg(3))
    );
}
