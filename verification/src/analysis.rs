//! Live range analysis: ranges from definitions and uses, interference, pressure at a point.

use crate::live_range::LiveRange;
use crate::pressure;
use crate::request::VirtualReg;
use std::collections::{HashMap, HashSet};
use vstd::prelude::*;

verus! {

/// The live range and the register count of each value.
pub open spec fn loads(ranges: Seq<(VirtualReg, LiveRange, u32)>) -> Seq<(LiveRange, u32)> {
    Seq::new(ranges.len(), |i: int| (ranges[i].1, ranges[i].2))
}

/// Two different entries, for virtual registers `a` and `b`, have overlapping live ranges.
pub open spec fn interfere(ranges: Seq<(VirtualReg, LiveRange)>, a: u32, b: u32) -> bool {
    exists|i: int, j: int|
        0 <= i < ranges.len() && 0 <= j < ranges.len() && i != j && ranges[i].0.0 == a
            && ranges[j].0.0 == b && (#[trigger] ranges[i]).1.meets((#[trigger] ranges[j]).1)
}

/// The graph has an edge from `a` to `b`.
pub open spec fn has_edge(graph: Map<u32, HashSet<u32>>, a: u32, b: u32) -> bool {
    graph.contains_key(a) && graph[a]@.contains(b)
}

/// Entries `p < q` interfere for `a` and `b`, in this or the other order.
spec fn pair_interferes(
    ranges: Seq<(VirtualReg, LiveRange)>,
    p: int,
    q: int,
    a: u32,
    b: u32,
) -> bool {
    &&& ranges[p].1.meets(ranges[q].1)
    &&& (ranges[p].0.0 == a && ranges[q].0.0 == b) || (ranges[q].0.0 == a && ranges[p].0.0 == b)
}

/// Some pair of entries before `(i, j)`, in lexicographic order, interferes for `a` and `b`.
spec fn interfere_before(
    ranges: Seq<(VirtualReg, LiveRange)>,
    i: int,
    j: int,
    a: u32,
    b: u32,
) -> bool {
    exists|p: int, q: int|
        0 <= p < q < ranges.len() && (p < i || p == i && q < j) && #[trigger] pair_interferes(
            ranges,
            p,
            q,
            a,
            b,
        )
}

/// Live range analysis utilities.
pub struct LiveRangeAnalysis;

impl LiveRangeAnalysis {
    /// Compute the live range for a variable given its definition and use points: from the first
    /// of these points to just after the last use, or just the definition if there is no use.
    pub fn compute_from_def_use(def: u32, uses: &[u32]) -> (range: LiveRange)
        requires
            uses.len() == 0 ==> def < u32::MAX,
            forall|i: int| 0 <= i < uses.len() ==> #[trigger] uses@[i] < u32::MAX,
        ensures
            range.valid(),
            uses.len() == 0 ==> range.start == def && range.end == def + 1,
            uses.len() > 0 ==> {
                &&& range.start <= def
                &&& range.start == def || uses@.contains(range.start)
                &&& uses@.contains((range.end - 1) as u32)
            },
            forall|i: int|
                0 <= i < uses.len() ==> range.start <= #[trigger] uses@[i] && uses@[i] < range.end,
            forall|i: int| 0 <= i < uses.len() ==> range.covers(#[trigger] uses@[i]),
    {
        if uses.len() == 0 {
            LiveRange::new(def, def + 1)
        } else {
            let mut start: u32 = if uses[0] < def {
                uses[0]
            } else {
                def
            };
            let mut max_use: u32 = uses[0];
            let mut k: usize = 1;
            assert(uses@.contains(uses@[0]));
            while k < uses.len()
                invariant
                    1 <= k <= uses.len(),
                    start <= def,
                    start == def || uses@.contains(start),
                    uses@.contains(max_use),
                    forall|i: int|
                        0 <= i < k ==> start <= #[trigger] uses@[i] && uses@[i] <= max_use,
                decreases uses.len() - k,
            {
                let point: u32 = uses[k];
                assert(uses@.contains(uses@[k as int]));
                if point < start {
                    start = point;
                }
                if max_use < point {
                    max_use = point;
                }
                k = k + 1;
            }
            proof {
                let i = choose|i: int| 0 <= i < uses.len() && uses@[i] == max_use;
                assert(uses@[i] < u32::MAX);
                assert(start <= uses@[i]);
            }
            LiveRange::new(start, max_use + 1)
        }
    }

    /// Compute interference between two live ranges.
    pub fn interferes(a: &LiveRange, b: &LiveRange) -> (result: bool)
        ensures
            result == a.meets(*b),
            result <==> a.start < b.end && b.start < a.end,
    {
        a.overlaps(b)
    }

    /// Build an interference graph (adjacency list) from a set of live ranges. Virtual registers
    /// stand in it by their numbers.
    pub fn build_interference_graph(ranges: &[(VirtualReg, LiveRange)]) -> (graph: HashMap<
        u32,
        HashSet<u32>,
    >)
        ensures
            forall|v: u32| #[trigger]
                graph@.contains_key(v) <==> exists|i: int|
                    0 <= i < ranges.len() && (#[trigger] ranges@[i]).0.0 == v,
            forall|a: u32, b: u32| #[trigger] has_edge(graph@, a, b) <==> interfere(ranges@, a, b),
            forall|i: int, j: int|
                #![trigger ranges@[i], ranges@[j]]
                0 <= i < ranges.len() && 0 <= j < ranges.len() && i != j && ranges@[i].1.start
                    < ranges@[j].1.end && ranges@[j].1.start < ranges@[i].1.end
                    ==> graph@[ranges@[i].0.0]@.contains(ranges@[j].0.0),
            forall|a: u32, b: u32|
                graph@.contains_key(a) && #[trigger] graph@[a]@.contains(b) ==> exists|i: int, j: int|
                    #![trigger ranges@[i], ranges@[j]]
                    0 <= i < ranges.len() && 0 <= j < ranges.len() && i != j && ranges@[i].0.0 == a
                        && ranges@[j].0.0 == b && ranges@[i].1.start < ranges@[j].1.end
                        && ranges@[j].1.start < ranges@[i].1.end,
    {
        let mut graph: HashMap<u32, HashSet<u32>> = HashMap::new();
        let mut k: usize = 0;
        while k < ranges.len()
            invariant
                k <= ranges.len(),
                forall|v: u32| #[trigger]
                    graph@.contains_key(v) <==> exists|i: int|
                        0 <= i < k && (#[trigger] ranges@[i]).0.0 == v,
                forall|a: u32, b: u32| !#[trigger] has_edge(graph@, a, b),
            decreases ranges.len() - k,
        {
            let ghost earlier = graph@;
            let vreg: u32 = ranges[k].0.0;
            graph.insert(vreg, HashSet::new());
            proof {
                assert forall|v: u32| #[trigger]
                    graph@.contains_key(v) <==> exists|i: int|
                        0 <= i < k + 1 && (#[trigger] ranges@[i]).0.0 == v by {
                    if v == vreg {
                        assert(ranges@[k as int].0.0 == v);
                    } else {
                        assert(graph@.contains_key(v) <==> earlier.contains_key(v));
                    }
                }
                assert forall|a: u32, b: u32| !#[trigger] has_edge(graph@, a, b) by {
                    assert(!has_edge(earlier, a, b));
                }
            }
            k = k + 1;
        }
        let ghost nodes = graph@.dom();
        let mut i: usize = 0;
        while i < ranges.len()
            invariant
                i <= ranges.len(),
                graph@.dom() == nodes,
                forall|v: u32| #[trigger]
                    nodes.contains(v) <==> exists|i: int|
                        0 <= i < ranges.len() && (#[trigger] ranges@[i]).0.0 == v,
                forall|a: u32, b: u32| #[trigger]
                    has_edge(graph@, a, b) <==> interfere_before(ranges@, i as int, 0, a, b),
            decreases ranges.len() - i,
        {
            let mut j: usize = i + 1;
            proof {
                assert forall|a: u32, b: u32| #[trigger]
                    has_edge(graph@, a, b) <==> interfere_before(
                        ranges@,
                        i as int,
                        j as int,
                        a,
                        b,
                    ) by {
                    lemma_skip_pairs(ranges@, i as int, 0, j as int, a, b);
                }
            }
            while j < ranges.len()
                invariant
                    i < j <= ranges.len(),
                    graph@.dom() == nodes,
                    forall|v: u32| #[trigger]
                        nodes.contains(v) <==> exists|i: int|
                            0 <= i < ranges.len() && (#[trigger] ranges@[i]).0.0 == v,
                    forall|a: u32, b: u32| #[trigger]
                        has_edge(graph@, a, b) <==> interfere_before(
                            ranges@,
                            i as int,
                            j as int,
                            a,
                            b,
                        ),
                decreases ranges.len() - j,
            {
                let (va, ra) = ranges[i];
                let (vb, rb) = ranges[j];
                let ghost earlier = graph@;
                proof {
                    assert(ranges@[i as int].0.0 == va.0);
                    assert(nodes.contains(va.0));
                    assert(ranges@[j as int].0.0 == vb.0);
                    assert(nodes.contains(vb.0));
                }
                if ra.overlaps(&rb) {
                    Self::add_edge(&mut graph, va.0, vb.0);
                    Self::add_edge(&mut graph, vb.0, va.0);
                }
                proof {
                    assert forall|a: u32, b: u32| #[trigger]
                        has_edge(graph@, a, b) <==> interfere_before(
                            ranges@,
                            i as int,
                            j + 1,
                            a,
                            b,
                        ) by {
                        assert(has_edge(earlier, a, b) <==> interfere_before(
                            ranges@,
                            i as int,
                            j as int,
                            a,
                            b,
                        ));
                        lemma_next_pair(ranges@, i as int, j as int, a, b);
                    }
                }
                j = j + 1;
            }
            proof {
                assert forall|a: u32, b: u32| #[trigger]
                    has_edge(graph@, a, b) <==> interfere_before(ranges@, i + 1, 0, a, b) by {
                    lemma_next_row(ranges@, i as int, a, b);
                }
            }
            i = i + 1;
        }
        proof {
            assert forall|a: u32, b: u32| #[trigger]
                has_edge(graph@, a, b) <==> interfere(ranges@, a, b) by {
                lemma_all_pairs(ranges@, a, b);
            }
            assert forall|v: u32| #[trigger]
                graph@.contains_key(v) <==> exists|i: int|
                    0 <= i < ranges.len() && (#[trigger] ranges@[i]).0.0 == v by {
                assert(nodes.contains(v) <==> graph@.contains_key(v));
            }
            assert forall|i: int, j: int|
                #![trigger ranges@[i], ranges@[j]]
                0 <= i < ranges.len() && 0 <= j < ranges.len() && i != j && ranges@[i].1.start
                    < ranges@[j].1.end && ranges@[j].1.start
                    < ranges@[i].1.end implies graph@[ranges@[i].0.0]@.contains(ranges@[j].0.0) by {
                lemma_overlapping_entries_interfere(ranges@, i, j);
                assert(has_edge(graph@, ranges@[i].0.0, ranges@[j].0.0));
            }
            assert forall|a: u32, b: u32|
                graph@.contains_key(a) && #[trigger] graph@[a]@.contains(b) implies exists|
                i: int,
                j: int,
            |
                #![trigger ranges@[i], ranges@[j]]
                0 <= i < ranges.len() && 0 <= j < ranges.len() && i != j && ranges@[i].0.0 == a
                    && ranges@[j].0.0 == b && ranges@[i].1.start < ranges@[j].1.end
                    && ranges@[j].1.start < ranges@[i].1.end by {
                assert(has_edge(graph@, a, b));
                let (i, j) = lemma_interference_needs_two_entries(ranges@, a, b);
                assert(ranges@[i].0.0 == a && ranges@[j].0.0 == b);
            }
        }
        graph
    }

    /// Add the edge from `a` to `b`.
    fn add_edge(graph: &mut HashMap<u32, HashSet<u32>>, a: u32, b: u32)
        requires
            old(graph)@.contains_key(a),
        ensures
            final(graph)@.dom() == old(graph)@.dom(),
            forall|x: u32, y: u32| #[trigger]
                has_edge(final(graph)@, x, y) <==> has_edge(old(graph)@, x, y) || (x == a && y
                    == b),
    {
        let ghost before = graph@;
        if let Some(mut neighbors) = graph.remove(&a) {
            neighbors.insert(b);
            graph.insert(a, neighbors);
        }
        proof {
            assert(graph@.dom() =~= before.dom());
            assert forall|x: u32, y: u32| #[trigger]
                has_edge(graph@, x, y) <==> has_edge(before, x, y) || (x == a && y == b) by {
            }
        }
    }

    /// Register pressure at a given program point.
    pub fn pressure_at_point(ranges: &[(VirtualReg, LiveRange, u32)], point: u32) -> (total: u32)
        requires
            pressure::pressure(loads(ranges@), point) <= u32::MAX,
        ensures
            total == pressure::pressure(loads(ranges@), point),
    {
        let mut total: u32 = 0;
        let mut k: usize = 0;
        while k < ranges.len()
            invariant
                k <= ranges.len(),
                pressure::pressure(loads(ranges@), point) <= u32::MAX,
                total == pressure::pressure(loads(ranges@).take(k as int), point),
            decreases ranges.len() - k,
        {
            let (_, range, count) = ranges[k];
            proof {
                pressure::lemma_pressure_of_prefix(loads(ranges@), k + 1, point);
                assert(loads(ranges@).take(k + 1).drop_last() =~= loads(ranges@).take(k as int));
            }
            if range.start <= point && point < range.end {
                total = total + count;
            }
            k = k + 1;
        }
        assert(loads(ranges@).take(k as int) =~= loads(ranges@));
        total
    }
}

proof fn lemma_skip_pairs(
    ranges: Seq<(VirtualReg, LiveRange)>,
    i: int,
    from: int,
    to: int,
    a: u32,
    b: u32,
)
    requires
        from <= to <= i + 1,
    ensures
        interfere_before(ranges, i, from, a, b) == interfere_before(ranges, i, to, a, b),
{
}

proof fn lemma_next_pair(ranges: Seq<(VirtualReg, LiveRange)>, i: int, j: int, a: u32, b: u32)
    requires
        0 <= i < j < ranges.len(),
    ensures
        interfere_before(ranges, i, j + 1, a, b) <==> interfere_before(ranges, i, j, a, b)
            || pair_interferes(ranges, i, j, a, b),
{
    if pair_interferes(ranges, i, j, a, b) {
        assert(interfere_before(ranges, i, j + 1, a, b));
    }
    if interfere_before(ranges, i, j, a, b) {
        let (p, q) = choose|p: int, q: int|
            0 <= p < q < ranges.len() && (p < i || p == i && q < j) && #[trigger] pair_interferes(
                ranges,
                p,
                q,
                a,
                b,
            );
        assert(pair_interferes(ranges, p, q, a, b));
    }
    if interfere_before(ranges, i, j + 1, a, b) {
        let (p, q) = choose|p: int, q: int|
            0 <= p < q < ranges.len() && (p < i || p == i && q < j + 1)
                && #[trigger] pair_interferes(ranges, p, q, a, b);
        if !(p == i && q == j) {
            assert(pair_interferes(ranges, p, q, a, b));
            assert(interfere_before(ranges, i, j, a, b));
        }
    }
}

proof fn lemma_next_row(ranges: Seq<(VirtualReg, LiveRange)>, i: int, a: u32, b: u32)
    ensures
        interfere_before(ranges, i, ranges.len() as int, a, b) == interfere_before(
            ranges,
            i + 1,
            0,
            a,
            b,
        ),
{
}

proof fn lemma_all_pairs(ranges: Seq<(VirtualReg, LiveRange)>, a: u32, b: u32)
    ensures
        interfere_before(ranges, ranges.len() as int, 0, a, b) == interfere(ranges, a, b),
{
    if interfere_before(ranges, ranges.len() as int, 0, a, b) {
        let (p, q) = choose|p: int, q: int|
            0 <= p < q < ranges.len() && (p < ranges.len() || p == ranges.len() && q < 0)
                && #[trigger] pair_interferes(ranges, p, q, a, b);
        if ranges[p].0.0 == a && ranges[q].0.0 == b {
            assert(ranges[p].1.meets(ranges[q].1));
        } else {
            assert(ranges[q].1.meets(ranges[p].1));
        }
    }
    if interfere(ranges, a, b) {
        let (i, j) = choose|i: int, j: int|
            0 <= i < ranges.len() && 0 <= j < ranges.len() && i != j && ranges[i].0.0 == a
                && ranges[j].0.0 == b && (#[trigger] ranges[i]).1.meets((#[trigger] ranges[j]).1);
        if i < j {
            assert(pair_interferes(ranges, i, j, a, b));
        } else {
            assert(pair_interferes(ranges, j, i, a, b));
        }
    }
}

/// Any two different entries with overlapping live ranges interfere, wherever they stand.
pub proof fn lemma_overlapping_entries_interfere(
    ranges: Seq<(VirtualReg, LiveRange)>,
    i: int,
    j: int,
)
    requires
        0 <= i < ranges.len(),
        0 <= j < ranges.len(),
        i != j,
        ranges[i].1.start < ranges[j].1.end,
        ranges[j].1.start < ranges[i].1.end,
    ensures
        interfere(ranges, ranges[i].0.0, ranges[j].0.0),
        interfere(ranges, ranges[j].0.0, ranges[i].0.0),
{
    assert(ranges[i].1.meets(ranges[j].1));
    assert(ranges[j].1.meets(ranges[i].1));
}

/// Virtual registers interfere only if two different entries for them have overlapping live
/// ranges: the positions of these.
pub proof fn lemma_interference_needs_two_entries(
    ranges: Seq<(VirtualReg, LiveRange)>,
    a: u32,
    b: u32,
) -> (pair: (int, int))
    requires
        interfere(ranges, a, b),
    ensures
        0 <= pair.0 < ranges.len(),
        0 <= pair.1 < ranges.len(),
        pair.0 != pair.1,
        ranges[pair.0].0.0 == a,
        ranges[pair.1].0.0 == b,
        ranges[pair.0].1.start < ranges[pair.1].1.end,
        ranges[pair.1].1.start < ranges[pair.0].1.end,
{
    choose|i: int, j: int|
        0 <= i < ranges.len() && 0 <= j < ranges.len() && i != j && ranges[i].0.0 == a
            && ranges[j].0.0 == b && (#[trigger] ranges[i]).1.meets((#[trigger] ranges[j]).1)
}

/// Interference does not depend on the order of the entries: `order` says where each entry of
/// `moved` stands in `ranges`.
pub proof fn lemma_interference_ignores_order(
    ranges: Seq<(VirtualReg, LiveRange)>,
    moved: Seq<(VirtualReg, LiveRange)>,
    order: Seq<int>,
    a: u32,
    b: u32,
)
    requires
        moved.len() == ranges.len(),
        order.len() == ranges.len(),
        order.no_duplicates(),
        forall|k: int|
            0 <= k < order.len() ==> 0 <= #[trigger] order[k] < ranges.len() && moved[k]
                == ranges[order[k]],
        forall|i: int| 0 <= i < ranges.len() ==> #[trigger] order.contains(i),
    ensures
        interfere(moved, a, b) == interfere(ranges, a, b),
{
    if interfere(moved, a, b) {
        let (i, j) = lemma_interference_needs_two_entries(moved, a, b);
        assert(order[i] != order[j]);
        assert(moved[i] == ranges[order[i]] && moved[j] == ranges[order[j]]);
        lemma_overlapping_entries_interfere(ranges, order[i], order[j]);
    }
    if interfere(ranges, a, b) {
        let (i, j) = lemma_interference_needs_two_entries(ranges, a, b);
        assert(order.contains(i) && order.contains(j));
        let k = choose|k: int| 0 <= k < order.len() && order[k] == i;
        let m = choose|m: int| 0 <= m < order.len() && order[m] == j;
        assert(moved[k] == ranges[order[k]] && moved[m] == ranges[order[m]]);
        lemma_overlapping_entries_interfere(moved, k, m);
    }
}

/// A graph has an edge exactly where its adjacency list shows one.
pub proof fn lemma_edge_is_in_the_list(graph: Map<u32, HashSet<u32>>, a: u32, b: u32)
    ensures
        has_edge(graph, a, b) ==> graph.contains_key(a),
        graph.contains_key(a) ==> (has_edge(graph, a, b) <==> graph[a]@.contains(b)),
{
}

/// The values keep their order, their live ranges and their register counts, whatever their
/// virtual registers.
pub proof fn lemma_loads_of_ranges(ranges: Seq<(VirtualReg, LiveRange, u32)>, i: int)
    requires
        0 <= i < ranges.len(),
    ensures
        loads(ranges).len() == ranges.len(),
        loads(ranges)[i].0 == ranges[i].1,
        loads(ranges)[i].1 == ranges[i].2,
{
}

/// Interference is mutual.
pub proof fn lemma_interference_symmetric(ranges: Seq<(VirtualReg, LiveRange)>, a: u32, b: u32)
    ensures
        interfere(ranges, a, b) == interfere(ranges, b, a),
{
    if interfere(ranges, a, b) {
        let (i, j) = choose|i: int, j: int|
            0 <= i < ranges.len() && 0 <= j < ranges.len() && i != j && ranges[i].0.0 == a
                && ranges[j].0.0 == b && (#[trigger] ranges[i]).1.meets((#[trigger] ranges[j]).1);
        assert(ranges[j].1.meets(ranges[i].1));
    }
    if interfere(ranges, b, a) {
        let (i, j) = choose|i: int, j: int|
            0 <= i < ranges.len() && 0 <= j < ranges.len() && i != j && ranges[i].0.0 == b
                && ranges[j].0.0 == a && (#[trigger] ranges[i]).1.meets((#[trigger] ranges[j]).1);
        assert(ranges[j].1.meets(ranges[i].1));
    }
}

} // verus!
