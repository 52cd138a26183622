# ternary-register-file

Register file allocation for ternary GPU kernels, verified with Verus.

A 32-bit register holds 20 trits. The library models a register file, allocates registers to
virtual registers by linear scan, analyses live ranges, estimates register pressure and computes
spill costs. Every function has a contract over a mathematical model of its data.

| Module | Contents |
|--------|----------|
| `live_range` | live ranges `[start, end)` and their overlap |
| `request` | identifiers, allocation requests, allocations |
| `register_file` | the pool of physical registers |
| `order` | stable sorting by key; sets of numbers in ascending order |
| `scan` | the linear scan as a mathematical function |
| `allocator` | the linear-scan allocator |
| `guarantees` | what a scan guarantees: no conflicts, when spilling happens, nothing lost, what stays on record and what expires |
| `pressure` | register pressure, its peak, its average, its hotspots |
| `analysis` | live ranges from definitions and uses, interference graphs |
| `spill` | spill costs as exact integers |
| `ratio` | exact fractions |

Costs and averages are exact integers and fractions. `app/` offers them as floating-point numbers:
the simple spill cost, the average pressure and the utilization are the exact figures, converted.
Its `weighted_spill_cost`, `select_spill_candidate` and `total_spill_cost` compute in floating point
themselves, because their results depend on how each intermediate step is rounded, or on how costs
that are not numbers compare.
