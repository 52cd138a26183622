//! Register file allocation for ternary GPU kernels.
//!
//! A CPU-side model of a register file for ternary (base-3) GPU kernels: packed trits are
//! denser than bits, so a value needs fewer registers. The crate provides linear-scan
//! allocation, live-range analysis, register-pressure estimation and spill costs. Every
//! function carries a contract over a mathematical model, and the promises that span several
//! functions are stated and proved as proof functions next to the code they are about.

#![allow(unused_imports)]

pub mod allocator;
pub mod analysis;
pub mod guarantees;
pub mod live_range;
pub mod order;
pub mod pressure;
pub mod ratio;
pub mod register_file;
pub mod request;
pub mod scan;
pub mod spill;

pub use crate::allocator::{AllocationResult, RegisterAllocator};
pub use crate::analysis::LiveRangeAnalysis;
pub use crate::live_range::LiveRange;
pub use crate::pressure::RegisterPressureEstimator;
pub use crate::ratio::Ratio;
pub use crate::register_file::RegisterFile;
pub use crate::request::{Allocation, AllocationRequest, RegisterId, VirtualReg, TRITS_PER_REGISTER};
pub use crate::spill::SpillCostCalculator;
