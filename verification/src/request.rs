//! Register identifiers, allocation requests and the allocations that answer them.

use crate::live_range::LiveRange;
use vstd::prelude::*;

verus! {

/// Number of trits that fit in a single 32-bit register: the largest `n` with `3^n <= 2^32`.
pub const TRITS_PER_REGISTER: u32 = 20;

/// A single register identifier.
#[derive(Debug, Clone, Copy, PartialEq, Eq, Hash, PartialOrd, Ord, Structural)]
pub struct RegisterId(pub u32);

/// A virtual register requested during compilation.
#[derive(Debug, Clone, Copy, PartialEq, Eq, Hash, PartialOrd, Ord, Structural)]
pub struct VirtualReg(pub u32);

/// Descriptor for a value that needs register allocation.
#[derive(Debug, Clone, Copy)]
pub struct AllocationRequest {
    pub vreg: VirtualReg,
    pub live_range: LiveRange,
    /// Number of trits this value occupies.
    pub trit_count: u32,
    /// Whether this value is packed (multiple logical values in one physical register).
    pub packed: bool,
}

/// The least number of registers that hold `trits` trits.
pub open spec fn registers_for(trits: nat) -> nat {
    ((trits + TRITS_PER_REGISTER - 1) / (TRITS_PER_REGISTER as int)) as nat
}

impl AllocationRequest {
    /// The trit count leaves room in 32 bits for rounding up to whole registers.
    pub open spec fn countable(self) -> bool {
        self.trit_count + TRITS_PER_REGISTER <= u32::MAX
    }

    /// Number of physical registers the request asks for.
    pub open spec fn demand(self) -> nat {
        registers_for(self.trit_count as nat)
    }

    /// Number of physical registers needed for this request.
    pub fn registers_needed(&self) -> (count: u32)
        requires
            self.countable(),
        ensures
            count == self.demand(),
            count * TRITS_PER_REGISTER >= self.trit_count,
            count == 0 || (count - 1) * TRITS_PER_REGISTER < self.trit_count,
    {
        if self.trit_count == 0 {
            return 0;
        }
        (self.trit_count + TRITS_PER_REGISTER - 1) / TRITS_PER_REGISTER
    }
}

/// Result of a register allocation.
#[derive(Debug)]
pub struct Allocation {
    pub vreg: VirtualReg,
    pub physical_regs: Vec<RegisterId>,
    pub live_range: LiveRange,
    pub registers_used: u32,
}

/// The contents of an [`Allocation`].
#[verifier::ext_equal]
pub struct AllocationModel {
    pub vreg: VirtualReg,
    pub physical_regs: Seq<RegisterId>,
    pub live_range: LiveRange,
    pub registers_used: u32,
}

impl View for Allocation {
    type V = AllocationModel;

    open spec fn view(&self) -> AllocationModel {
        AllocationModel {
            vreg: self.vreg,
            physical_regs: self.physical_regs@,
            live_range: self.live_range,
            registers_used: self.registers_used,
        }
    }
}

impl Clone for Allocation {
    fn clone(&self) -> (copy: Self)
        ensures
            copy@ == self@,
            copy.vreg == self.vreg,
            copy.physical_regs@ == self.physical_regs@,
            copy.live_range == self.live_range,
            copy.registers_used == self.registers_used,
    {
        let physical_regs = self.physical_regs.clone();
        assert(physical_regs@ =~= self.physical_regs@);
        Allocation {
            vreg: self.vreg,
            physical_regs,
            live_range: self.live_range,
            registers_used: self.registers_used,
        }
    }
}

/// The contents of an allocation are its fields.
pub proof fn lemma_contents_of_allocation(alloc: Allocation)
    ensures
        alloc@.vreg == alloc.vreg,
        alloc@.physical_regs == alloc.physical_regs@,
        alloc@.live_range == alloc.live_range,
        alloc@.registers_used == alloc.registers_used,
{
}

/// A request asks for the least number of registers that hold its trits, whatever its other
/// fields: as many as any request with the same trit count.
pub proof fn lemma_demand_is_least(req: AllocationRequest, other: AllocationRequest)
    ensures
        req.demand() * TRITS_PER_REGISTER >= req.trit_count,
        req.demand() == 0 || (req.demand() - 1) * TRITS_PER_REGISTER < req.trit_count,
        req.trit_count == other.trit_count ==> req.demand() == other.demand(),
        req.trit_count == 0 <==> req.demand() == 0,
        req.countable() <==> req.trit_count + TRITS_PER_REGISTER <= u32::MAX,
{
}

/// The registers that a request asks for hold all its trits, and one register fewer would not.
pub proof fn lemma_registers_for_is_least(trits: nat)
    ensures
        registers_for(trits) * TRITS_PER_REGISTER >= trits,
        forall|count: nat|
            #![trigger count * TRITS_PER_REGISTER]
            count * TRITS_PER_REGISTER >= trits ==> count >= registers_for(trits),
{
}

/// Packing two values together never takes more registers than keeping them apart, and fewer
/// trits never take more registers.
pub proof fn lemma_packing_saves_registers(a: nat, b: nat)
    ensures
        registers_for(a + b) <= registers_for(a) + registers_for(b),
        a <= b ==> registers_for(a) <= registers_for(b),
{
}

/// Twenty trits fit in a 32-bit register and twenty-one do not.
pub proof fn lemma_trits_per_register()
    ensures
        vstd::arithmetic::power::pow(3, TRITS_PER_REGISTER as nat) <= 0x1_0000_0000,
        vstd::arithmetic::power::pow(3, (TRITS_PER_REGISTER + 1) as nat) > 0x1_0000_0000,
{
    reveal_with_fuel(vstd::arithmetic::power::pow, 22);
}

} // verus!
