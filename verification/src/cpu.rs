//! The arithmetic around the processor's model-specific registers and flags register.
use vstd::prelude::*;

verus! {

/// The interrupt flag of the flags register.
pub const FLAG_INTERRUPTS: usize = 0x200;

/// The value of a model-specific register from the halves that `rdmsr` leaves in `eax` and
/// `edx`: `eax` is taken as the upper half.
pub fn msr_value(eax: u32, edx: u32) -> (r: u64)
    ensures
        r == eax * 0x1_0000_0000 + edx,
{
    assert(((eax as u64) << 32u64) | (edx as u64) == (eax as u64) * 0x1_0000_0000 + (edx as u64))
        by (bit_vector);
    ((eax as u64) << 32) | edx as u64
}

/// The halves that `wrmsr` is given for `val`: the upper half goes in `eax`, the lower in `edx`.
pub fn msr_halves(val: u64) -> (r: (u32, u32))
    ensures
        r.0 == val / 0x1_0000_0000,
        r.1 == val % 0x1_0000_0000,
{
    assert((val >> 32u64) as u32 == val / 0x1_0000_0000 && val as u32 == val % 0x1_0000_0000)
        by (bit_vector);
    ((val >> 32) as u32, val as u32)
}

/// Splitting a value into the halves `wrmsr` takes and putting back together the halves
/// `rdmsr` gives yields the value.
pub proof fn lemma_msr_round_trip(val: u64)
    ensures
        (val / 0x1_0000_0000) * 0x1_0000_0000 + val % 0x1_0000_0000 == val,
{
}

/// Whether the flags register `flags` has interrupts enabled.
pub fn interrupts_enabled(flags: usize) -> (r: bool)
    ensures
        r == (flags & FLAG_INTERRUPTS != 0),
{
    flags & FLAG_INTERRUPTS != 0
}

} // verus!
