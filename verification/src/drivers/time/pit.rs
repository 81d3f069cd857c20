//! The programmable interval timer, set to interrupt a thousand times a second.
use vstd::prelude::*;

verus! {

/// The number of interrupts per second asked for.
pub const I_REQ_TIME_STEP: u64 = 1000;
/// The frequency of the timer's input clock, in hertz.
pub const FREQUENCY: u64 = 1193181;
/// The divisor that gives the asked-for rate.
pub const DIVISOR: u16 = 1193;
/// The number of interrupts per second the divisor gives.
pub const PER_SECOND: u64 = 1000;
/// The microseconds between two interrupts.
pub const US_PER_TICK: u64 = 1000;

/// The first I/O port of the timer.
pub const PORT_BASE: u16 = 0x40;
/// The number of I/O ports of the timer.
pub const PORT_COUNT: u16 = 4;
/// The interrupt vector of the timer.
pub const IRQ: u16 = 32;

/// The constants agree with one another.
pub proof fn lemma_constants()
    ensures
        DIVISOR == FREQUENCY / I_REQ_TIME_STEP,
        PER_SECOND == FREQUENCY / (DIVISOR as u64),
        US_PER_TICK == 1000000u64 / I_REQ_TIME_STEP,
{
    assert(1193181u64 / 1193u64 == 1000u64) by (nonlinear_arith);
    assert(1193181u64 / 1000u64 == 1193u64) by (nonlinear_arith);
}

/// The port writes that set the timer up, in order, as port offsets and bytes: channel 0 in
/// rate-generator mode, then the divisor, low byte first.
pub fn init_sequence() -> (r: Vec<(u16, u8)>)
    ensures
        r@ == seq![(3u16, 0x34u8), (0u16, 0xa9u8), (0u16, 0x04u8)],
{
    assert(1193u16 as u8 == 0xa9u8 && (1193u16 >> 8u16) as u8 == 0x04u8) by (bit_vector);
    let r = vec![(3u16, 0b00110100u8), (0u16, DIVISOR as u8), (0u16, (DIVISOR >> 8) as u8)];
    r
}

/// The count of timer interrupts.
pub struct Ticks {
    count: u64,
}

impl Ticks {
    /// The count.
    pub closed spec fn spec_count(&self) -> u64 {
        self.count
    }

    /// No interrupts yet.
    pub fn new() -> (r: Self)
        ensures
            r.spec_count() == 0,
    {
        Ticks { count: 0 }
    }

    /// Counts one interrupt; the count wraps around.
    pub fn tick(&mut self)
        ensures
            final(self).spec_count() == (old(self).spec_count() + 1) % 0x1_0000_0000_0000_0000,
    {
        self.count = self.count.wrapping_add(1);
    }

    /// The count.
    pub fn count(&self) -> (r: u64)
        ensures
            r == self.spec_count(),
    {
        self.count
    }
}

} // verus!
