//! The paravirtual clock: the time the hypervisor publishes, scaled from the processor's
//! time-stamp counter.
use vstd::prelude::*;

verus! {

/// The processor-identification leaf that tells whether the clock is there.
pub const CPUID_LEAF: u32 = 0x4000001;
/// The model-specific register that the clock's page is handed to.
pub const MSR: u32 = 0x4b564d01;

/// Whether the answer `eax` of the identification leaf says the clock is there (bit 3).
pub fn available(eax: u32) -> (r: bool)
    ensures
        r == (eax & 8 != 0),
{
    eax & 8 != 0
}

/// A copy of the clock's page.
#[derive(Debug, Copy, Clone)]
pub struct TimeInfo {
    pub version: u32,
    pub tsc_timestamp: u64,
    pub system_time: u64,
    pub tsc_to_system_mul: u32,
    pub tsc_shift: i8,
    pub flags: u8,
}

/// The time-stamp counter difference `delta` shifted by `shift`: left when it is not
/// negative, right by its magnitude when it is.
pub open spec fn shifted(delta: u64, shift: i8) -> u64 {
    if shift >= 0 {
        delta << (shift as u64)
    } else {
        delta >> ((-shift) as u64)
    }
}

/// The nanoseconds the page gives for the counter value `tsc`.
pub open spec fn nanoseconds_at(info: TimeInfo, tsc: u64) -> int {
    let time = shifted((tsc - info.tsc_timestamp) as u64, info.tsc_shift);
    (time * info.tsc_to_system_mul) / 0x1_0000_0000 + info.system_time
}

proof fn lemma_odd(v: u32)
    by (bit_vector)
    ensures
        (v & 1 != 0) == (v % 2 == 1),
{
}

proof fn lemma_shr_32(x: u64)
    by (bit_vector)
    ensures
        x >> 32u64 == x / 0x1_0000_0000,
{
}

impl TimeInfo {
    /// The nanoseconds at the counter value `tsc`; `None` while the hypervisor is updating
    /// the page (an odd version), when the reading has to be taken again.
    pub fn get_nanoseconds(&self, tsc: u64) -> (r: Option<u64>)
        requires
            tsc >= self.tsc_timestamp,
            -64 < self.tsc_shift < 64,
            shifted((tsc - self.tsc_timestamp) as u64, self.tsc_shift) * self.tsc_to_system_mul
                <= u64::MAX,
            nanoseconds_at(*self, tsc) <= u64::MAX,
        ensures
            self.version % 2 == 1 ==> r is None,
            self.version % 2 == 0 ==> r == Some(nanoseconds_at(*self, tsc) as u64),
    {
        let version = self.version;
        proof {
            lemma_odd(version);
        }
        if version & 1 != 0 {
            return None;
        }
        let time = tsc - self.tsc_timestamp;
        let shift = self.tsc_shift;
        let time = if shift >= 0 {
            time << (shift as u64)
        } else {
            time >> ((-shift) as u64)
        };
        let product = time * (self.tsc_to_system_mul as u64);
        proof {
            lemma_shr_32(product);
        }
        Some((product >> 32) + self.system_time)
    }
}

/// The reading is consistent when the version was even and did not change while the page
/// was read.
pub fn reading_consistent(before: u32, after: u32) -> (r: bool)
    ensures
        r == (before % 2 == 0 && before == after),
{
    proof {
        lemma_odd(before);
    }
    if before & 1 != 0 {
        false
    } else {
        before == after
    }
}

} // verus!
