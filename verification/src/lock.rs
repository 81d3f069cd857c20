//! A lock for data shared with interrupt handlers on one core: taking it turns interrupts
//! off, releasing it turns them back on if they were on.
use vstd::prelude::*;

verus! {

/// Data behind a lock.
pub struct Lock<T> {
    data: T,
}

impl<T> Lock<T> {
    /// The data.
    pub closed spec fn spec_data(&self) -> T {
        self.data
    }

    /// A lock around `data`.
    pub fn new(data: T) -> (r: Self)
        ensures
            r.spec_data() == data,
    {
        Lock { data }
    }

    /// The data, to change.
    pub fn write(&mut self) -> (r: &mut T)
        ensures
            *r == old(self).spec_data(),
            final(self).spec_data() == *final(r),
    {
        &mut self.data
    }

    /// The data, to read.
    pub fn read(&self) -> (r: &T)
        ensures
            *r == self.spec_data(),
    {
        &self.data
    }
}

/// What taking the lock leaves to do on release: whether to turn interrupts back on.
pub struct InterruptLockGuard {
    restore: bool,
}

impl InterruptLockGuard {
    /// Whether releasing turns interrupts back on.
    pub closed spec fn spec_restore(&self) -> bool {
        self.restore
    }

    /// The guard taken when interrupts were on, as `was_enabled` says, before they were
    /// turned off.
    pub fn new(was_enabled: bool) -> (r: Self)
        ensures
            r.spec_restore() == was_enabled,
    {
        InterruptLockGuard { restore: was_enabled }
    }

    /// Whether releasing the guard turns interrupts back on.
    pub fn release(self) -> (r: bool)
        ensures
            r == self.spec_restore(),
    {
        self.restore
    }
}

} // verus!
