//! A value that the hardware may read or write behind the program's back.
use vstd::prelude::*;

verus! {

/// A value kept where hardware can reach it.
#[derive(Debug, Copy, Clone)]
pub struct Volatile<T>(T);

impl<T> Volatile<T> {
    /// The value held.
    pub closed spec fn spec_value(&self) -> T {
        self.0
    }

    /// Holds `value`.
    pub fn new(value: T) -> (r: Self)
        ensures
            r.spec_value() == value,
    {
        Self(value)
    }

    /// Replaces the value.
    pub fn set(&mut self, value: T)
        ensures
            final(self).spec_value() == value,
    {
        self.0 = value;
    }

    /// The value, by reference.
    pub fn get_ref(&self) -> (r: &T)
        ensures
            *r == self.spec_value(),
    {
        &self.0
    }

    /// The value, by mutable reference.
    pub fn get_mut(&mut self) -> (r: &mut T)
        ensures
            *r == old(self).spec_value(),
            final(self).spec_value() == *final(r),
    {
        &mut self.0
    }
}

impl<T: Copy> Volatile<T> {
    /// A copy of the value.
    pub fn get(&self) -> (r: T)
        ensures
            r == self.spec_value(),
    {
        self.0
    }
}

} // verus!
