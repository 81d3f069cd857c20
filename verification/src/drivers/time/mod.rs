//! Time sources.
pub mod pit;
pub mod pvclock;
