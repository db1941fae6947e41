//! Physical frame allocation and virtual-memory bookkeeping.
pub mod pmm;
pub mod vmm;
pub mod heap;
