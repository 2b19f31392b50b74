//! DMA address arithmetic.
//!
//! Memory set aside for device access is mapped at a virtual address
//! that carries the physical address plus a fixed tag, so physical
//! addresses can be recovered, and checked, without asking the kernel.
//! The mapping itself is operating-system work and lives with the
//! driver; only the address arithmetic is here.
use vstd::prelude::*;

verus! {

/// Tag applied to physical addresses to form their virtual address.
pub const DMA_TAG: u64 = 0x500000000000;

/// Whether an address carries the DMA tag.
pub open spec fn dma_tagged(virt_addr: u64) -> bool {
    virt_addr & DMA_TAG == DMA_TAG
}

/// Return the physical address of specially mapped DMA memory: the
/// virtual address with the tag bits cleared. An untagged address is
/// not DMA memory and is refused.
pub fn virtual_to_physical(virt_addr: u64) -> (r: u64)
    requires
        dma_tagged(virt_addr),
    ensures
        r == virt_addr ^ DMA_TAG,
{
    virt_addr ^ DMA_TAG
}

} // verus!
