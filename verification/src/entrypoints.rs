//! Bring-up: where the pool of the heap lies in Secure DRAM.

use crate::qemu_constants::{BL32_MEM_BASE, BL32_MEM_SIZE};
use vstd::prelude::*;

verus! {

/// First address of the pool for an image that ends at `image_end`.
pub open spec fn pool_base(image_end: int) -> int {
    if image_end > BL32_MEM_BASE {
        image_end
    } else {
        BL32_MEM_BASE as int
    }
}

/// Size of the pool for an image that ends at `image_end`: what is left
/// of Secure DRAM above the pool base.
pub open spec fn pool_size(image_end: int) -> int {
    if pool_base(image_end) >= BL32_MEM_BASE + BL32_MEM_SIZE {
        0
    } else {
        BL32_MEM_BASE + BL32_MEM_SIZE - pool_base(image_end)
    }
}

/// Base and size of the free Secure DRAM above the payload image: the
/// pool starts at the image end or at the base of Secure DRAM, whichever
/// is higher, and runs to the end of Secure DRAM.
pub fn pool_bounds(image_end: usize) -> (r: (usize, usize))
    ensures
        r.0 == pool_base(image_end as int),
        r.1 == pool_size(image_end as int),
{
    if image_end > BL32_MEM_BASE {
        if image_end - BL32_MEM_BASE >= BL32_MEM_SIZE {
            (image_end, 0)
        } else {
            (image_end, BL32_MEM_SIZE - (image_end - BL32_MEM_BASE))
        }
    } else {
        (BL32_MEM_BASE, BL32_MEM_SIZE)
    }
}

} // verus!
