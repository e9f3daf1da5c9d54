//! How a slab is laid out in its page: the header, the padding behind
//! it, and the array of objects; and the size classes.

use vstd::arithmetic::power2::{is_pow2, is_pow2_equiv, lemma2_to64, lemma2_to64_rest, lemma_pow2};
use vstd::prelude::*;

verus! {

/// Size of a slab: one page of the heap.
pub const PAGE_SIZE: usize = 4096;

/// Alignment asked of the heap for a page.
pub const PAGE_ALIGN: usize = 2;

/// Size of a pointer, and of the back pointer that opens every object.
pub const PTR_SIZE: usize = 8;

/// Size of a slab header: ten words.
pub const SLAB_HEAD: usize = 80;

/// Size of a cache record: thirteen words.
pub const KMEM_SIZE: usize = 104;

/// The smallest object size: the back pointer and the free-list link.
pub const MIN_CLASS: usize = 16;

/// The largest object size of which a page holds one object behind the
/// padded header.
pub const MAX_CLASS: usize = 2048;

/// Object size of the master cache: the least power of two that holds a
/// cache record behind the back pointer.
pub const MASTER_CLASS: usize = 128;

/// Twice a power of two is a power of two.
pub proof fn lemma_pow2_double(n: int)
    requires
        is_pow2(n),
    ensures
        is_pow2(2 * n),
        n >= 1,
{
    reveal(is_pow2);
}

/// Between a power of two and twice that power lies no power of two.
pub proof fn lemma_pow2_gap(a: int, b: int)
    requires
        is_pow2(a),
        is_pow2(b),
        a < b,
    ensures
        2 * a <= b,
    decreases b,
{
    reveal(is_pow2);
    if a > 1 {
        lemma_pow2_gap(a / 2, b / 2);
    }
}

/// The highest power of two of the machine word.
pub proof fn lemma_top_pow2()
    ensures
        is_pow2(usize::MAX / 2 + 1),
{
    lemma2_to64();
    lemma2_to64_rest();
    is_pow2_equiv(0x8000_0000);
    is_pow2_equiv(0x8000_0000_0000_0000);
    lemma_pow2(31);
    lemma_pow2(63);
}

/// `r` is the least power of two that is not below `n`.
pub open spec fn is_next_pow2(n: int, r: int) -> bool {
    is_pow2(r) && r >= n && (r > 1 ==> r / 2 < n)
}

/// There is one least power of two that is not below `n`.
pub proof fn lemma_next_pow2_unique(n: int, r: int, s: int)
    requires
        is_next_pow2(n, r),
        is_next_pow2(n, s),
    ensures
        r == s,
{
    reveal(is_pow2);
    if r < s {
        lemma_pow2_gap(r, s);
    } else if s < r {
        lemma_pow2_gap(s, r);
    }
}

/// The least power of two that is not below `size`, or zero where that
/// power does not fit the machine word.
pub fn get_power_of_two(size: usize) -> (r: usize)
    ensures
        r == 0 <==> size > usize::MAX / 2 + 1,
        r != 0 ==> is_next_pow2(size as int, r as int),
{
    let mut p: usize = 1;
    proof {
        reveal(is_pow2);
        lemma_top_pow2();
    }
    while p < size
        invariant
            is_pow2(p as int),
            is_pow2(usize::MAX / 2 + 1),
            1 <= p <= usize::MAX / 2 + 1,
            p > 1 ==> p / 2 < size,
        decreases usize::MAX - p,
    {
        if p > usize::MAX / 2 {
            return 0;
        }
        proof {
            lemma_pow2_double(p as int);
            lemma_pow2_gap(p as int, usize::MAX / 2 + 1);
        }
        p = p * 2;
    }
    p
}

/// Whether `n` is a power of two.
pub fn is_power_of_two(n: usize) -> (r: bool)
    ensures
        r == is_pow2(n as int),
{
    let p: usize = get_power_of_two(n);
    proof {
        reveal(is_pow2);
        if is_pow2(n as int) {
            // A power of two is the least power of two that is not below
            // it, and none lies above the highest one of the machine word.
            lemma_top_pow2();
            if n > usize::MAX / 2 + 1 {
                lemma_pow2_gap(usize::MAX / 2 + 1, n as int);
            }
            lemma_next_pow2_unique(n as int, p as int, n as int);
        }
    }
    p == n
}

/// Whether `size` and `align` are the size and the alignment of a valid
/// layout: the alignment is a power of two, and the size can be rounded
/// up to a multiple of the alignment without passing the highest signed
/// machine word.
pub open spec fn valid_layout(size: int, align: int) -> bool {
    is_pow2(align) && size + align - 1 <= isize::MAX
}

/// Whether `size` and `align` are the size and the alignment of a valid
/// layout.
pub fn is_valid_layout(size: usize, align: usize) -> (r: bool)
    ensures
        r == valid_layout(size as int, align as int),
{
    if !is_power_of_two(align) {
        return false;
    }
    proof {
        reveal(is_pow2);
    }
    let top: usize = usize::MAX / 2;
    align - 1 <= top && size <= top - (align - 1)
}

/// `osz` is the object size of a size class.
pub open spec fn valid_class(osz: int) -> bool {
    osz == 16 || osz == 32 || osz == 64 || osz == 128 || osz == 256 || osz == 512 || osz == 1024
        || osz == 2048
}

/// The size classes are the powers of two from the smallest to the
/// largest object size.
pub proof fn lemma_valid_class(osz: int)
    ensures
        valid_class(osz) <==> is_pow2(osz) && MIN_CLASS <= osz <= MAX_CLASS,
{
    reveal_with_fuel(is_pow2, 13);
}

/// The size class of a request of `n` bytes: the least power of two that
/// holds the request behind the back pointer; zero where no class does.
pub open spec fn class_of(n: int) -> int {
    if n + PTR_SIZE > MAX_CLASS {
        0
    } else if n + PTR_SIZE <= 16 {
        16
    } else if n + PTR_SIZE <= 32 {
        32
    } else if n + PTR_SIZE <= 64 {
        64
    } else if n + PTR_SIZE <= 128 {
        128
    } else if n + PTR_SIZE <= 256 {
        256
    } else if n + PTR_SIZE <= 512 {
        512
    } else if n + PTR_SIZE <= 1024 {
        1024
    } else {
        2048
    }
}

/// The class of a request is the least power of two that is not below
/// the request and the back pointer together, and not below the
/// smallest object size.
pub proof fn lemma_class_of(n: int)
    requires
        0 <= n,
        class_of(n) != 0,
    ensures
        valid_class(class_of(n)),
        class_of(n) >= n + PTR_SIZE,
        n + PTR_SIZE > MIN_CLASS ==> is_next_pow2(n + PTR_SIZE, class_of(n)),
{
    reveal_with_fuel(is_pow2, 13);
}

/// The object size of the master cache is the least power of two that
/// holds a cache record and a back pointer.
pub proof fn lemma_master_class()
    ensures
        is_next_pow2(KMEM_SIZE + PTR_SIZE, MASTER_CLASS as int),
        MASTER_CLASS == class_of(KMEM_SIZE as int),
{
    reveal_with_fuel(is_pow2, 13);
}

/// Bytes from the start of a page to its first object: the header,
/// rounded up to the object size.
pub open spec fn slab_space(osz: int) -> int {
    if osz == 16 {
        80
    } else if osz == 32 {
        96
    } else if osz == 64 {
        128
    } else if osz == 128 {
        128
    } else {
        osz
    }
}

/// Objects in one slab: the objects that a page holds, less those that
/// the padded header covers.
pub open spec fn slab_capacity(osz: int) -> int {
    if osz == 16 {
        251
    } else if osz == 32 {
        125
    } else if osz == 64 {
        62
    } else if osz == 128 {
        31
    } else if osz == 256 {
        15
    } else if osz == 512 {
        7
    } else if osz == 1024 {
        3
    } else {
        1
    }
}

/// `k` times the object size `osz` of a class.
pub open spec fn scaled(k: int, osz: int) -> int {
    if osz == 16 {
        16 * k
    } else if osz == 32 {
        32 * k
    } else if osz == 64 {
        64 * k
    } else if osz == 128 {
        128 * k
    } else if osz == 256 {
        256 * k
    } else if osz == 512 {
        512 * k
    } else if osz == 1024 {
        1024 * k
    } else {
        2048 * k
    }
}

/// Address of object `k` of the slab at `p` with objects of size `osz`.
pub open spec fn obj_addr(p: int, osz: int, k: int) -> int {
    p + slab_space(osz) + scaled(k, osz)
}

/// The table of capacities is what the page size, the header size and
/// the object size give.
pub proof fn lemma_capacity(osz: int)
    requires
        valid_class(osz),
    ensures
        slab_space(osz) == (SLAB_HEAD + osz - 1) / osz * osz,
        slab_capacity(osz) == PAGE_SIZE as int / osz - slab_space(osz) / osz,
        slab_capacity(osz) >= 1,
        scaled(slab_capacity(osz), osz) + slab_space(osz) == PAGE_SIZE,
{
}

/// The objects of a slab lie behind its header, inside its page, one
/// behind the other.
pub proof fn lemma_obj(p: int, osz: int, k: int)
    requires
        valid_class(osz),
        0 <= k < slab_capacity(osz),
    ensures
        p + SLAB_HEAD <= obj_addr(p, osz, k),
        obj_addr(p, osz, k) + osz <= p + PAGE_SIZE,
        obj_addr(p, osz, k + 1) == obj_addr(p, osz, k) + osz,
        obj_addr(p, osz, 0) == p + slab_space(osz),
{
}

/// Two different objects of a slab do not overlap.
pub proof fn lemma_obj_apart(p: int, osz: int, k: int, l: int)
    requires
        valid_class(osz),
        k < l,
    ensures
        obj_addr(p, osz, k) + osz <= obj_addr(p, osz, l),
{
}

/// The size class of a request of `size` bytes, or zero where no class
/// holds it.
pub fn size_class(size: usize) -> (r: usize)
    ensures
        r == class_of(size as int),
{
    if size > MAX_CLASS - PTR_SIZE {
        return 0;
    }
    let p: usize = get_power_of_two(size + PTR_SIZE);
    proof {
        reveal_with_fuel(is_pow2, 13);
        if p > 16 {
            lemma_class_of(size as int);
            lemma_next_pow2_unique(size + PTR_SIZE, p as int, class_of(size as int));
        }
    }
    if p < MIN_CLASS {
        MIN_CLASS
    } else {
        p
    }
}

} // verus!
