use vstd::prelude::*;

verus! {

/// Size of one page of guest memory.
pub const PAGE_SIZE: usize = 4096;

/// Bytes taken by one descriptor on the wire.
pub const DESC_SIZE: usize = 16;

/// Bytes taken by one used-ring element on the wire.
pub const USED_ELEM_SIZE: usize = 8;

/// Whether `n` is a positive power of two.
pub open spec fn is_pow2(n: int) -> bool
    decreases n,
{
    if n <= 0 {
        false
    } else if n == 1 {
        true
    } else {
        n % 2 == 0 && is_pow2(n / 2)
    }
}

/// `n` rounded up to the next multiple of the page size.
pub open spec fn page_round_up(n: int) -> int {
    ((n + PAGE_SIZE - 1) / PAGE_SIZE as int) * PAGE_SIZE
}

/// Decides whether `n` is a power of two.
pub fn is_power_of_two(n: u16) -> (r: bool)
    ensures
        r == is_pow2(n as int),
{
    let mut m: u16 = n;
    while m > 1 && m % 2 == 0
        invariant
            is_pow2(n as int) == is_pow2(m as int),
        decreases m,
    {
        m = m / 2;
    }
    m == 1
}

/// Align `size` up to a page.
pub fn align_up(size: usize) -> (r: usize)
    requires
        size + PAGE_SIZE <= usize::MAX,
    ensures
        r as int == page_round_up(size as int),
        r % PAGE_SIZE == 0,
        size <= r < size + PAGE_SIZE,
{
    let r = (size + PAGE_SIZE - 1) / PAGE_SIZE * PAGE_SIZE;
    proof {
        let q = (size + PAGE_SIZE - 1) / PAGE_SIZE as int;
        assert(q * 4096 <= size + 4095 < q * 4096 + 4096) by (nonlinear_arith)
            requires
                q == (size + 4095) / 4096,
        ;
        assert((q * 4096) % 4096 == 0) by (nonlinear_arith);
    }
    r
}

/// Byte offsets of the three wire structures inside one contiguous region.
#[derive(Debug, Clone, Copy, PartialEq, Eq, Structural)]
pub struct VirtQueueLayout {
    pub avail_offset: usize,
    pub used_offset: usize,
    pub size: usize,
}

/// Bytes of the available ring: flags, index, one slot per entry, used event.
pub open spec fn avail_bytes(queue_size: int) -> int {
    2 * (3 + queue_size)
}

/// Bytes of the used ring: flags, index, avail event, one element per entry.
pub open spec fn used_bytes(queue_size: int) -> int {
    2 * 3 + USED_ELEM_SIZE * queue_size
}

impl VirtQueueLayout {
    /// The layout that the wire format asks for with `queue_size` entries:
    /// descriptor table at zero, available ring right after it, used ring on
    /// the next page boundary, total rounded up to a page.
    pub open spec fn spec_for(queue_size: int) -> VirtQueueLayout {
        let desc = DESC_SIZE * queue_size;
        VirtQueueLayout {
            avail_offset: desc as usize,
            used_offset: page_round_up(desc + avail_bytes(queue_size)) as usize,
            size: (page_round_up(desc + avail_bytes(queue_size)) + page_round_up(
                used_bytes(queue_size),
            )) as usize,
        }
    }

    pub fn new(queue_size: u16) -> (r: Self)
        requires
            is_pow2(queue_size as int),
        ensures
            r == Self::spec_for(queue_size as int),
            r.avail_offset < r.used_offset,
            r.used_offset % PAGE_SIZE == 0,
            r.size % PAGE_SIZE == 0,
            r.used_offset + used_bytes(queue_size as int) <= r.size,
    {
        let queue_size = queue_size as usize;
        let desc = DESC_SIZE * queue_size;
        let avail = 2 * (3 + queue_size);
        let used = 2 * 3 + USED_ELEM_SIZE * queue_size;
        let used_offset = align_up(desc + avail);
        let used_size = align_up(used);
        VirtQueueLayout { avail_offset: desc, used_offset, size: used_offset + used_size }
    }
}

} // verus!
