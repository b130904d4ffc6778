//! Size and alignment of a request to the host's general allocator, as the
//! host passes them over its C interface.

use vstd::prelude::*;

verus! {

/// Size and alignment of a request.
#[derive(Clone, Copy, Debug, PartialEq, Eq, Structural)]
pub struct CLayout {
    /// Bytes asked for.
    pub size: usize,
    /// Alignment asked for.
    pub align: usize,
}

/// Whether `n` is a power of two.
pub open spec fn spec_is_power_of_two(n: int) -> bool
    decreases n,
{
    if n <= 0 {
        false
    } else if n == 1 {
        true
    } else {
        n % 2 == 0 && spec_is_power_of_two(n / 2)
    }
}

impl CLayout {
    /// Whether the layout is one that an allocator can serve: the alignment
    /// is a power of two, and the size, rounded up to a multiple of the
    /// alignment, does not exceed `isize::MAX`.
    pub open spec fn spec_is_valid(&self) -> bool {
        &&& spec_is_power_of_two(self.align as int)
        &&& self.size <= isize::MAX - (self.align - 1)
    }

    /// A layout of `size` bytes aligned to `align`.
    pub fn new(size: usize, align: usize) -> (layout: CLayout)
        ensures
            layout == (CLayout { size, align }),
    {
        CLayout { size, align }
    }

    /// Whether the layout is one that an allocator can serve.
    pub fn is_valid(&self) -> (valid: bool)
        ensures
            valid == self.spec_is_valid(),
    {
        if self.align == 0 {
            return false;
        }
        let mut n: usize = self.align;
        while n % 2 == 0
            invariant
                n > 0,
                spec_is_power_of_two(self.align as int) == spec_is_power_of_two(n as int),
            decreases n,
        {
            n = n / 2;
        }
        if n != 1 {
            return false;
        }
        self.align - 1 <= isize::MAX as usize && self.size <= isize::MAX as usize - (self.align
            - 1)
    }

    /// The layout for a new size with the alignment of this one.
    pub fn resized(&self, new_size: usize) -> (layout: CLayout)
        ensures
            layout == (CLayout { size: new_size, align: self.align }),
    {
        CLayout { size: new_size, align: self.align }
    }
}

} // verus!
