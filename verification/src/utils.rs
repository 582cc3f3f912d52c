//! Address and layout helpers.

use vstd::layout::align_of;
use vstd::layout::size_of;
use vstd::prelude::*;

verus! {

/// The size and alignment of a piece of raw storage.
pub struct MemLayout {
    /// The storage's size in bytes.
    pub size: usize,
    /// The storage's alignment in bytes; at least one.
    pub align: usize,
}

/// `x` rounded up to the next multiple of `a`.
pub open spec fn spec_round_up(x: int, a: int) -> int {
    if x == 0 {
        0
    } else {
        ((x - 1) / a + 1) * a
    }
}

/// Returns `true` when an address is the well-known non-dereferenceable
/// sentinel carried by dangling handles, which no real allocation ever has.
pub fn is_dangling(addr: usize) -> (r: bool)
    ensures
        r == (addr == usize::MAX),
{
    addr == usize::MAX
}

/// Rounds `x` up to the next multiple of `a`.
fn round_up(x: usize, a: usize) -> (r: usize)
    requires
        a >= 1,
        x + a - 1 <= usize::MAX,
    ensures
        r == spec_round_up(x as int, a as int),
        x <= r <= x + a - 1,
{
    if x == 0 {
        return 0;
    }
    let q = (x - 1) / a + 1;
    proof {
        let xi = x as int;
        let ai = a as int;
        assert(xi <= ((xi - 1) / ai + 1) * ai <= xi + ai - 1) by (nonlinear_arith)
            requires
                ai >= 1,
                xi >= 1,
        ;
    }
    q * a
}

/// The layout of a cell that stores a header of type `T` followed by a
/// value of the given layout: the value is placed at the first offset past
/// the header that fits its alignment, and the total size is padded to the
/// combined alignment.  The arithmetic must not overflow; a layout too
/// large to describe aborts instead.
pub fn memory_layout_for_t<T>(layout: MemLayout) -> (r: MemLayout)
    requires
        layout.align >= 1,
        size_of::<T>() + layout.align - 1 <= usize::MAX,
        spec_round_up(size_of::<T>() as int, layout.align as int) + layout.size + align_of::<T>()
            + layout.align <= usize::MAX,
    ensures
        r.align == if align_of::<T>() > layout.align {
            align_of::<T>() as int
        } else {
            layout.align as int
        },
        r.size == spec_round_up(
            spec_round_up(size_of::<T>() as int, layout.align as int) + layout.size,
            r.align as int,
        ),
{
    let t_size = core::mem::size_of::<T>();
    let t_align = core::mem::align_of::<T>();
    let align = if t_align > layout.align {
        t_align
    } else {
        layout.align
    };
    // the value goes at the first aligned offset past the header
    let offset = round_up(t_size, layout.align);
    let size = offset + layout.size;
    // pad the whole cell to the combined alignment
    let padded = round_up(size, align);
    MemLayout { size: padded, align }
}

} // verus!
