//! Strongly typed virtual addresses.

use vstd::prelude::*;
use vstd::string::StringExecFns;

use crate::align::{
    align_down_usize, align_up_usize, is_aligned_usize, spec_align_down, spec_align_up,
    spec_is_aligned,
};

verus! {

/// A virtual address: a newtype over a machine word.
///
/// Physical and virtual addresses are distinct types; any operation crossing
/// the boundary is explicit.
#[derive(Clone, Copy, PartialEq, Eq, Structural, Debug, PartialOrd, Ord, Hash)]
pub struct VirtAddr {
    pub addr: usize,
}

impl View for VirtAddr {
    type V = int;

    open spec fn view(&self) -> int {
        self.addr as int
    }
}

impl VirtAddr {
    /// Renders the address as `VirtAddr(0x…)` with lowercase hex digits.
    pub fn to_hex_string(&self) -> (r: String)
        ensures
            r@ == seq!['V', 'i', 'r', 't', 'A', 'd', 'd', 'r', '('] + crate::hex_text::spec_hex_text(self.addr as int) + seq![')'],
    {
        let mut out = String::from_str("VirtAddr(");
        proof {
            reveal_strlit("VirtAddr(");
        }
        out.append(crate::hex_text::hex_text(self.addr).as_str());
        out.append(")");
        proof {
            reveal_strlit(")");
            assert(out@ =~= seq!['V', 'i', 'r', 't', 'A', 'd', 'd', 'r', '('] + crate::hex_text::spec_hex_text(self.addr as int)
                + seq![')']);
        }
        out
    }

    /// Creates a new address from the given word.
    pub fn new(value: usize) -> (r: Self)
        ensures
            r@ == value,
    {
        VirtAddr { addr: value }
    }

    /// Returns the null address (zero).
    pub fn null() -> (r: Self)
        ensures
            r@ == 0,
    {
        VirtAddr { addr: 0 }
    }

    /// Checks if the address is null (0).
    pub fn is_null(self) -> (r: bool)
        ensures
            r == (self@ == 0),
    {
        self.addr == 0
    }

    /// Returns the underlying word.
    pub fn as_usize(self) -> (r: usize)
        ensures
            r == self@,
    {
        self.addr
    }

    /// Creates a new address belonging to the same address space as `self`.
    pub fn same_lifetime(&self, addr: usize) -> (r: VirtAddr)
        ensures
            r@ == addr,
    {
        VirtAddr { addr }
    }

    /// Aligns the address down to the given alignment.
    pub fn align_down(self, align: usize) -> (r: Self)
        requires
            align > 0,
        ensures
            r@ == spec_align_down(self@, align as int),
    {
        VirtAddr { addr: align_down_usize(self.addr, align) }
    }

    /// Aligns the address up to the given alignment.
    pub fn align_up(self, align: usize) -> (r: Self)
        requires
            align > 0,
            spec_align_up(self@, align as int) <= usize::MAX,
        ensures
            r@ == spec_align_up(self@, align as int),
    {
        VirtAddr { addr: align_up_usize(self.addr, align) }
    }

    /// Checks if the address is aligned to the given alignment.
    pub fn is_aligned(self, align: usize) -> (r: bool)
        requires
            align > 0,
        ensures
            r == spec_is_aligned(self@, align as int),
    {
        is_aligned_usize(self.addr, align)
    }

    /// Returns the offset of the address from the previous aligned boundary.
    pub fn offset_from_alignment(self, align: usize) -> (r: usize)
        requires
            align > 0,
        ensures
            r == self@ % (align as int),
            self@ - spec_align_down(self@, align as int) == r,
    {
        self.addr % align
    }

    /// Adds an unsigned byte offset.
    pub fn add_offset(self, rhs: usize) -> (r: Self)
        requires
            self@ + rhs <= usize::MAX,
        ensures
            r@ == self@ + rhs,
    {
        VirtAddr { addr: self.addr + rhs }
    }

    /// Subtracts an unsigned byte offset.
    pub fn sub_offset(self, rhs: usize) -> (r: Self)
        requires
            rhs <= self@,
        ensures
            r@ == self@ - rhs,
    {
        VirtAddr { addr: self.addr - rhs }
    }

    /// Adds a signed byte offset.
    pub fn add_signed(self, rhs: isize) -> (r: Self)
        requires
            0 <= self@ + rhs <= usize::MAX,
        ensures
            r@ == self@ + rhs,
    {
        if rhs >= 0 {
            VirtAddr { addr: self.addr + (rhs as usize) }
        } else {
            let back: usize = ((-(rhs + 1)) as usize) + 1;
            VirtAddr { addr: self.addr - back }
        }
    }

    /// The signed distance between two addresses of the same type.
    pub fn diff(self, rhs: Self) -> (r: isize)
        requires
            isize::MIN <= self@ - rhs@ <= isize::MAX,
        ensures
            r == self@ - rhs@,
    {
        if self.addr >= rhs.addr {
            (self.addr - rhs.addr) as isize
        } else {
            let back: usize = rhs.addr - self.addr;
            -((back - 1) as isize) - 1
        }
    }
}

impl From<usize> for VirtAddr {
    fn from(value: usize) -> (r: Self) {
        VirtAddr { addr: value }
    }
}

impl vstd::std_specs::convert::FromSpecImpl<usize> for VirtAddr {
    open spec fn obeys_from_spec() -> bool {
        true
    }

    open spec fn from_spec(v: usize) -> Self {
        VirtAddr { addr: v }
    }
}

impl From<VirtAddr> for usize {
    fn from(value: VirtAddr) -> (r: usize) {
        value.addr
    }
}

impl vstd::std_specs::convert::FromSpecImpl<VirtAddr> for usize {
    open spec fn obeys_from_spec() -> bool {
        true
    }

    open spec fn from_spec(v: VirtAddr) -> usize {
        v.addr
    }
}

/// Subtracting an address and adding it back restores the original:
/// `(a - b) + b == a` for same-type addresses within the signed range.
pub proof fn lemma_diff_then_add_restores(a: VirtAddr, b: VirtAddr)
    requires
        isize::MIN <= a@ - b@ <= isize::MAX,
    ensures
        b@ + (a@ - b@) == a@,
{
}

} // verus!
