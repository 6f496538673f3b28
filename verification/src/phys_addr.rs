//! Strongly typed physical addresses.

use vstd::prelude::*;
use vstd::string::StringExecFns;

use crate::align::{
    align_down_usize, align_up_usize, is_aligned_usize, spec_align_down, spec_align_up,
    spec_is_aligned,
};

verus! {

/// A physical address: a newtype over a machine word.
///
/// Physical and virtual addresses are distinct types; any operation crossing
/// the boundary is explicit.
#[derive(Clone, Copy, PartialEq, Eq, Structural, Debug, PartialOrd, Ord, Hash)]
pub struct PhysAddr {
    pub addr: usize,
}

impl View for PhysAddr {
    type V = int;

    open spec fn view(&self) -> int {
        self.addr as int
    }
}

impl PhysAddr {
    /// Renders the address as `PhysAddr(0x…)` with lowercase hex digits.
    pub fn to_hex_string(&self) -> (r: String)
        ensures
            r@ == seq!['P', 'h', 'y', 's', 'A', 'd', 'd', 'r', '('] + crate::hex_text::spec_hex_text(self.addr as int) + seq![')'],
    {
        let mut out = String::from_str("PhysAddr(");
        proof {
            reveal_strlit("PhysAddr(");
        }
        out.append(crate::hex_text::hex_text(self.addr).as_str());
        out.append(")");
        proof {
            reveal_strlit(")");
            assert(out@ =~= seq!['P', 'h', 'y', 's', 'A', 'd', 'd', 'r', '('] + crate::hex_text::spec_hex_text(self.addr as int)
                + seq![')']);
        }
        out
    }

    /// Creates a new address from the given word.
    pub fn new(value: usize) -> (r: Self)
        ensures
            r@ == value,
    {
        PhysAddr { addr: value }
    }

    /// Returns the null address (zero).
    pub fn null() -> (r: Self)
        ensures
            r@ == 0,
    {
        PhysAddr { addr: 0 }
    }

    /// Checks if the address is null (0).
    pub fn is_null(self) -> (r: bool)
        ensures
            r == (self@ == 0),
    {
        self.addr == 0
    }

    /// Returns the underlying word.
    pub fn as_usize(self) -> (r: usize)
        ensures
            r == self@,
    {
        self.addr
    }

    /// Aligns the address down to the given alignment.
    pub fn align_down(self, align: usize) -> (r: Self)
        requires
            align > 0,
        ensures
            r@ == spec_align_down(self@, align as int),
    {
        PhysAddr { addr: align_down_usize(self.addr, align) }
    }

    /// Aligns the address up to the given alignment.
    pub fn align_up(self, align: usize) -> (r: Self)
        requires
            align > 0,
            spec_align_up(self@, align as int) <= usize::MAX,
        ensures
            r@ == spec_align_up(self@, align as int),
    {
        PhysAddr { addr: align_up_usize(self.addr, align) }
    }

    /// Checks if the address is aligned to the given alignment.
    pub fn is_aligned(self, align: usize) -> (r: bool)
        requires
            align > 0,
        ensures
            r == spec_is_aligned(self@, align as int),
    {
        is_aligned_usize(self.addr, align)
    }

    /// Returns the offset of the address from the previous aligned boundary.
    pub fn offset_from_alignment(self, align: usize) -> (r: usize)
        requires
            align > 0,
        ensures
            r == self@ % (align as int),
            self@ - spec_align_down(self@, align as int) == r,
    {
        self.addr % align
    }

    /// Adds an unsigned byte offset.
    pub fn add_offset(self, rhs: usize) -> (r: Self)
        requires
            self@ + rhs <= usize::MAX,
        ensures
            r@ == self@ + rhs,
    {
        PhysAddr { addr: self.addr + rhs }
    }

    /// Subtracts an unsigned byte offset.
    pub fn sub_offset(self, rhs: usize) -> (r: Self)
        requires
            rhs <= self@,
        ensures
            r@ == self@ - rhs,
    {
        PhysAddr { addr: self.addr - rhs }
    }

    /// Adds a signed byte offset.
    pub fn add_signed(self, rhs: isize) -> (r: Self)
        requires
            0 <= self@ + rhs <= usize::MAX,
        ensures
            r@ == self@ + rhs,
    {
        if rhs >= 0 {
            PhysAddr { addr: self.addr + (rhs as usize) }
        } else {
            let back: usize = ((-(rhs + 1)) as usize) + 1;
            PhysAddr { addr: self.addr - back }
        }
    }

    /// The signed distance between two addresses of the same type.
    pub fn diff(self, rhs: Self) -> (r: isize)
        requires
            isize::MIN <= self@ - rhs@ <= isize::MAX,
        ensures
            r == self@ - rhs@,
    {
        if self.addr >= rhs.addr {
            (self.addr - rhs.addr) as isize
        } else {
            let back: usize = rhs.addr - self.addr;
            -((back - 1) as isize) - 1
        }
    }
}

impl From<usize> for PhysAddr {
    fn from(value: usize) -> (r: Self) {
        PhysAddr { addr: value }
    }
}

impl vstd::std_specs::convert::FromSpecImpl<usize> for PhysAddr {
    open spec fn obeys_from_spec() -> bool {
        true
    }

    open spec fn from_spec(v: usize) -> Self {
        PhysAddr { addr: v }
    }
}

impl From<PhysAddr> for usize {
    fn from(value: PhysAddr) -> (r: usize) {
        value.addr
    }
}

impl vstd::std_specs::convert::FromSpecImpl<PhysAddr> for usize {
    open spec fn obeys_from_spec() -> bool {
        true
    }

    open spec fn from_spec(v: PhysAddr) -> usize {
        v.addr
    }
}

/// Subtracting an address and adding it back restores the original:
/// `(a - b) + b == a` for same-type addresses within the signed range.
pub proof fn lemma_diff_then_add_restores(a: PhysAddr, b: PhysAddr)
    requires
        isize::MIN <= a@ - b@ <= isize::MAX,
    ensures
        b@ + (a@ - b@) == a@,
{
}

/// Converting a word into an address and back is the identity:
/// `usize::from(PhysAddr::from(x)) == x`.
pub proof fn lemma_word_round_trip(x: usize)
    ensures
        <usize as vstd::std_specs::convert::FromSpec<PhysAddr>>::from_spec(
            <PhysAddr as vstd::std_specs::convert::FromSpec<usize>>::from_spec(x),
        ) == x,
{
}

} // verus!
