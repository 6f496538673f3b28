//! The page-table entry: its bit layout and the accessors over it.
//!
//! An entry packs a physical page number and a group of flag bits into one
//! machine word: `bits == (paddr / 4096) * 1024 + flag_bits`, with
//! `flag_bits` holding valid (1), readable (2), writable (4), executable (8),
//! user (16), kernel (32), device (64), uncached (128) and leaf (256). A
//! present entry with the leaf bit clear points at the next table level; with
//! the leaf bit set it maps a (possibly huge) page.

use vstd::prelude::*;

use crate::align::spec_is_aligned;
use crate::constants::PAGE_SIZE;
use crate::flags::GenericMappingFlags;
use crate::phys_addr::PhysAddr;

verus! {

/// One slot of one level of the multi-level page table.
#[derive(Clone, Copy, PartialEq, Eq, Structural, Debug)]
pub struct Pte {
    pub bits: u64,
}

impl Pte {
    /// The flag-bit group of the entry.
    pub open spec fn spec_flag_bits(self) -> int {
        (self.bits as int) % 1024
    }

    /// Whether the entry is present (valid).
    pub open spec fn spec_present(self) -> bool {
        (self.bits as int) % 2 == 1
    }

    /// Whether the entry maps a page (rather than pointing at a table).
    pub open spec fn spec_leaf(self) -> bool {
        ((self.bits as int) / 256) % 2 == 1
    }

    /// The physical address carried by the entry.
    pub open spec fn spec_paddr(self) -> int {
        ((self.bits as int) / 1024) * 4096
    }

    /// The permission flags carried by the entry.
    pub open spec fn spec_flags(self) -> GenericMappingFlags {
        GenericMappingFlags {
            readable: ((self.bits as int) / 2) % 2 == 1,
            writable: ((self.bits as int) / 4) % 2 == 1,
            executable: ((self.bits as int) / 8) % 2 == 1,
            user: ((self.bits as int) / 16) % 2 == 1,
            kernel: ((self.bits as int) / 32) % 2 == 1,
            device: ((self.bits as int) / 64) % 2 == 1,
            uncached: ((self.bits as int) / 128) % 2 == 1,
        }
    }

    /// Whether the entry is all zero.
    pub open spec fn spec_is_empty(self) -> bool {
        self.bits == 0
    }

    /// The empty (non-present) entry.
    pub fn empty() -> (r: Self)
        ensures
            r.bits == 0,
            !r.spec_present(),
            r.spec_is_empty(),
    {
        Pte { bits: 0 }
    }

    /// Checks whether the entry is all zero.
    pub fn is_empty(&self) -> (r: bool)
        ensures
            r == self.spec_is_empty(),
    {
        self.bits == 0
    }

    /// Checks whether the entry is present.
    pub fn is_present(&self) -> (r: bool)
        ensures
            r == self.spec_present(),
    {
        self.bits % 2 == 1
    }

    /// Checks whether the entry maps a page rather than a next-level table.
    pub fn is_leaf(&self) -> (r: bool)
        ensures
            r == self.spec_leaf(),
    {
        (self.bits / 256) % 2 == 1
    }

    /// A new leaf entry mapping `paddr` with the given permissions.
    pub fn new_page(paddr: PhysAddr, flags: GenericMappingFlags) -> (r: Self)
        requires
            spec_is_aligned(paddr@, PAGE_SIZE as int),
        ensures
            r.spec_present(),
            r.spec_leaf(),
            !r.spec_is_empty(),
            r.spec_paddr() == paddr@,
            r.spec_flags() == flags,
    {
        let e = encode_group(true, true, flags);
        let q: u64 = (paddr.addr / PAGE_SIZE) as u64;
        let bits: u64 = q * 1024 + e;
        proof {
            lemma_group_extract(q as int, e as int);
            lemma_aligned_quot(paddr@);
        }
        Pte { bits }
    }

    /// A new non-leaf entry pointing at the table frame `paddr`.
    pub fn new_table(paddr: PhysAddr) -> (r: Self)
        requires
            spec_is_aligned(paddr@, PAGE_SIZE as int),
        ensures
            r.spec_present(),
            !r.spec_leaf(),
            !r.spec_is_empty(),
            r.spec_paddr() == paddr@,
    {
        let q: u64 = (paddr.addr / PAGE_SIZE) as u64;
        let bits: u64 = q * 1024 + 1;
        proof {
            lemma_group_extract(q as int, 1);
            lemma_aligned_quot(paddr@);
        }
        Pte { bits }
    }

    /// The physical address carried by the entry.
    pub fn paddr(&self) -> (r: PhysAddr)
        requires
            self.spec_paddr() <= usize::MAX,
        ensures
            r@ == self.spec_paddr(),
            spec_is_aligned(r@, PAGE_SIZE as int),
    {
        proof {
            vstd::arithmetic::div_mod::lemma_mod_multiples_basic((self.bits as int) / 1024, 4096);
        }
        PhysAddr { addr: ((self.bits / 1024) * 4096) as usize }
    }

    /// The permission flags carried by the entry.
    pub fn flags(&self) -> (r: GenericMappingFlags)
        ensures
            r == self.spec_flags(),
    {
        GenericMappingFlags {
            readable: (self.bits / 2) % 2 == 1,
            writable: (self.bits / 4) % 2 == 1,
            executable: (self.bits / 8) % 2 == 1,
            user: (self.bits / 16) % 2 == 1,
            kernel: (self.bits / 32) % 2 == 1,
            device: (self.bits / 64) % 2 == 1,
            uncached: (self.bits / 128) % 2 == 1,
        }
    }

    /// Replaces the physical address, keeping presence, leaf-ness and flags.
    pub fn set_paddr(&mut self, paddr: PhysAddr)
        requires
            spec_is_aligned(paddr@, PAGE_SIZE as int),
        ensures
            (final(self)).spec_paddr() == paddr@,
            (final(self)).spec_present() == old(self).spec_present(),
            (final(self)).spec_leaf() == old(self).spec_leaf(),
            (final(self)).spec_flags() == old(self).spec_flags(),
    {
        let e: u64 = self.bits % 1024;
        let q: u64 = (paddr.addr / PAGE_SIZE) as u64;
        let bits: u64 = q * 1024 + e;
        proof {
            let old_bits = old(self).bits as int;
            let old_q = old_bits / 1024;
            vstd::arithmetic::div_mod::lemma_fundamental_div_mod(old_bits, 1024);
            assert(old_q * 1024 + e == old_bits) by (nonlinear_arith)
                requires
                    old_bits == 1024 * old_q + e,
            ;
            vstd::arithmetic::div_mod::lemma_div_pos_is_pos(old_bits, 1024);
            lemma_group_extract(old_q, e as int);
            lemma_group_extract(q as int, e as int);
            lemma_aligned_quot(paddr@);
        }
        self.bits = bits;
    }

    /// Replaces the permission flags, keeping the physical address; the
    /// entry becomes a present leaf.
    pub fn set_flags(&mut self, flags: GenericMappingFlags)
        ensures
            (final(self)).spec_paddr() == old(self).spec_paddr(),
            (final(self)).spec_present(),
            (final(self)).spec_leaf(),
            (final(self)).spec_flags() == flags,
    {
        let e = encode_group(true, true, flags);
        let q: u64 = self.bits / 1024;
        let bits: u64 = q * 1024 + e;
        proof {
            lemma_group_extract(q as int, e as int);
        }
        self.bits = bits;
    }

    /// Zeroes the entry.
    pub fn clear(&mut self)
        ensures
            (final(self)).bits == 0,
            !(final(self)).spec_present(),
            (final(self)).spec_is_empty(),
    {
        self.bits = 0;
    }
}

/// One binary digit of a sum of scaled binary digits.
proof fn lemma_digit(low: int, c: int, high: int, d: int)
    requires
        d > 0,
        0 <= low < d,
        0 <= c <= 1,
        high >= 0,
    ensures
        ((low + d * c + 2 * d * high) / d) % 2 == c,
{
    let b = low + d * c + 2 * d * high;
    assert(low + d * c + 2 * d * high == (c + 2 * high) * d + low) by (nonlinear_arith);
    assert(c + 2 * high >= 0);
    vstd::arithmetic::div_mod::lemma_fundamental_div_mod_converse(b, d, c + 2 * high, low);
    vstd::arithmetic::div_mod::lemma_mod_multiples_vanish(high, c, 2);
    vstd::arithmetic::div_mod::lemma_small_mod(c as nat, 2);
}

/// The nine digit positions of an encoded flag group.
#[verifier::spinoff_prover]
proof fn lemma_encode_digits(p: int, r: int, w: int, x: int, u: int, g: int, d: int, n: int, l: int)
    requires
        0 <= p <= 1,
        0 <= r <= 1,
        0 <= w <= 1,
        0 <= x <= 1,
        0 <= u <= 1,
        0 <= g <= 1,
        0 <= d <= 1,
        0 <= n <= 1,
        0 <= l <= 1,
    ensures
        ({
            let e = p + 2 * r + 4 * w + 8 * x + 16 * u + 32 * g + 64 * d + 128 * n + 256 * l;
            &&& 0 <= e < 1024
            &&& e % 2 == p
            &&& (e / 2) % 2 == r
            &&& (e / 4) % 2 == w
            &&& (e / 8) % 2 == x
            &&& (e / 16) % 2 == u
            &&& (e / 32) % 2 == g
            &&& (e / 64) % 2 == d
            &&& (e / 128) % 2 == n
            &&& (e / 256) % 2 == l
        }),
{
    let e = p + 2 * r + 4 * w + 8 * x + 16 * u + 32 * g + 64 * d + 128 * n + 256 * l;
    lemma_digit(0, p, r + 2 * w + 4 * x + 8 * u + 16 * g + 32 * d + 64 * n + 128 * l, 1);
    assert(e / 1 == e) by {
        vstd::arithmetic::div_mod::lemma_fundamental_div_mod_converse(e, 1, e, 0);
    }
    assert(e % 2 == p) by {
        vstd::arithmetic::div_mod::lemma_mod_multiples_vanish(
            r + 2 * w + 4 * x + 8 * u + 16 * g + 32 * d + 64 * n + 128 * l,
            p,
            2,
        );
        vstd::arithmetic::div_mod::lemma_small_mod(p as nat, 2);
    }
    lemma_digit(p, r, w + 2 * x + 4 * u + 8 * g + 16 * d + 32 * n + 64 * l, 2);
    lemma_digit(p + 2 * r, w, x + 2 * u + 4 * g + 8 * d + 16 * n + 32 * l, 4);
    lemma_digit(p + 2 * r + 4 * w, x, u + 2 * g + 4 * d + 8 * n + 16 * l, 8);
    lemma_digit(p + 2 * r + 4 * w + 8 * x, u, g + 2 * d + 4 * n + 8 * l, 16);
    lemma_digit(p + 2 * r + 4 * w + 8 * x + 16 * u, g, d + 2 * n + 4 * l, 32);
    lemma_digit(p + 2 * r + 4 * w + 8 * x + 16 * u + 32 * g, d, n + 2 * l, 64);
    lemma_digit(p + 2 * r + 4 * w + 8 * x + 16 * u + 32 * g + 64 * d, n, l, 128);
    lemma_digit(p + 2 * r + 4 * w + 8 * x + 16 * u + 32 * g + 64 * d + 128 * n, l, 0, 256);
}

/// Encodes a flag-bit group.
#[verifier::rlimit(100)]
fn encode_group(present: bool, leaf: bool, flags: GenericMappingFlags) -> (e: u64)
    ensures
        0 <= e < 1024,
        (e as int) % 2 == (if present {
            1int
        } else {
            0int
        }),
        ((e as int) / 256) % 2 == (if leaf {
            1int
        } else {
            0int
        }),
        (Pte { bits: e }).spec_flags() == flags,
        present ==> e > 0,
{
    let e: u64 = (if present {
        1u64
    } else {
        0u64
    }) + (if flags.readable {
        2u64
    } else {
        0u64
    }) + (if flags.writable {
        4u64
    } else {
        0u64
    }) + (if flags.executable {
        8u64
    } else {
        0u64
    }) + (if flags.user {
        16u64
    } else {
        0u64
    }) + (if flags.kernel {
        32u64
    } else {
        0u64
    }) + (if flags.device {
        64u64
    } else {
        0u64
    }) + (if flags.uncached {
        128u64
    } else {
        0u64
    }) + (if leaf {
        256u64
    } else {
        0u64
    });
    proof {
        lemma_encode_digits(
            if present {
                1int
            } else {
                0int
            },
            if flags.readable {
                1int
            } else {
                0int
            },
            if flags.writable {
                1int
            } else {
                0int
            },
            if flags.executable {
                1int
            } else {
                0int
            },
            if flags.user {
                1int
            } else {
                0int
            },
            if flags.kernel {
                1int
            } else {
                0int
            },
            if flags.device {
                1int
            } else {
                0int
            },
            if flags.uncached {
                1int
            } else {
                0int
            },
            if leaf {
                1int
            } else {
                0int
            },
        );
    }
    e
}

/// A page-aligned address equals its page number times the page size.
proof fn lemma_aligned_quot(paddr: int)
    requires
        0 <= paddr,
        spec_is_aligned(paddr, PAGE_SIZE as int),
    ensures
        (paddr / 4096) * 4096 == paddr,
        paddr / 4096 >= 0,
    {
    vstd::arithmetic::div_mod::lemma_fundamental_div_mod(paddr, 4096);
    vstd::arithmetic::div_mod::lemma_div_pos_is_pos(paddr, 4096);
    assert((paddr / 4096) * 4096 == 4096 * (paddr / 4096)) by (nonlinear_arith);
}

/// One low-bit position of a packed word reads from the flag group alone.
proof fn lemma_extract_bit(q: int, e: int, d: int, m: int)
    requires
        q >= 0,
        0 <= e < 1024,
        d > 0,
        m > 0,
        d * m == 1024,
        m % 2 == 0,
    ensures
        ((q * 1024 + e) / d) % 2 == (e / d) % 2,
{
    let b = q * 1024 + e;
    vstd::arithmetic::div_mod::lemma_fundamental_div_mod(e, d);
    vstd::arithmetic::div_mod::lemma_div_pos_is_pos(e, d);
    assert(b == (q * m + e / d) * d + e % d) by (nonlinear_arith)
        requires
            d * m == 1024,
            e == d * (e / d) + e % d,
            b == q * 1024 + e,
    ;
    assert(q * m + e / d >= 0) by (nonlinear_arith)
        requires
            q >= 0,
            m > 0,
            e / d >= 0,
    ;
    vstd::arithmetic::div_mod::lemma_fundamental_div_mod_converse(b, d, q * m + e / d, e % d);
    vstd::arithmetic::div_mod::lemma_mod_multiples_vanish(q * (m / 2), e / d, 2);
    assert(2 * (q * (m / 2)) == q * m) by (nonlinear_arith)
        requires
            m % 2 == 0,
            m == 2 * (m / 2),
    ;
    vstd::arithmetic::div_mod::lemma_fundamental_div_mod(m, 2);
}

/// Every flag position of a packed word reads from the flag group alone, and
/// the page number and flag group separate exactly.
proof fn lemma_group_extract(q: int, e: int)
    requires
        q >= 0,
        0 <= e < 1024,
    ensures
        (q * 1024 + e) / 1024 == q,
        (q * 1024 + e) % 1024 == e,
        (q * 1024 + e) % 2 == e % 2,
        ((q * 1024 + e) / 2) % 2 == (e / 2) % 2,
        ((q * 1024 + e) / 4) % 2 == (e / 4) % 2,
        ((q * 1024 + e) / 8) % 2 == (e / 8) % 2,
        ((q * 1024 + e) / 16) % 2 == (e / 16) % 2,
        ((q * 1024 + e) / 32) % 2 == (e / 32) % 2,
        ((q * 1024 + e) / 64) % 2 == (e / 64) % 2,
        ((q * 1024 + e) / 128) % 2 == (e / 128) % 2,
        ((q * 1024 + e) / 256) % 2 == (e / 256) % 2,
    {
    vstd::arithmetic::div_mod::lemma_fundamental_div_mod_converse(q * 1024 + e, 1024, q, e);
    lemma_extract_bit(q, e, 1, 1024);
    assert((q * 1024 + e) / 1 == q * 1024 + e && e / 1 == e) by {
        vstd::arithmetic::div_mod::lemma_div_by_self(1);
        vstd::arithmetic::div_mod::lemma_fundamental_div_mod_converse(q * 1024 + e, 1, q * 1024 + e, 0);
        vstd::arithmetic::div_mod::lemma_fundamental_div_mod_converse(e, 1, e, 0);
    }
    lemma_extract_bit(q, e, 2, 512);
    lemma_extract_bit(q, e, 4, 256);
    lemma_extract_bit(q, e, 8, 128);
    lemma_extract_bit(q, e, 16, 64);
    lemma_extract_bit(q, e, 32, 32);
    lemma_extract_bit(q, e, 64, 16);
    lemma_extract_bit(q, e, 128, 8);
    lemma_extract_bit(q, e, 256, 4);
}

} // verus!
