//! Hardware-independent mapping permission flags.

use vstd::prelude::*;

verus! {

/// The permission set of a mapping.
///
/// The `user` bit separates a user-accessible mapping from a kernel-private
/// one; the `kernel` bit marks global/kernel-half mappings. The stable bit
/// layout across the interface is given by [`GenericMappingFlags::bits`]:
/// bit 0 readable, bit 1 writable, bit 2 executable, bit 3 user,
/// bit 4 kernel, bit 5 device, bit 6 uncached.
#[derive(Clone, Copy, PartialEq, Eq, Structural, Debug)]
pub struct GenericMappingFlags {
    pub readable: bool,
    pub writable: bool,
    pub executable: bool,
    pub user: bool,
    pub kernel: bool,
    pub device: bool,
    pub uncached: bool,
}

impl GenericMappingFlags {
    /// The union of two permission sets, as a spec-level function.
    pub open spec fn spec_union(self, other: Self) -> Self {
        GenericMappingFlags {
            readable: self.readable || other.readable,
            writable: self.writable || other.writable,
            executable: self.executable || other.executable,
            user: self.user || other.user,
            kernel: self.kernel || other.kernel,
            device: self.device || other.device,
            uncached: self.uncached || other.uncached,
        }
    }

    /// Whether every permission of `other` is present in `self`.
    pub open spec fn spec_contains(self, other: Self) -> bool {
        &&& other.readable ==> self.readable
        &&& other.writable ==> self.writable
        &&& other.executable ==> self.executable
        &&& other.user ==> self.user
        &&& other.kernel ==> self.kernel
        &&& other.device ==> self.device
        &&& other.uncached ==> self.uncached
    }

    /// The empty permission set.
    pub fn empty() -> (r: Self)
        ensures
            r == (GenericMappingFlags {
                readable: false,
                writable: false,
                executable: false,
                user: false,
                kernel: false,
                device: false,
                uncached: false,
            }),
    {
        GenericMappingFlags {
            readable: false,
            writable: false,
            executable: false,
            user: false,
            kernel: false,
            device: false,
            uncached: false,
        }
    }

    /// The set holding only the readable permission.
    pub fn readable() -> (r: Self)
        ensures
            r == (GenericMappingFlags { readable: true, ..Self::spec_empty() }),
    {
        GenericMappingFlags { readable: true, ..Self::empty() }
    }

    /// The set holding only the writable permission.
    pub fn writable() -> (r: Self)
        ensures
            r == (GenericMappingFlags { writable: true, ..Self::spec_empty() }),
    {
        GenericMappingFlags { writable: true, ..Self::empty() }
    }

    /// The set holding only the executable permission.
    pub fn executable() -> (r: Self)
        ensures
            r == (GenericMappingFlags { executable: true, ..Self::spec_empty() }),
    {
        GenericMappingFlags { executable: true, ..Self::empty() }
    }

    /// The set holding only the user permission.
    pub fn user() -> (r: Self)
        ensures
            r == (GenericMappingFlags { user: true, ..Self::spec_empty() }),
    {
        GenericMappingFlags { user: true, ..Self::empty() }
    }

    /// The set holding only the kernel permission.
    pub fn kernel() -> (r: Self)
        ensures
            r == (GenericMappingFlags { kernel: true, ..Self::spec_empty() }),
    {
        GenericMappingFlags { kernel: true, ..Self::empty() }
    }

    /// The set holding only the device permission.
    pub fn device() -> (r: Self)
        ensures
            r == (GenericMappingFlags { device: true, ..Self::spec_empty() }),
    {
        GenericMappingFlags { device: true, ..Self::empty() }
    }

    /// The set holding only the uncached permission.
    pub fn uncached() -> (r: Self)
        ensures
            r == (GenericMappingFlags { uncached: true, ..Self::spec_empty() }),
    {
        GenericMappingFlags { uncached: true, ..Self::empty() }
    }

    /// The empty permission set, as a spec-level value.
    pub open spec fn spec_empty() -> Self {
        GenericMappingFlags {
            readable: false,
            writable: false,
            executable: false,
            user: false,
            kernel: false,
            device: false,
            uncached: false,
        }
    }

    /// The union of two permission sets.
    pub fn union(self, other: Self) -> (r: Self)
        ensures
            r == self.spec_union(other),
    {
        GenericMappingFlags {
            readable: self.readable || other.readable,
            writable: self.writable || other.writable,
            executable: self.executable || other.executable,
            user: self.user || other.user,
            kernel: self.kernel || other.kernel,
            device: self.device || other.device,
            uncached: self.uncached || other.uncached,
        }
    }

    /// Whether every permission of `other` is present in `self`.
    pub fn contains(self, other: Self) -> (r: bool)
        ensures
            r == self.spec_contains(other),
    {
        (!other.readable || self.readable) && (!other.writable || self.writable) && (
        !other.executable || self.executable) && (!other.user || self.user) && (!other.kernel
            || self.kernel) && (!other.device || self.device) && (!other.uncached || self.uncached)
    }

    /// The stable bit layout of the permission set.
    pub fn bits(self) -> (r: u8)
        ensures
            r == Self::spec_bits(self),
    {
        let mut b: u8 = 0;
        if self.readable {
            b = b + 1;
        }
        if self.writable {
            b = b + 2;
        }
        if self.executable {
            b = b + 4;
        }
        if self.user {
            b = b + 8;
        }
        if self.kernel {
            b = b + 16;
        }
        if self.device {
            b = b + 32;
        }
        if self.uncached {
            b = b + 64;
        }
        b
    }

    /// The stable bit layout, as a spec-level function: bit 0 readable,
    /// bit 1 writable, bit 2 executable, bit 3 user, bit 4 kernel,
    /// bit 5 device, bit 6 uncached.
    pub open spec fn spec_bits(self) -> u8 {
        ((if self.readable {
            1int
        } else {
            0int
        }) + (if self.writable {
            2int
        } else {
            0int
        }) + (if self.executable {
            4int
        } else {
            0int
        }) + (if self.user {
            8int
        } else {
            0int
        }) + (if self.kernel {
            16int
        } else {
            0int
        }) + (if self.device {
            32int
        } else {
            0int
        }) + (if self.uncached {
            64int
        } else {
            0int
        })) as u8
    }

    /// Decodes the stable bit layout.
    #[verifier::rlimit(50)]
    pub fn from_bits(bits: u8) -> (r: Self)
        requires
            bits < 128,
        ensures
            Self::spec_bits(r) == bits,
            r.readable == ((bits as int) % 2 == 1),
            r.writable == ((bits as int) / 2 % 2 == 1),
            r.executable == ((bits as int) / 4 % 2 == 1),
            r.user == ((bits as int) / 8 % 2 == 1),
            r.kernel == ((bits as int) / 16 % 2 == 1),
            r.device == ((bits as int) / 32 % 2 == 1),
            r.uncached == ((bits as int) / 64 % 2 == 1),
    {
        GenericMappingFlags {
            readable: bits % 2 == 1,
            writable: bits / 2 % 2 == 1,
            executable: bits / 4 % 2 == 1,
            user: bits / 8 % 2 == 1,
            kernel: bits / 16 % 2 == 1,
            device: bits / 32 % 2 == 1,
            uncached: bits / 64 % 2 == 1,
        }
    }
}

} // verus!
