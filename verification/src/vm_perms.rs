use vstd::prelude::*;
use vstd::string::*;
use crate::errno::Errno;

verus! {

/// No access.
pub const VM_PERM_NONE: u32 = 0x0;
/// Readable.
pub const VM_PERM_READ: u32 = 0x1;
/// Writable.
pub const VM_PERM_WRITE: u32 = 0x2;
/// Executable.
pub const VM_PERM_EXEC: u32 = 0x4;
/// Readable and writable.
pub const VM_PERM_DEFAULT: u32 = 0x3;
/// Readable, writable and executable.
pub const VM_PERM_ALL: u32 = 0x7;
/// The stack grows downwards.
pub const VM_PERM_GROWSDOWN: u32 = 0x01000000;
/// Every bit that names a permission.
pub const VM_PERM_KNOWN_BITS: u32 = 0x01000007;

/// Memory access permissions, a set of bits.
#[derive(Clone, Copy, Debug, PartialEq, Eq, Structural)]
pub struct VMPerms {
    pub bits: u32,
}

impl VMPerms {
    /// Whether every bit of `other` is set in `self`.
    pub open spec fn has(&self, other: u32) -> bool {
        self.bits & other == other
    }

    pub fn none() -> (r: VMPerms)
        ensures
            r.bits == VM_PERM_NONE,
    {
        VMPerms { bits: VM_PERM_NONE }
    }

    pub fn read() -> (r: VMPerms)
        ensures
            r.bits == VM_PERM_READ,
    {
        VMPerms { bits: VM_PERM_READ }
    }

    pub fn write() -> (r: VMPerms)
        ensures
            r.bits == VM_PERM_WRITE,
    {
        VMPerms { bits: VM_PERM_WRITE }
    }

    pub fn exec() -> (r: VMPerms)
        ensures
            r.bits == VM_PERM_EXEC,
    {
        VMPerms { bits: VM_PERM_EXEC }
    }

    pub fn rw() -> (r: VMPerms)
        ensures
            r.bits == VM_PERM_DEFAULT,
    {
        VMPerms { bits: VM_PERM_DEFAULT }
    }

    pub fn all() -> (r: VMPerms)
        ensures
            r.bits == VM_PERM_ALL,
    {
        VMPerms { bits: VM_PERM_ALL }
    }

    pub fn bits(&self) -> (r: u32)
        ensures
            r == self.bits,
    {
        self.bits
    }

    /// The permissions named by `bits`; bits that name no permission are refused, and any
    /// permission other than none implies read.
    pub fn from_u32(bits: u32) -> (r: Result<VMPerms, Errno>)
        ensures
            r is Err <==> bits & !VM_PERM_KNOWN_BITS != 0,
            r is Err ==> r == Err::<VMPerms, Errno>(Errno::EINVAL),
            r matches Ok(p) ==> p.bits == (if bits == 0 { 0u32 } else { bits | VM_PERM_READ }),
    {
        if bits & !VM_PERM_KNOWN_BITS != 0 {
            return Err(Errno::EINVAL);
        }
        let mut perms = VMPerms { bits };
        // SGX SDK doesn't accept permissions like write or exec without read.
        if perms.bits != VM_PERM_NONE {
            perms.bits = perms.bits | VM_PERM_READ;
        }
        Ok(perms)
    }

    /// Whether all of the bits of `other` are set.
    pub fn contains(&self, other: VMPerms) -> (r: bool)
        ensures
            r == self.has(other.bits),
    {
        self.bits & other.bits == other.bits
    }

    /// Clear the bits of `other`.
    pub fn remove(&mut self, other: VMPerms)
        ensures
            final(self).bits == old(self).bits & !other.bits,
    {
        self.bits = self.bits & !other.bits;
    }

    /// Set the bits of `other`.
    pub fn insert(&mut self, other: VMPerms)
        ensures
            final(self).bits == old(self).bits | other.bits,
    {
        self.bits = self.bits | other.bits;
    }

    pub fn can_read(&self) -> (r: bool)
        ensures
            r == self.has(VM_PERM_READ),
    {
        self.bits & VM_PERM_READ == VM_PERM_READ
    }

    pub fn can_write(&self) -> (r: bool)
        ensures
            r == self.has(VM_PERM_WRITE),
    {
        self.bits & VM_PERM_WRITE == VM_PERM_WRITE
    }

    pub fn can_execute(&self) -> (r: bool)
        ensures
            r == self.has(VM_PERM_EXEC),
    {
        self.bits & VM_PERM_EXEC == VM_PERM_EXEC
    }

    /// Whether the permissions are exactly read and write.
    pub fn is_default(&self) -> (r: bool)
        ensures
            r == (self.bits == VM_PERM_DEFAULT),
    {
        self.bits == VM_PERM_DEFAULT
    }

    /// The permissions as three characters, `r`, `w` and `x`, each replaced by `-` when absent.
    pub fn display(&self) -> (s: String)
        ensures
            s@ == seq![
                if self.has(VM_PERM_READ) { 'r' } else { '-' },
                if self.has(VM_PERM_WRITE) { 'w' } else { '-' },
                if self.has(VM_PERM_EXEC) { 'x' } else { '-' },
            ],
    {
        let mut s = String::new();
        proof {
            reveal_strlit("r");
            reveal_strlit("w");
            reveal_strlit("x");
            reveal_strlit("-");
        }
        if self.can_read() {
            s.append("r");
        } else {
            s.append("-");
        }
        if self.can_write() {
            s.append("w");
        } else {
            s.append("-");
        }
        if self.can_execute() {
            s.append("x");
        } else {
            s.append("-");
        }
        s
    }
}

impl Default for VMPerms {
    fn default() -> (r: VMPerms)
        ensures
            r.bits == VM_PERM_DEFAULT,
    {
        VMPerms { bits: VM_PERM_DEFAULT }
    }
}

} // verus!
