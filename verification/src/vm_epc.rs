//! The decisions about enclave memory (EPC): how the user space is laid out between reserved
//! memory, committed when the enclave loads, and user region memory, committed on demand.
//!
//! Addr low -> high:
//! reserved memory | gap range (used by the SDK) | user region memory.
//! Platforms without EDMM support only use reserved memory.
use vstd::prelude::*;
use crate::errno::Errno;
use crate::vm_perms::{VMPerms, VM_PERM_GROWSDOWN, VM_PERM_DEFAULT, VM_PERM_ALL, VM_PERM_NONE};
use crate::vm_range::{VMRange, subtract_spec, lemma_subtract_spec, PAGE_SIZE};

verus! {

/// Whether the platform supports EDMM.
#[derive(Clone, Copy, Debug, PartialEq, Eq, Structural)]
pub enum SGXPlatform {
    WithEDMM,
    NoEDMM,
}

/// The kind of enclave memory a range lies in.
#[derive(Clone, Copy, Debug, PartialEq, Eq, Structural)]
pub enum EPCMemType {
    Reserved,
    UserRegion,
}

/// Memory committed when the enclave loads.
pub struct ReservedMem;

/// Memory committed on demand, when a page fault occurs.
pub struct UserRegionMem;

/// An allocator of enclave memory, by the kind of memory it hands out.
pub trait EPCAllocator {
    fn mem_type() -> (r: EPCMemType);
}

impl EPCAllocator for ReservedMem {
    fn mem_type() -> (r: EPCMemType)
        ensures
            r == EPCMemType::Reserved,
    {
        EPCMemType::Reserved
    }
}

impl EPCAllocator for UserRegionMem {
    fn mem_type() -> (r: EPCMemType)
        ensures
            r == EPCMemType::UserRegion,
    {
        EPCMemType::UserRegion
    }
}

/// Whether a user space of `init_size` bytes growing to `max_size` gets user region memory.
pub open spec fn has_user_region(p: SGXPlatform, init_size: usize, max_size: usize) -> bool {
    p == SGXPlatform::WithEDMM && max_size > init_size
}

impl SGXPlatform {
    /// The platform, from whether it supports EDMM (simulation mode does not).
    pub fn from_edmm_support(supported: bool) -> (r: Self)
        ensures
            r == (if supported { SGXPlatform::WithEDMM } else { SGXPlatform::NoEDMM }),
    {
        if supported {
            SGXPlatform::WithEDMM
        } else {
            SGXPlatform::NoEDMM
        }
    }

    /// How much reserved memory a user space of `init_size` bytes growing to `max_size` takes,
    /// and how much user region memory: with EDMM and room to grow, `init_size` bytes of
    /// reserved memory and the rest on demand; otherwise `max_size` bytes of reserved memory.
    pub fn user_space_sizes(&self, init_size: usize, max_size: usize) -> (r: (usize, Option<usize>))
        ensures
            has_user_region(*self, init_size, max_size) ==> r == (init_size, Some((max_size - init_size) as usize)),
            !has_user_region(*self, init_size, max_size) ==> r == (max_size, None::<usize>),
    {
        match self {
            SGXPlatform::WithEDMM => {
                if max_size > init_size {
                    return (init_size, Some(max_size - init_size));
                }
            },
            SGXPlatform::NoEDMM => {},
        }
        (max_size, None)
    }

    /// The user space and its gap, once reserved memory was allocated at `reserved_start` and,
    /// when the platform uses it, user region memory at `user_region_start`: the user space
    /// runs from the reserved memory to the end of the user region, and the gap lies between
    /// them. Without user region memory the user space is the `max_size` bytes of reserved
    /// memory, with no gap.
    pub fn alloc_user_space(&self, init_size: usize, max_size: usize, reserved_start: usize, user_region_start: usize)
        -> (r: Result<(VMRange, Option<VMRange>), Errno>)
        requires
            has_user_region(*self, init_size, max_size) ==> user_region_start + (max_size - init_size) <= usize::MAX
                && reserved_start + init_size <= usize::MAX,
            !has_user_region(*self, init_size, max_size) ==> reserved_start + max_size <= usize::MAX,
        ensures
            has_user_region(*self, init_size, max_size) ==> {
                let end = user_region_start + (max_size - init_size);
                let gap_start = reserved_start + init_size;
                &&& (r is Err <==> reserved_start % PAGE_SIZE != 0 || end % (PAGE_SIZE as int) != 0 || reserved_start > end
                    || gap_start % (PAGE_SIZE as int) != 0 || user_region_start % PAGE_SIZE != 0 || gap_start > user_region_start)
                &&& (r matches Ok((total, gap)) ==> total == VMRange { start: reserved_start, end: end as usize }
                    && gap == Some(VMRange { start: gap_start as usize, end: user_region_start }))
            },
            !has_user_region(*self, init_size, max_size) ==> {
                let end = reserved_start + max_size;
                &&& (r is Err <==> reserved_start % PAGE_SIZE != 0 || end % (PAGE_SIZE as int) != 0)
                &&& (r matches Ok((total, gap)) ==> total == VMRange { start: reserved_start, end: end as usize } && gap is None)
            },
            r is Err ==> r == Err::<(VMRange, Option<VMRange>), Errno>(Errno::EINVAL),
    {
        let (_, user_region) = self.user_space_sizes(init_size, max_size);
        match user_region {
            Some(user_region_size) => {
                let total_user_space_range = VMRange::new(reserved_start, user_region_start + user_region_size)?;
                let gap_range = VMRange::new(reserved_start + init_size, user_region_start)?;
                Ok((total_user_space_range, Some(gap_range)))
            },
            None => {
                let total_user_space_range = VMRange::new(reserved_start, reserved_start + max_size)?;
                Ok((total_user_space_range, None))
            },
        }
    }

    /// The memory to give back for a user space: with a gap, the reserved memory before it and
    /// the user region memory after it; without, the whole user space as reserved memory.
    pub fn free_user_space(&self, user_space_range: &VMRange, gap_range: Option<&VMRange>) -> (r: Vec<(EPCMemType, VMRange)>)
        requires
            user_space_range.wf(),
            gap_range matches Some(g) ==> g.wf() && subtract_spec(*user_space_range, *g).len() > 0,
        ensures
            match gap_range {
                Some(g) => {
                    let parts = subtract_spec(*user_space_range, *g);
                    if parts.len() == 2 {
                        r@ == seq![(EPCMemType::Reserved, parts[0]), (EPCMemType::UserRegion, parts[1])]
                    } else {
                        r@ == seq![(EPCMemType::Reserved, parts[0])]
                    }
                },
                None => r@ == seq![(EPCMemType::Reserved, *user_space_range)],
            },
    {
        let user_space_ranges = match gap_range {
            Some(g) => user_space_range.subtract(g),
            None => {
                let mut v = Vec::new();
                v.push(*user_space_range);
                v
            },
        };
        let mut out: Vec<(EPCMemType, VMRange)> = Vec::new();
        if user_space_ranges.len() == 2 {
            out.push((EPCMemType::Reserved, user_space_ranges[0]));
            out.push((EPCMemType::UserRegion, user_space_ranges[1]));
        } else {
            proof {
                if let Some(g) = gap_range {
                    lemma_subtract_spec(*user_space_range, *g);
                }
            }
            out.push((EPCMemType::Reserved, user_space_ranges[0]));
        }
        proof {
            if gap_range is None {
                assert(out@ =~= seq![(EPCMemType::Reserved, *user_space_range)]);
            } else if user_space_ranges@.len() == 2 {
                assert(out@ =~= seq![(EPCMemType::Reserved, user_space_ranges@[0]), (EPCMemType::UserRegion, user_space_ranges@[1])]);
            } else {
                assert(out@ =~= seq![(EPCMemType::Reserved, user_space_ranges@[0])]);
            }
        }
        out
    }
}

/// A change of protection for enclave memory, as the allocator of its kind carries it out.
#[derive(Clone, Copy, Debug, PartialEq, Eq, Structural)]
pub struct ProtectionChange {
    pub mem_type: EPCMemType,
    pub addr: usize,
    pub length: usize,
    pub current: VMPerms,
    pub new: VMPerms,
}

impl EPCMemType {
    /// The kind of memory of `range`: with EDMM support and a gap, a range that ends before
    /// the gap is reserved memory and any other is user region memory; otherwise reserved.
    pub fn new(range: &VMRange, edmm_supported: bool, gap_range: Option<VMRange>) -> (r: Self)
        ensures
            r == (if edmm_supported && gap_range is Some && range.end > gap_range->0.start {
                EPCMemType::UserRegion
            } else {
                EPCMemType::Reserved
            }),
    {
        if edmm_supported {
            match gap_range {
                Some(gap) => {
                    if range.end() <= gap.start() {
                        EPCMemType::Reserved
                    } else {
                        EPCMemType::UserRegion
                    }
                },
                None => EPCMemType::Reserved,
            }
        } else {
            EPCMemType::Reserved
        }
    }

    /// The protection change to carry out for `[addr, addr + length)`: the stack-direction bit
    /// is dropped from both permissions, as the memory is managed here and the host would
    /// refuse it.
    pub fn modify_protection(&self, addr: usize, length: usize, current_protection: VMPerms, new_protection: VMPerms) -> (r: ProtectionChange)
        ensures
            r == (ProtectionChange {
                mem_type: *self,
                addr,
                length,
                current: VMPerms { bits: current_protection.bits & !VM_PERM_GROWSDOWN },
                new: VMPerms { bits: new_protection.bits & !VM_PERM_GROWSDOWN },
            }),
    {
        let mut prot = new_protection;
        let mut current_prot = current_protection;
        prot.remove(VMPerms { bits: VM_PERM_GROWSDOWN });
        current_prot.remove(VMPerms { bits: VM_PERM_GROWSDOWN });
        ProtectionChange { mem_type: *self, addr, length, current: current_prot, new: prot }
    }
}

/// How user region memory is committed.
#[derive(Clone, Copy, Debug, PartialEq, Eq, Structural)]
pub enum CommitPlan {
    /// Commit the pages with the default permissions.
    Plain { start: usize, size: usize },
    /// Commit zeroed pages and set their permissions at once, so that no other thread sees
    /// them with the default permissions.
    WithPermission { start: usize, size: usize, perms: VMPerms },
}

/// How to commit `[start_addr, start_addr + size)` with `new_perms`: permissions other than
/// the default ones are set together with the commit.
pub fn commit_memory(start_addr: usize, size: usize, new_perms: Option<VMPerms>) -> (r: CommitPlan)
    ensures
        r == match new_perms {
            Some(p) if p.bits != VM_PERM_DEFAULT => CommitPlan::WithPermission { start: start_addr, size, perms: p },
            _ => CommitPlan::Plain { start: start_addr, size },
        },
{
    match new_perms {
        Some(perms) => {
            if perms.bits() != VM_PERM_DEFAULT {
                CommitPlan::WithPermission { start: start_addr, size, perms }
            } else {
                CommitPlan::Plain { start: start_addr, size }
            }
        },
        None => CommitPlan::Plain { start: start_addr, size },
    }
}

/// The steps of a permission change of committed user region pages, for each page.
#[derive(Clone, Copy, Debug, PartialEq, Eq, Structural)]
pub struct PermChangeSteps {
    /// Extend the permissions of the page from inside the enclave (new bits are added).
    pub extend: bool,
    /// Accept the restricted permissions (the new ones are not all permissions).
    pub accept: bool,
    /// Set the host mapping to no access afterwards (the new permissions are none).
    pub to_none: bool,
}

/// The steps to change the permissions of committed pages from `current` to `new`; nothing
/// when they are equal.
pub fn perm_change_steps(current: VMPerms, new: VMPerms) -> (r: Option<PermChangeSteps>)
    ensures
        current.bits == new.bits <==> r is None,
        r matches Some(s) ==> s == (PermChangeSteps {
            extend: (new.bits | current.bits) != current.bits,
            accept: new.bits != VM_PERM_ALL,
            to_none: new.bits == VM_PERM_NONE,
        }),
{
    if current.bits() == new.bits() {
        return None;
    }
    Some(PermChangeSteps {
        extend: (new.bits() | current.bits()) != current.bits(),
        accept: new.bits() != VM_PERM_ALL,
        to_none: new.bits() == VM_PERM_NONE,
    })
}

} // verus!
