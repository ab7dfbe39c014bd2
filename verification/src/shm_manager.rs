//! Shared file mappings (`mmap` with `MAP_SHARED`): each file shared by processes has one
//! shared area, and a new shared mapping of the file reuses, grows or replaces it.
use vstd::prelude::*;
use std::collections::HashMap;
use crate::errno::Errno;
use crate::vm_area::{VMArea, VMAreaView, AccessView, pid_t};
use crate::vm_perms::VMPerms;
use crate::vm_range::VMRange;
use crate::vm_util::{VMMapOptions, VMMapAddr, FileRef};

verus! {

broadcast use vstd::std_specs::hash::group_hash_axioms;

/// The inode number of a file.
pub type InodeId = usize;

/// How the caller names a chunk of memory that holds one shared area.
pub type ChunkId = u64;

/// Result types of `mmap()` with `MAP_SHARED`.
#[derive(Clone, Copy, Debug, PartialEq, Eq, Structural)]
pub enum MmapSharedResult {
    /// Can share successfully, at this address.
    Success(usize),
    /// Need to create a new shared chunk.
    NeedCreate,
    /// The shared chunk needs to grow by this range.
    NeedExpand(ChunkId, VMRange),
    /// The shared chunk needs to be replaced to satisfy the new request.
    NeedReplace(ChunkId),
}

/// Result types of unmapping a shared memory chunk.
/// This could come from `munmap()` or `mremap` request.
#[derive(Clone, Copy, Debug, PartialEq, Eq, Structural)]
pub enum MunmapSharedResult {
    /// Current shared chunk is still being shared and used by other processes
    StillInUse,
    /// All shared processes are detached, the chunk can be freed
    Freeable,
}

/// Flags used when unmapping a chunk.
#[derive(Clone, Copy, Debug, PartialEq, Eq, Structural)]
pub enum MunmapChunkFlag {
    /// Indicates normal behavior when munamp a shared chunk
    Default,
    /// Indicates the shared chunk must be freed entirely
    Force,
    /// Indicates the shared chunk must detach current process totally
    OnProcessExit,
}

/// The permissions of a shared area after a request for `new_perms`: they only grow.
pub open spec fn raised_perms(old: VMPerms, new_perms: VMPerms) -> VMPerms {
    VMPerms { bits: new_perms.bits | old.bits }
}

/// A change of permissions of the committed pages of an area, from the first to the second.
pub open spec fn perms_change(old: VMPerms, new_perms: VMPerms) -> Option<(VMPerms, VMPerms)> {
    if raised_perms(old, new_perms) == old { None } else { Some((old, raised_perms(old, new_perms))) }
}

/// Whether the shared area `l` can grow by `range`, mapped from `file` at `offset` with `perms`:
/// both nonempty, `range` starts where `l` ends, same permissions, and the same file continuing
/// from `l`.
pub open spec fn can_expand_spec(l: VMAreaView, range: VMRange, file: FileRef, offset: usize, perms: VMPerms) -> bool {
    &&& l.range.spec_size() > 0
    &&& range.spec_size() > 0
    &&& l.range.end == range.start
    &&& l.perms == perms
    &&& l.writeback_file() matches Some((lf, lo)) && lf == file && offset > lo && offset - lo == l.range.spec_size()
}

/// Where a shared mapping of `size` bytes of the file at `offset` with no fixed address lands
/// in the shared area `l`, if it fits.
pub open spec fn shared_target_any(l: VMAreaView, offset: usize, size: usize) -> Option<usize> {
    let lo = match l.writeback_file() { Some((_, o)) => o, None => 0 };
    if offset == lo && size <= l.range.spec_size() {
        Some(l.range.start)
    } else if offset > lo && offset - lo + size <= l.range.spec_size() {
        Some((l.range.start + offset - lo) as usize)
    } else {
        None
    }
}

/// The address that a request fixes, if it does.
pub open spec fn fixed_addr(addr: VMMapAddr) -> Option<usize> {
    match addr {
        VMMapAddr::Need(a) | VMMapAddr::Force(a) => Some(a),
        _ => None,
    }
}

/// The shared mappings: the chunk shared for each file.
#[derive(Debug)]
pub struct ShmManager {
    shared_chunks: HashMap<InodeId, ChunkId>,
}

impl View for ShmManager {
    type V = Map<InodeId, ChunkId>;

    closed spec fn view(&self) -> Map<InodeId, ChunkId> {
        self.shared_chunks@
    }
}

impl ShmManager {
    pub fn new() -> (r: Self)
        ensures
            r@ == Map::<InodeId, ChunkId>::empty(),
    {
        ShmManager { shared_chunks: HashMap::new() }
    }

    /// The chunk shared for the file `inode_id`, if any.
    pub fn shared_chunk_of(&self, inode_id: InodeId) -> (r: Option<ChunkId>)
        ensures
            r == (if self@.contains_key(inode_id) { Some(self@[inode_id]) } else { None::<ChunkId> }),
    {
        match self.shared_chunks.get(&inode_id) {
            Some(c) => Some(*c),
            None => None,
        }
    }

    /// The first step of a shared mapping request for the file `inode_id`: the request must
    /// qualify for sharing, and then the chunk already shared for the file, if any, is the
    /// one whose area the request goes to.
    pub fn shared_chunk_for(&self, options: &VMMapOptions, is_regular_file: bool, inode_id: InodeId) -> (r: Result<Option<ChunkId>, Errno>)
        ensures
            !(options.spec_writeback_file() is Some && is_regular_file) ==> r == Err::<Option<ChunkId>, Errno>(Errno::EINVAL),
            (options.spec_writeback_file() is Some && is_regular_file) ==> r == Ok::<Option<ChunkId>, Errno>(
                if self@.contains_key(inode_id) { Some(self@[inode_id]) } else { None::<ChunkId> }),
    {
        Self::qualified_for_sharing(options, is_regular_file)?;
        Ok(self.shared_chunk_of(inode_id))
    }

    /// A request can be shared when it writes back to a file, and the file is a regular one.
    pub fn qualified_for_sharing(options: &VMMapOptions, is_regular_file: bool) -> (r: Result<(), Errno>)
        ensures
            r is Ok <==> options.spec_writeback_file() is Some && is_regular_file,
            r is Err ==> r == Err::<(), Errno>(Errno::EINVAL),
    {
        if options.writeback_file().is_none() {
            return Err(Errno::EINVAL);
        }
        if !is_regular_file {
            return Err(Errno::EINVAL);
        }
        Ok(())
    }

    /// Raise the permissions of the shared area `vma` to include `new_perms`; returns the change
    /// to make to its committed pages, if the permissions grew.
    pub fn apply_new_perms_if_higher(vma: &mut VMArea, new_perms: VMPerms) -> (r: Option<(VMPerms, VMPerms)>)
        ensures
            r == perms_change(old(vma)@.perms, new_perms),
            final(vma)@ == (VMAreaView { perms: raised_perms(old(vma)@.perms, new_perms), ..old(vma)@ }),
    {
        let old_perms = vma.perms();
        let perms = VMPerms { bits: new_perms.bits() | old_perms.bits() };
        if perms == old_perms {
            return None;
        }
        vma.set_perms(perms);
        Some((old_perms, perms))
    }

    /// Whether the shared area `lhs` can grow by `rhs_range`, mapped from `rhs_file` at
    /// `rhs_offset` with `rhs_perms`.
    pub fn can_expand_shared_vma(lhs: &VMArea, rhs_range: &VMRange, rhs_file: FileRef, rhs_offset: usize, rhs_perms: &VMPerms) -> (r: bool)
        requires
            lhs@.range.wf(),
            rhs_range.wf(),
        ensures
            r == can_expand_spec(lhs@, *rhs_range, rhs_file, rhs_offset, *rhs_perms),
    {
        let (lhs_file, lhs_file_offset) = match lhs.writeback_file() {
            Some(w) => w,
            None => {
                return false;
            },
        };
        if lhs.size() == 0 || rhs_range.size() == 0 {
            return false;
        }
        if lhs.end() != rhs_range.start() {
            return false;
        }
        if lhs.perms() != *rhs_perms {
            return false;
        }
        lhs_file.id == rhs_file.id && rhs_offset > lhs_file_offset && rhs_offset - lhs_file_offset == lhs.size()
    }

    /// A shared mapping request of process `current_pid` for the file `inode_id` (a regular
    /// file or not), given the shared area of that file when there is one: with no shared
    /// chunk yet, one must be created; when the request fits in the shared area, the process
    /// shares it (the permissions only grow); when it continues the area right after it, the
    /// chunk must grow; otherwise an area that the process holds alone must be replaced, and
    /// one shared with others refuses the request. On success the change to make to the
    /// committed pages' permissions is returned too.
    #[verifier::spinoff_prover]
    #[verifier::rlimit(30)]
    pub fn mmap_shared_chunk(&mut self, options: &VMMapOptions, is_regular_file: bool, inode_id: InodeId,
        shared_vma: &mut VMArea, current_pid: pid_t) -> (r: Result<(MmapSharedResult, Option<(VMPerms, VMPerms)>), Errno>)
        requires
            old(self)@.contains_key(inode_id) ==> {
                &&& old(shared_vma)@.range.wf()
                &&& old(shared_vma)@.writeback_file() is Some
                &&& old(shared_vma)@.access matches AccessView::Shared(m) && (m.contains_key(current_pid) ==> m[current_pid] < u32::MAX)
            },
            options.spec_addr() matches VMMapAddr::Need(a) ==> a + options.spec_size() <= usize::MAX,
            options.spec_addr() matches VMMapAddr::Force(a) ==> a + options.spec_size() <= usize::MAX,
        ensures
            final(self)@ == old(self)@,
            !(options.spec_writeback_file() is Some && is_regular_file) ==> r == Err::<(MmapSharedResult, Option<(VMPerms, VMPerms)>), Errno>(Errno::EINVAL),
            (options.spec_writeback_file() is Some && is_regular_file && !old(self)@.contains_key(inode_id))
                ==> r == Ok::<(MmapSharedResult, Option<(VMPerms, VMPerms)>), Errno>((MmapSharedResult::NeedCreate, None)),
            r is Err ==> r == Err::<(MmapSharedResult, Option<(VMPerms, VMPerms)>), Errno>(Errno::EINVAL),
            r matches Ok((MmapSharedResult::NeedExpand(c, rg), _)) ==> c == old(self)@[inode_id]
                && fixed_addr(options.spec_addr()) == Some(rg.start) && rg.end == rg.start + options.spec_size(),
            r matches Ok((MmapSharedResult::NeedReplace(c), _)) ==> c == old(self)@[inode_id],
            old(self)@.contains_key(inode_id) ==> {
                    let l = old(shared_vma)@;
                    let (wf, wo) = options.spec_writeback_file()->0;
                    let size = options.spec_size();
                    let excl = match l.access {
                        AccessView::Private(p) => p == current_pid,
                        AccessView::Shared(m) => m.len() == 1 && m.contains_key(current_pid) && m[current_pid] == 1,
                    };
                    let fits = match options.spec_addr() {
                        VMMapAddr::Need(a) | VMMapAddr::Force(a) =>
                            if a == l.range.start && Some(wo) == (match l.writeback_file() { Some((_, o)) => Some(o), None => None::<usize> }) && size <= l.range.spec_size() { Some(a) } else { None },
                        _ => shared_target_any(l, wo, size),
                    };
                    let expand = match options.spec_addr() {
                        VMMapAddr::Need(a) | VMMapAddr::Force(a) =>
                            can_expand_spec(l, VMRange { start: a, end: (a + size) as usize }, wf, wo, options.spec_perms()),
                        _ => false,
                    };
                    (options.spec_writeback_file() is Some && is_regular_file) ==> {
                        &&& fits matches Some(t) ==> {
                            &&& r == Ok::<(MmapSharedResult, Option<(VMPerms, VMPerms)>), Errno>((MmapSharedResult::Success(t), perms_change(l.perms, options.spec_perms())))
                            &&& final(shared_vma)@.range == l.range && final(shared_vma)@.perms == raised_perms(l.perms, options.spec_perms())
                            &&& final(shared_vma)@.file_backed == l.file_backed
                            &&& l.access matches AccessView::Shared(m) && final(shared_vma)@.access == AccessView::Shared(
                crate::vm_area::attached(m, current_pid))
                        }
                        &&& fits is None ==> final(shared_vma)@ == l
                        &&& (fits is None && r is Ok) ==> (expand || excl)
                        &&& (fits is None && expand) ==> r is Ok && r->Ok_0.0 is NeedExpand
                        &&& (fits is None && !expand && excl) ==> r is Ok && r->Ok_0.0 is NeedReplace
                    }
            },
            !old(self)@.contains_key(inode_id) ==> final(shared_vma)@ == old(shared_vma)@,
            (old(self)@.contains_key(inode_id) && is_regular_file && options.spec_writeback_file() is Some
                && (options.spec_addr() is Any || options.spec_addr() is Hint)
                && old(shared_vma)@.writeback_file() is Some
                && (options.spec_writeback_file()->0).1 >= (old(shared_vma)@.writeback_file()->0).1
                && (options.spec_writeback_file()->0).1 - (old(shared_vma)@.writeback_file()->0).1 + options.spec_size()
                    <= old(shared_vma)@.range.spec_size())
                ==> (r matches Ok((MmapSharedResult::Success(a), _)) && a == old(shared_vma)@.range.start
                    + ((options.spec_writeback_file()->0).1 - (old(shared_vma)@.writeback_file()->0).1)),
    {
        Self::qualified_for_sharing(options, is_regular_file)?;
        let (file, offset) = match options.writeback_file() {
            Some(w) => *w,
            None => {
                return Err(Errno::EINVAL);
            },
        };
        let shared_chunk = match self.shared_chunks.get(&inode_id) {
            Some(c) => *c,
            None => {
                return Ok((MmapSharedResult::NeedCreate, None));
            },
        };
        let exclusived = shared_vma.exclusive_by(current_pid);
        let sc_addr = shared_vma.start();
        let sc_size = shared_vma.size();
        let sc_offset = match shared_vma.writeback_file() {
            Some((_, o)) => o,
            None => {
                return Err(Errno::EINVAL);
            },
        };
        let new_size = *options.size();
        let target_addr = match *options.addr() {
            VMMapAddr::Any | VMMapAddr::Hint(_) => {
                if offset == sc_offset && new_size <= sc_size {
                    sc_addr
                } else if offset > sc_offset && offset - sc_offset <= sc_size && new_size <= sc_size - (offset - sc_offset) {
                    sc_addr + (offset - sc_offset)
                } else if exclusived {
                    return Ok((MmapSharedResult::NeedReplace(shared_chunk), None));
                } else {
                    return Err(Errno::EINVAL);
                }
            },
            VMMapAddr::Need(addr) | VMMapAddr::Force(addr) => {
                if addr == sc_addr && offset == sc_offset && new_size <= sc_size {
                    addr
                } else {
                    let new_range = VMRange { start: addr, end: addr + new_size };
                    if Self::can_expand_shared_vma(shared_vma, &new_range, file, offset, options.perms()) {
                        return Ok((MmapSharedResult::NeedExpand(shared_chunk, new_range), None));
                    } else if exclusived {
                        return Ok((MmapSharedResult::NeedReplace(shared_chunk), None));
                    } else {
                        return Err(Errno::EINVAL);
                    }
                }
            },
        };
        let change = Self::apply_new_perms_if_higher(shared_vma, *options.perms());
        let attached = shared_vma.attach_shared_process(current_pid);
        match attached {
            Ok(()) => {},
            Err(e) => {
                assert(false);
                return Err(e);
            },
        }
        Ok((MmapSharedResult::Success(target_addr), change))
    }

    /// Unmap `unmap_range` of the shared area `vma` of the file `inode_id` for process
    /// `current_pid`. A forced unmap must cover the whole area and the process must hold it
    /// alone; a partial unmap leaves the area as it is. Otherwise the process stops sharing it
    /// (entirely when forced or on exit), and when nobody shares it any more the file's entry
    /// goes and the chunk can be freed.
    pub fn munmap_shared_chunk(&mut self, vma: &mut VMArea, inode_id: InodeId, unmap_range: &VMRange,
        flag: MunmapChunkFlag, current_pid: pid_t) -> (r: Result<MunmapSharedResult, Errno>)
        requires
            old(vma)@.access is Shared,
            old(vma)@.access matches AccessView::Shared(m) ==> (m.contains_key(current_pid) ==> m[current_pid] > 0),
        ensures
            ({
                let l = old(vma)@;
                let partial = !(unmap_range.start <= l.range.start && l.range.end <= unmap_range.end);
                let m = l.access->Shared_0;
                let excl = m.len() == 1 && m.contains_key(current_pid) && m[current_pid] == 1;
                let force_detach = flag != MunmapChunkFlag::Default;
                let m2 = crate::vm_area::detached(m, current_pid, force_detach);
                &&& (flag == MunmapChunkFlag::Force && (partial || !excl)) ==> r == Err::<MunmapSharedResult, Errno>(Errno::EINVAL)
                    && final(vma)@ == l && final(self)@ == old(self)@
                &&& (!(flag == MunmapChunkFlag::Force && (partial || !excl)) && partial) ==>
                    r == Ok::<MunmapSharedResult, Errno>(MunmapSharedResult::StillInUse) && final(vma)@ == l && final(self)@ == old(self)@
                &&& (!(flag == MunmapChunkFlag::Force && (partial || !excl)) && !partial) ==> {
                    &&& final(vma)@ == (VMAreaView { access: AccessView::Shared(m2), ..l })
                    &&& m2.is_empty() ==> r == Ok::<MunmapSharedResult, Errno>(MunmapSharedResult::Freeable) && final(self)@ == old(self)@.remove(inode_id)
                    &&& !m2.is_empty() ==> r == Ok::<MunmapSharedResult, Errno>(MunmapSharedResult::StillInUse) && final(self)@ == old(self)@
                }
            }),
    {
        let shared_range = *vma.range();
        let partial_unmap = !unmap_range.is_superset_of(&shared_range);
        if flag == MunmapChunkFlag::Force && (partial_unmap || !vma.exclusive_by(current_pid)) {
            return Err(Errno::EINVAL);
        }
        if partial_unmap {
            return Ok(MunmapSharedResult::StillInUse);
        }
        let force_detach = match flag {
            MunmapChunkFlag::Default => false,
            MunmapChunkFlag::Force | MunmapChunkFlag::OnProcessExit => true,
        };
        let detached = vma.detach_shared_process(current_pid, force_detach)?;
        if detached {
            self.shared_chunks.remove(&inode_id);
            Ok(MunmapSharedResult::Freeable)
        } else {
            Ok(MunmapSharedResult::StillInUse)
        }
    }

    /// Raise the permissions of a shared area; writing is refused when the file is not
    /// writable. Returns the change to make to its committed pages, if any.
    pub fn mprotect_shared_chunk(&self, vma: &mut VMArea, new_perms: VMPerms, file_writable: bool) -> (r: Result<Option<(VMPerms, VMPerms)>, Errno>)
        ensures
            !(old(vma)@.access is Shared) ==> r == Err::<Option<(VMPerms, VMPerms)>, Errno>(Errno::EINVAL) && final(vma)@ == old(vma)@,
            (old(vma)@.access is Shared && old(vma)@.writeback_file() is Some && !file_writable && new_perms.has(crate::vm_perms::VM_PERM_WRITE))
                ==> r == Err::<Option<(VMPerms, VMPerms)>, Errno>(Errno::EACCES) && final(vma)@ == old(vma)@,
            (old(vma)@.access is Shared && !(old(vma)@.writeback_file() is Some && !file_writable && new_perms.has(crate::vm_perms::VM_PERM_WRITE)))
                ==> r == Ok::<Option<(VMPerms, VMPerms)>, Errno>(perms_change(old(vma)@.perms, new_perms))
                    && final(vma)@ == (VMAreaView { perms: raised_perms(old(vma)@.perms, new_perms), ..old(vma)@ }),
    {
        if !vma.is_shared() {
            return Err(Errno::EINVAL);
        }
        if vma.writeback_file().is_some() && !file_writable && new_perms.can_write() {
            return Err(Errno::EACCES);
        }
        Ok(Self::apply_new_perms_if_higher(vma, new_perms))
    }

    /// Record `new_chunk`, whose area `new_vma` becomes shared, as the chunk shared for the
    /// file `inode_id`; the request must write back to a file. Returns the area's address.
    pub fn create_shared_chunk(&mut self, options: &VMMapOptions, new_vma: &mut VMArea, new_chunk: ChunkId, inode_id: InodeId) -> (r: Result<usize, Errno>)
        ensures
            options.spec_writeback_file() is None ==> r == Err::<usize, Errno>(Errno::EINVAL) && final(self)@ == old(self)@ && final(new_vma)@ == old(new_vma)@,
            options.spec_writeback_file() is Some ==> {
                &&& r == Ok::<usize, Errno>(old(new_vma)@.range.start)
                &&& final(self)@ == old(self)@.insert(inode_id, new_chunk)
                &&& final(new_vma)@.range == old(new_vma)@.range
                &&& final(new_vma)@.access == match old(new_vma)@.access {
                    AccessView::Private(p) => AccessView::Shared(map![p => 1u32]),
                    a => a,
                }
            },
    {
        if options.writeback_file().is_none() {
            return Err(Errno::EINVAL);
        }
        new_vma.mark_shared();
        let addr = new_vma.start();
        self.shared_chunks.insert(inode_id, new_chunk);
        Ok(addr)
    }

    /// Make `new_chunk` the chunk shared for the file `inode_id`, in place of the old one.
    pub fn replace_shared_chunk(&mut self, inode_id: InodeId, new_chunk: ChunkId)
        ensures
            final(self)@ == old(self)@.insert(inode_id, new_chunk),
    {
        self.shared_chunks.insert(inode_id, new_chunk);
    }
}

/// A shared mapping with no fixed address of the file of a shared area, for a part of the file
/// that the area holds, lands where the area holds that part: at the area's start plus the
/// distance from the area's file offset. A request of the same offset and size as the area
/// shares all of it, from its start.
pub proof fn law_shared_at_area_offset_lands_at_start(l: VMAreaView, offset: usize, size: usize)
    requires
        l.range.wf(),
        l.writeback_file() is Some,
        (l.writeback_file()->0).1 <= offset,
        offset - (l.writeback_file()->0).1 + size <= l.range.spec_size(),
    ensures
        shared_target_any(l, offset, size) == Some((l.range.start + (offset - (l.writeback_file()->0).1)) as usize),
        offset == (l.writeback_file()->0).1 ==> shared_target_any(l, offset, size) == Some(l.range.start),
{
}

} // verus!
