//! A default chunk: a chunk manager for many areas, and the processes that use it.
use vstd::prelude::*;
use std::collections::HashSet;
use crate::errno::Errno;
use crate::vm_area::{pid_t, VMArea, VMAreaView};
use crate::vm_chunk_manager::{unmap_areas, mmap_area, ChunkManager};
use crate::vm_range::VMRange;
use crate::vm_util::{VMMapAddr, VMMapOptions};
use crate::free_space_manager::{placement, holder, take_out, lemma_find_result_placement};

verus! {

broadcast use vstd::std_specs::hash::group_hash_axioms;

/// A chunk that holds the areas of the processes that use it.
#[derive(Debug)]
pub struct ChunkInternal {
    chunk_manager: ChunkManager,
    process_set: HashSet<pid_t>,
}

impl ChunkInternal {
    /// The manager of the chunk's areas.
    pub closed spec fn manager(&self) -> ChunkManager {
        self.chunk_manager
    }

    /// The processes that use the chunk.
    pub closed spec fn processes(&self) -> Set<pid_t> {
        self.process_set@
    }

    /// The chunk `vm_range`, all free, used by process `pid`; both ends must be page aligned.
    pub fn new(vm_range: VMRange, pid: pid_t) -> (r: Result<Self, Errno>)
        requires
            vm_range.wf(),
        ensures
            r is Err <==> vm_range.start % crate::vm_range::PAGE_SIZE != 0 || vm_range.end % crate::vm_range::PAGE_SIZE != 0,
            r is Err ==> r == Err::<Self, Errno>(Errno::EINVAL),
            r matches Ok(c) ==> {
                &&& c.manager().wf()
                &&& c.manager().spec_range() == vm_range
                &&& c.manager().areas() == Seq::<VMAreaView>::empty()
                &&& c.processes() == set![pid]
            },
    {
        let chunk_manager = ChunkManager::from(vm_range.start(), vm_range.size())?;
        let mut process_set: HashSet<pid_t> = HashSet::new();
        process_set.insert(pid);
        proof {
            assert(process_set@ =~= set![pid]);
        }
        Ok(ChunkInternal { chunk_manager, process_set })
    }

    /// Process `pid` uses the chunk too.
    pub fn add_process(&mut self, pid: pid_t)
        ensures
            final(self).manager() == old(self).manager(),
            final(self).processes() == old(self).processes().insert(pid),
    {
        self.process_set.insert(pid);
    }

    /// Whether process `pid` uses the chunk.
    pub fn used_by(&self, pid: pid_t) -> (r: bool)
        ensures
            r == self.processes().contains(pid),
    {
        self.process_set.contains(&pid)
    }

    pub fn chunk_manager(&self) -> (r: &ChunkManager)
        ensures
            *r == self.manager(),
    {
        &self.chunk_manager
    }

    pub fn chunk_manager_mut(&mut self) -> (r: &mut ChunkManager)
        ensures
            *r == old(self).manager(),
            final(self).manager() == *final(r),
            final(self).processes() == old(self).processes(),
    {
        &mut self.chunk_manager
    }

    /// Whether process `pid` is the only one that uses the chunk.
    pub fn is_owned_by_current_process(&self, pid: pid_t) -> (r: bool)
        ensures
            r == (self.processes().contains(pid) && self.processes().len() == 1),
    {
        self.process_set.contains(&pid) && self.process_set.len() == 1
    }

    /// The free memory of the chunk.
    pub fn free_size(&self) -> (r: usize)
        ensures
            r == self.manager().spec_free_size(),
    {
        *self.chunk_manager.free_size()
    }

    /// Unmap the areas of process `pid`, which is leaving the chunk; tells whether the chunk is
    /// empty now, in which case the process no longer uses it.
    pub fn clean_multi_vmas(&mut self, pid: pid_t) -> (r: bool)
        requires
            old(self).manager().wf(),
        ensures
            final(self).manager().wf(),
            final(self).manager().spec_range() == old(self).manager().spec_range(),
            final(self).manager().areas() == unmap_areas(old(self).manager().areas(), old(self).manager().spec_range(), pid),
            r == (final(self).manager().areas().len() == 0),
            r ==> final(self).processes() == old(self).processes().remove(pid),
            !r ==> final(self).processes() == old(self).processes(),
    {
        self.chunk_manager.clean_vmas_with_pid(pid);
        if self.chunk_manager.is_empty() {
            self.process_set.remove(&pid);
            true
        } else {
            false
        }
    }

    /// Map a request of process `pid` in the chunk, unless the chunk has less free memory than
    /// the request asks (`ENOMEM`, to try other chunks).
    pub fn mmap(&mut self, options: &VMMapOptions, pid: pid_t) -> (r: Result<(VMRange, Vec<VMArea>), Errno>)
        requires
            old(self).manager().wf(),
            options.wf(),
            old(self).manager().spec_range().end + options.spec_align() + options.spec_size() <= usize::MAX,
            options.spec_addr() matches crate::vm_util::VMMapAddr::Force(a) ==> a + options.spec_size() <= usize::MAX,
            options.spec_file_backed() matches Some(f) ==> f.offset + old(self).manager().spec_range().spec_size() <= usize::MAX,
        ensures
            final(self).manager().wf(),
            final(self).processes() == old(self).processes(),
            old(self).manager().spec_free_size() < options.spec_size() ==> r == Err::<(VMRange, Vec<VMArea>), Errno>(Errno::ENOMEM)
                && final(self).manager() == old(self).manager(),
            old(self).manager().spec_free_size() >= options.spec_size() ==> ChunkManager::mmap_done(old(self).manager(), final(self).manager(), *options, pid, r),
    {
        if *self.chunk_manager.free_size() < *options.size() {
            return Err(Errno::ENOMEM);
        }
        self.chunk_manager.mmap(options, pid)
    }
}

/// Whether the chunk `c` may be tried for a request of process `pid`: any chunk when
/// `any_chunk`, otherwise only those that the process uses.
pub open spec fn may_try(c: ChunkInternal, pid: pid_t, any_chunk: bool) -> bool {
    any_chunk || c.processes().contains(pid)
}

/// Whether the chunk `c` takes the request `options`: it has the free memory the request asks,
/// and the search of its free ranges places the request.
pub open spec fn takes(c: ChunkInternal, options: VMMapOptions) -> bool {
    &&& c.manager().spec_free_size() >= options.spec_size()
    &&& placement(c.manager().free_ranges(), options.spec_size() as int, options.spec_align() as int, options.spec_addr(), 0) is Some
}

/// The requirements of `ChunkInternal::mmap` on the chunk `c` for `options`.
pub open spec fn chunk_can_try(c: ChunkInternal, options: VMMapOptions) -> bool {
    &&& c.manager().wf()
    &&& c.manager().spec_range().end + options.spec_align() + options.spec_size() <= usize::MAX
    &&& (options.spec_file_backed() matches Some(f) ==> f.offset + c.manager().spec_range().spec_size() <= usize::MAX)
}

/// The chunk `c1` holds what `c0` holds: the same range, areas, free ranges, free size and
/// processes.
pub open spec fn same_chunk(c0: ChunkInternal, c1: ChunkInternal) -> bool {
    &&& c1.manager().spec_range() == c0.manager().spec_range()
    &&& c1.manager().areas() == c0.manager().areas()
    &&& c1.manager().free_ranges() == c0.manager().free_ranges()
    &&& c1.manager().spec_free_size() == c0.manager().spec_free_size()
    &&& c1.processes() == c0.processes()
}

/// The chunk manager `m1` is `m0` with the range `v` mapped for process `pid` as `options`
/// asks: a new area over `v` among the areas, and `v` taken out of the free range that held it.
pub open spec fn mapped_in(m0: ChunkManager, m1: ChunkManager, options: VMMapOptions, pid: pid_t, v: VMRange) -> bool {
    &&& m1.spec_range() == m0.spec_range()
    &&& exists|p: int| 0 <= p <= m0.areas().len() && #[trigger] m1.areas()[p] == mmap_area(options, v, pid)
        && m1.areas() == m0.areas().insert(p, mmap_area(options, v, pid))
    &&& m1.free_ranges() == take_out(m0.free_ranges(), holder(m0.free_ranges(), v), v)
}

/// Map a request of process `pid` at no forced address into the first of the default chunks
/// `chunks` that may be tried and takes it: those that the process uses, or any chunk when
/// `any_chunk`, in which case the process then uses the chunk too. Returns the address of the
/// mapping; `ENOMEM`, with no chunk changed, when none takes it.
#[verifier::spinoff_prover]
#[verifier::rlimit(40)]
pub fn mmap_in_chunks(chunks: &mut Vec<ChunkInternal>, options: &VMMapOptions, pid: pid_t, any_chunk: bool) -> (r: Result<usize, Errno>)
    requires
        options.wf(),
        !(options.spec_addr() is Force),
        forall|k: int| 0 <= k < old(chunks)@.len() ==> chunk_can_try(#[trigger] old(chunks)@[k], *options),
    ensures
        final(chunks)@.len() == old(chunks)@.len(),
        forall|k: int| 0 <= k < final(chunks)@.len() ==> chunk_can_try(#[trigger] final(chunks)@[k], *options),
        r is Ok <==> exists|k: int| 0 <= k < old(chunks)@.len() && may_try(#[trigger] old(chunks)@[k], pid, any_chunk)
            && takes(old(chunks)@[k], *options),
        r is Err ==> r == Err::<usize, Errno>(Errno::ENOMEM)
            && forall|k: int| 0 <= k < old(chunks)@.len() ==> same_chunk(#[trigger] old(chunks)@[k], final(chunks)@[k]),
        r matches Ok(a) ==> exists|k: int| {
            &&& 0 <= k < old(chunks)@.len()
            &&& may_try(#[trigger] old(chunks)@[k], pid, any_chunk)
            &&& takes(old(chunks)@[k], *options)
            &&& forall|j: int| 0 <= j < k && may_try(#[trigger] old(chunks)@[j], pid, any_chunk) ==> !takes(old(chunks)@[j], *options)
            &&& forall|j: int| 0 <= j < old(chunks)@.len() && j != k ==> same_chunk(#[trigger] old(chunks)@[j], final(chunks)@[j])
            &&& final(chunks)@[k].processes() == old(chunks)@[k].processes().insert(pid)
            &&& a == placement(old(chunks)@[k].manager().free_ranges(), options.spec_size() as int,
                    options.spec_align() as int, options.spec_addr(), 0)->0.start
            &&& mapped_in(old(chunks)@[k].manager(), final(chunks)@[k].manager(), *options, pid,
                    placement(old(chunks)@[k].manager().free_ranges(), options.spec_size() as int,
                    options.spec_align() as int, options.spec_addr(), 0)->0)
        },
{
    let ghost c0 = chunks@;
    let n = chunks.len();
    let mut i: usize = 0;
    while i < n
        invariant
            n == c0.len(),
            chunks@.len() == n,
            c0 == old(chunks)@,
            forall|j: int| 0 <= j < i ==> same_chunk(#[trigger] c0[j], chunks@[j]),
            forall|j: int| i <= j < n ==> #[trigger] chunks@[j] == c0[j],
            forall|j: int| 0 <= j < n ==> chunk_can_try(#[trigger] chunks@[j], *options),
            i <= n,
            options.wf(),
            !(options.spec_addr() is Force),
            forall|k: int| 0 <= k < n ==> chunk_can_try(#[trigger] c0[k], *options),
            forall|j: int| 0 <= j < i && may_try(#[trigger] c0[j], pid, any_chunk) ==> !takes(c0[j], *options),
        decreases n - i,
    {
        if any_chunk || chunks[i].process_set.contains(&pid) {
            let mut c = chunks.remove(i);
            let ghost old_c = c;
            let res = c.mmap(options, pid);
            proof {
                let m0 = old_c.manager();
                let size = options.spec_size();
                if m0.spec_free_size() >= size {
                    lemma_find_result_placement(m0.free_ranges(), c.manager().free_ranges(), size as int,
                        options.spec_align() as int, options.spec_addr(), 0, crate::vm_chunk_manager::range_of(res));
                }
            }
            match res {
                Ok((v, u)) => {
                    c.add_process(pid);
                    let ghost before = chunks@;
                    chunks.insert(i, c);
                    proof {
                        assert(chunks@[i as int] == c);
                        assert(takes(c0[i as int], *options));
                        assert(chunks@[i as int] == c);
                        assert(may_try(c0[i as int], pid, any_chunk));
                        let m0 = old_c.manager();
                        let area = mmap_area(*options, v, pid);
                        let p = choose|p: int| 0 <= p <= m0.areas().len() && c.manager().areas() == m0.areas().insert(p, area);
                        assert(c.manager().areas()[p] == area);
                        assert(mapped_in(m0, c.manager(), *options, pid, v));
                        assert forall|j: int| 0 <= j < n && j != i implies same_chunk(#[trigger] c0[j], chunks@[j]) by {
                            if j > i {
                                assert(chunks@[j] == c0[j]);
                            }
                        }
                    }
                    return Ok(v.start);
                },
                Err(_) => {
                    let ghost before = chunks@;
                    chunks.insert(i, c);
                    proof {
                        let m0 = old_c.manager();
                        assert(same_chunk(old_c, c));
                        assert forall|j: int| 0 <= j < n && j != i implies #[trigger] chunks@[j] == before.insert(i as int, c)[j] by {}
                        assert(chunks@[i as int] == c);
                    }
                },
            }
        }
        i = i + 1;
    }
    Err(Errno::ENOMEM)
}

} // verus!
