//! The decisions of the user space manager about its chunks: which chunks an unmap touches,
//! and how the area of a chunk that holds a single area is split by an unmap or a change of
//! permissions. Locking the chunks and carrying the decisions out is left to the caller.
use vstd::prelude::*;
use crate::errno::Errno;
use crate::vm_area::{pid_t, AccessView, VMAccess, VMArea, VMAreaView};
use crate::vm_perms::{VMPerms, VM_PERM_WRITE};
use crate::vm_range::{align_up, align_up_spec, lemma_align_up, lemma_page_size_pow2, VMRange, PAGE_SIZE};
use crate::vm_util::{VMInitializer, VMMapAddr, VMMapOptions, VMRemapParser, VMRemapResult};
use crate::vm_chunk_manager::free_holds;
use crate::shm_manager::MmapSharedResult;
use crate::free_space_manager::{
    VMFreeSpaceManager, splice, sum_sizes, placement, holder, lemma_find_result_placement, is_first_usable, is_best_usable, hint_fits, lemma_splice, lemma_one, lemma_splice_sorted, lemma_splice_nonempty, lemma_splice_union, ranges_sorted, ranges_nonempty, in_ranges, free_set, take_out, put_back, find_result,
    lemma_take_out, lemma_single, lemma_in_ranges_concat, lemma_disjoint_has_slot, ends_below,
};

verus! {

/// The new area over `range`, a part of the area `v`, with permissions `perms` and owned by
/// process `pid`; its file is the file of `v` at the matching offset.
pub open spec fn part_of(v: VMAreaView, range: VMRange, perms: VMPerms, pid: pid_t) -> VMAreaView {
    VMAreaView {
        range,
        perms,
        file_backed: VMArea::shifted_file(v.file_backed, v.range.start, range.start),
        access: AccessView::Private(pid),
    }
}

/// Change the permissions of `protect_range`, a part of the area `vma` of a chunk that holds
/// that area alone, to `new_perms`, for process `current_pid`. Nothing changes when the
/// permissions are the same already; writing is refused for an area that writes back to a
/// file that is not writable (`file_writable`). The whole area just gets the new permissions;
/// otherwise `vma` keeps the part before the range, or after it when the range starts the
/// area, and the new areas returned, each for a chunk of its own, are the range with the new
/// permissions and, when the range lies inside the area, the part after it.
pub fn mprotect_single_vma_chunk(vma: &mut VMArea, protect_range: VMRange, new_perms: VMPerms, file_writable: bool,
    current_pid: pid_t) -> (r: Result<Vec<VMArea>, Errno>)
    requires
        old(vma)@.range.wf(),
        old(vma)@.range.start <= protect_range.start,
        protect_range.start <= protect_range.end,
        protect_range.end <= old(vma)@.range.end,
        old(vma)@.file_backed matches Some(f) ==> f.offset + old(vma)@.range.spec_size() <= usize::MAX,
    ensures
        ({
            let v = old(vma)@;
            let same_start = protect_range.start == v.range.start;
            let same_end = protect_range.end == v.range.end;
            let denied = v.writeback_file() is Some && !file_writable && new_perms.has(VM_PERM_WRITE);
            let mid = part_of(v, protect_range, new_perms, current_pid);
            let after = VMRange { start: protect_range.end, end: v.range.end };
            let before = VMRange { start: v.range.start, end: protect_range.start };
            &&& v.perms == new_perms ==> (r matches Ok(w) && w@.len() == 0) && final(vma)@ == v
            &&& (v.perms != new_perms && denied) ==> r == Err::<Vec<VMArea>, Errno>(Errno::EACCES) && final(vma)@ == v
            &&& (v.perms != new_perms && !denied && same_start && same_end) ==>
                (r matches Ok(w) && w@.len() == 0) && final(vma)@ == (VMAreaView { perms: new_perms, ..v })
            &&& (v.perms != new_perms && !denied && !same_start && !same_end) ==>
                (r matches Ok(w) && w@.map_values(|a: VMArea| a@) == seq![mid, part_of(v, after, v.perms, current_pid)])
                && final(vma)@ == (VMAreaView { range: before, ..v })
            &&& (v.perms != new_perms && !denied && same_start && !same_end) ==>
                (r matches Ok(w) && w@.map_values(|a: VMArea| a@) == seq![mid])
                && final(vma)@ == (VMAreaView { range: after, file_backed: VMArea::shifted_file(v.file_backed, v.range.start, protect_range.end), ..v })
            &&& (v.perms != new_perms && !denied && !same_start && same_end) ==>
                (r matches Ok(w) && w@.map_values(|a: VMArea| a@) == seq![mid])
                && final(vma)@ == (VMAreaView { range: before, ..v })
        }),
{
    let old_perms = vma.perms();
    if old_perms == new_perms {
        return Ok(Vec::new());
    }
    if vma.writeback_file().is_some() && !file_writable && new_perms.can_write() {
        return Err(Errno::EACCES);
    }
    let same_start = protect_range.start() == vma.start();
    let same_end = protect_range.end() == vma.end();
    if same_start && same_end {
        vma.set_perms(new_perms);
        return Ok(Vec::new());
    }
    let new_vma = VMArea::inherits_file_from(vma, protect_range, new_perms, VMAccess::Private(current_pid));
    let mut out: Vec<VMArea> = Vec::new();
    out.push(new_vma);
    if !same_start && !same_end {
        let old_end = vma.end();
        let remaining = VMArea::inherits_file_from(vma, VMRange { start: protect_range.end(), end: old_end }, old_perms,
            VMAccess::Private(current_pid));
        vma.set_end(protect_range.start());
        out.push(remaining);
    } else if same_start {
        vma.set_start(protect_range.end());
    } else {
        vma.set_end(protect_range.start());
    }
    proof {
        let v = old(vma)@;
        if !same_start && !same_end {
            assert(out@.map_values(|a: VMArea| a@) =~= seq![part_of(v, protect_range, new_perms, current_pid),
                part_of(v, VMRange { start: protect_range.end, end: v.range.end }, v.perms, current_pid)]);
        } else {
            assert(out@.map_values(|a: VMArea| a@) =~= seq![part_of(v, protect_range, new_perms, current_pid)]);
        }
    }
    Ok(out)
}

/// Unmap `munmap_range` from the area `vma` of a chunk that holds that area alone, where the
/// two overlap: the part unmapped, whose memory is to be written back and cleared, and the
/// parts of the area that remain, in address order (none, one that the chunk keeps, or a
/// second one for a new chunk).
pub fn munmap_single_vma_chunk(vma: &VMArea, munmap_range: &VMRange) -> (r: (VMArea, Vec<VMArea>))
    requires
        vma@.range.wf(),
        munmap_range.wf(),
        (if vma@.range.start > munmap_range.start { vma@.range.start } else { munmap_range.start })
            <= (if vma@.range.end < munmap_range.end { vma@.range.end } else { munmap_range.end }),
        vma@.file_backed matches Some(f) ==> f.offset + vma@.range.spec_size() <= usize::MAX,
    ensures
        ({
            let v = vma@;
            let s = if v.range.start > munmap_range.start { v.range.start } else { munmap_range.start };
            let e = if v.range.end < munmap_range.end { v.range.end } else { munmap_range.end };
            let inter = VMRange { start: s, end: e };
            let rest = crate::vm_range::subtract_spec(v.range, inter);
            &&& r.0@ == (VMAreaView { range: inter, file_backed: VMArea::shifted_file(v.file_backed, v.range.start, s), ..v })
            &&& r.1@.len() == rest.len()
            &&& forall|i: int| 0 <= i < rest.len() ==> (#[trigger] r.1@[i])@ == (VMAreaView {
                range: rest[i],
                file_backed: VMArea::shifted_file(v.file_backed, v.range.start, rest[i].start),
                ..v
            })
        }),
{
    let intersection_vma = match vma.intersect(munmap_range) {
        Some(i) => i,
        None => {
            assert(false);
            return (vma.duplicate(), Vec::new());
        },
    };
    let new_vmas = vma.subtract(intersection_vma.range());
    (intersection_vma, new_vmas)
}

/// The indices of the ranges of `rs` that share an address with `mr`, in order.
pub open spec fn overlapping_indices(rs: Seq<VMRange>, mr: VMRange) -> Seq<usize>
    decreases rs.len(),
{
    if rs.len() == 0 {
        seq![]
    } else {
        let p = overlapping_indices(rs.drop_last(), mr);
        let l = rs.last();
        if l.start < mr.end && mr.start < l.end { p.push((rs.len() - 1) as usize) } else { p }
    }
}

/// Whether the ranges share an address or touch.
pub open spec fn meets(a: VMRange, b: VMRange) -> bool {
    (if a.start > b.start { a.start } else { b.start }) <= (if a.end < b.end { a.end } else { b.end })
}

/// The chunks, given by their ranges in the order the process lists them, that an unmap of
/// `[addr, addr + size)` acts on, the size rounded up to pages: none when no chunk meets the
/// range, which is no error; the first chunk that meets it when that chunk holds the whole
/// range; otherwise every chunk that shares an address with it. The address must be page
/// aligned and the size nonzero.
pub fn munmap_chunk_targets(chunk_ranges: &Vec<VMRange>, addr: usize, size: usize) -> (r: Result<Vec<usize>, Errno>)
    requires
        size + PAGE_SIZE - 1 <= usize::MAX,
        addr + align_up_spec(size as int, PAGE_SIZE as int) <= usize::MAX,
    ensures
        r is Err <==> size == 0 || addr % PAGE_SIZE != 0,
        r is Err ==> r == Err::<Vec<usize>, Errno>(Errno::EINVAL),
        r matches Ok(v) ==> {
            let mr = VMRange { start: addr, end: (addr + align_up_spec(size as int, PAGE_SIZE as int)) as usize };
            let rs = chunk_ranges@;
            &&& !(exists|i: int| 0 <= i < rs.len() && meets(#[trigger] rs[i], mr)) ==> v@.len() == 0
            &&& forall|i: int| 0 <= i < rs.len() && meets(#[trigger] rs[i], mr) && (forall|j: int| 0 <= j < i ==> !meets(#[trigger] rs[j], mr)) ==>
                if rs[i].start <= mr.start && mr.end <= rs[i].end { v@ == seq![i as usize] } else { v@ == overlapping_indices(rs, mr) }
        },
{
    if size == 0 {
        return Err(Errno::EINVAL);
    }
    proof {
        lemma_page_size_pow2();
        lemma_align_up(size as int, PAGE_SIZE as int);
    }
    let size = align_up(size, PAGE_SIZE);
    let munmap_range = VMRange::new_with_size(addr, size)?;
    let ghost rs = chunk_ranges@;
    let n = chunk_ranges.len();
    let mut i: usize = 0;
    while i < n
        invariant
            n == rs.len(),
            rs == chunk_ranges@,
            i <= n,
            forall|j: int| 0 <= j < i ==> !meets(#[trigger] rs[j], munmap_range),
        ensures
            i == n || (i < n && meets(rs[i as int], munmap_range)),
        decreases n - i,
    {
        if chunk_ranges[i].intersect(&munmap_range).is_some() {
            break;
        }
        i = i + 1;
    }
    if i == n {
        return Ok(Vec::new());
    }
    if chunk_ranges[i].is_superset_of(&munmap_range) {
        let mut one: Vec<usize> = Vec::new();
        one.push(i);
        proof {
            assert(one@ =~= seq![i as usize]);
            assert forall|k: int| 0 <= k < rs.len() && meets(#[trigger] rs[k], munmap_range)
                && (forall|j: int| 0 <= j < k ==> !meets(#[trigger] rs[j], munmap_range)) implies k == i by {
                if k < i {
                } else if k > i {
                    assert(!meets(rs[i as int], munmap_range));
                }
            }
        }
        return Ok(one);
    }
    let mut out: Vec<usize> = Vec::new();
    let mut k: usize = 0;
    while k < n
        invariant
            n == rs.len(),
            rs == chunk_ranges@,
            k <= n,
            out@ == overlapping_indices(rs.take(k as int), munmap_range),
        decreases n - k,
    {
        proof {
            assert(rs.take(k as int + 1).drop_last() =~= rs.take(k as int));
        }
        if chunk_ranges[k].overlap_with(&munmap_range) {
            out.push(k);
        }
        k = k + 1;
    }
    proof {
        assert(rs.take(n as int) =~= rs);
        assert forall|x: int| 0 <= x < rs.len() && meets(#[trigger] rs[x], munmap_range)
            && (forall|j: int| 0 <= j < x ==> !meets(#[trigger] rs[j], munmap_range)) implies x == i by {
            if x < i {
            } else if x > i {
                assert(!meets(rs[i as int], munmap_range));
            }
        }
    }
    Ok(out)
}

/// The common part of the ranges, which may be empty when they only touch.
pub open spec fn common_part(a: VMRange, b: VMRange) -> VMRange {
    VMRange {
        start: if a.start > b.start { a.start } else { b.start },
        end: if a.end < b.end { a.end } else { b.end },
    }
}

/// The common parts with `t` of the ranges of `rs` that meet it, in order.
pub open spec fn met_parts(rs: Seq<VMRange>, t: VMRange) -> Seq<VMRange>
    decreases rs.len(),
{
    if rs.len() == 0 {
        seq![]
    } else {
        let p = met_parts(rs.drop_last(), t);
        if meets(rs.last(), t) { p.push(common_part(rs.last(), t)) } else { p }
    }
}

/// The ranges `xs` in order, with the free range between two of them inserted where they do
/// not connect.
pub open spec fn with_gaps(xs: Seq<VMRange>) -> Seq<VMRange>
    decreases xs.len(),
{
    if xs.len() <= 1 {
        xs
    } else {
        let p = with_gaps(xs.drop_last());
        let a = xs[xs.len() - 2];
        let b = xs.last();
        if a.end < b.start { p.push(VMRange { start: a.end, end: b.start }).push(b) } else { p.push(b) }
    }
}

/// Whether a forced mapping may go across chunks: its memory is left as it is or cleared, and
/// every chunk that meets the target range belongs to the process.
pub open spec fn force_across_allowed(initializer: VMInitializer, rs: Seq<VMRange>, owned: Seq<bool>, t: VMRange) -> bool {
    &&& (initializer is DoNothing || initializer is FillZeros)
    &&& forall|i: int| 0 <= i < rs.len() && meets(#[trigger] rs[i], t) ==> owned[i]
}

/// The ranges to map, one after the other, for a forced mapping of `target_range` that spans
/// several chunks, given by their ranges in order and whether each belongs to the process: the
/// part of each chunk that meets the range, and the free ranges between them. Only memory
/// that is left as it is or cleared can be mapped so (`ENOSYS`), and no chunk of another
/// process may be in the way (`ENOMEM`).
pub fn force_mmap_across_multiple_chunks(initializer: &VMInitializer, chunk_ranges: &Vec<VMRange>, owned: &Vec<bool>,
    target_range: &VMRange) -> (r: Result<Vec<VMRange>, Errno>)
    requires
        owned@.len() == chunk_ranges@.len(),
        force_across_allowed(*initializer, chunk_ranges@, owned@, *target_range) ==>
            exists|i: int| 0 <= i < chunk_ranges@.len() && meets(#[trigger] chunk_ranges@[i], *target_range),
    ensures
        !(*initializer is DoNothing || *initializer is FillZeros) ==> r == Err::<Vec<VMRange>, Errno>(Errno::ENOSYS),
        (*initializer is DoNothing || *initializer is FillZeros) && !force_across_allowed(*initializer, chunk_ranges@, owned@, *target_range)
            ==> r == Err::<Vec<VMRange>, Errno>(Errno::ENOMEM),
        force_across_allowed(*initializer, chunk_ranges@, owned@, *target_range) ==>
            (r matches Ok(v) && v@ == with_gaps(met_parts(chunk_ranges@, *target_range))),
{
    match initializer {
        VMInitializer::DoNothing() | VMInitializer::FillZeros() => {},
        _ => {
            return Err(Errno::ENOSYS);
        },
    }
    let ghost rs = chunk_ranges@;
    let ghost t = *target_range;
    let n = chunk_ranges.len();
    let mut parts: Vec<VMRange> = Vec::new();
    let mut i: usize = 0;
    while i < n
        invariant
            n == rs.len(),
            rs == chunk_ranges@,
            owned@.len() == n,
            t == *target_range,
            *initializer is DoNothing || *initializer is FillZeros,
            i <= n,
            parts@ == met_parts(rs.take(i as int), t),
            forall|j: int| 0 <= j < i && meets(#[trigger] rs[j], t) ==> owned@[j],
        decreases n - i,
    {
        proof {
            assert(rs.take(i as int + 1).drop_last() =~= rs.take(i as int));
        }
        match chunk_ranges[i].intersect(target_range) {
            Some(x) => {
                if !owned[i] {
                    return Err(Errno::ENOMEM);
                }
                parts.push(x);
            },
            None => {},
        }
        i = i + 1;
    }
    proof {
        assert(rs.take(n as int) =~= rs);
        lemma_met_parts_nonempty(rs, t);
    }
    let m = parts.len();
    let mut out: Vec<VMRange> = Vec::new();
    out.push(parts[0]);
    proof {
        assert(parts@.take(1) =~= seq![parts@[0]]);
        assert(out@ =~= with_gaps(parts@.take(1)));
    }
    let mut k: usize = 1;
    while k < m
        invariant
            m == parts@.len(),
            1 <= k <= m,
            out@ == with_gaps(parts@.take(k as int)),
        decreases m - k,
    {
        let a = parts[k - 1];
        let b = parts[k];
        proof {
            let q = parts@.take(k as int + 1);
            assert(q.drop_last() =~= parts@.take(k as int));
            assert(q[q.len() - 2] == a && q.last() == b);
        }
        if a.end() < b.start() {
            out.push(VMRange { start: a.end(), end: b.start() });
        }
        out.push(b);
        k = k + 1;
    }
    proof {
        assert(parts@.take(m as int) =~= parts@);
    }
    Ok(out)
}

/// A range that meets the target leaves a part in `met_parts`.
proof fn lemma_met_parts_nonempty(rs: Seq<VMRange>, t: VMRange)
    requires
        exists|i: int| 0 <= i < rs.len() && meets(#[trigger] rs[i], t),
    ensures
        met_parts(rs, t).len() > 0,
    decreases rs.len(),
{
    if !meets(rs.last(), t) {
        let i = choose|i: int| 0 <= i < rs.len() && meets(#[trigger] rs[i], t);
        assert(i < rs.len() - 1);
        assert(rs.drop_last()[i] == rs[i]);
        lemma_met_parts_nonempty(rs.drop_last(), t);
    }
}

/// The size of a default chunk, which holds many areas.
pub const CHUNK_DEFAULT_SIZE: usize = 0x200_0000;

/// The ways an mmap request is tried, in turn.
#[derive(Clone, Copy, Debug, PartialEq, Eq, Structural)]
pub enum MmapStep {
    /// Share the chunk mapped for the file.
    Shared,
    /// Map at the requested address.
    AtAddr,
    /// Map into a new chunk of its own.
    SingleVmaChunk,
    /// Map into one of the default chunks that the process uses.
    ProcessChunks,
    /// Map into a new default chunk.
    NewDefaultChunk,
    /// Map into any default chunk, which the process then uses too.
    AnyDefaultChunk,
    /// Map into a new chunk of its own, from the free memory left.
    GlobalFreeRange,
}

/// Where a request of `size` bytes goes once no address binds it: a chunk of its own when it
/// is larger than a default chunk, or else the default chunks of the process.
pub open spec fn by_size(size: usize) -> MmapStep {
    if size > CHUNK_DEFAULT_SIZE { MmapStep::SingleVmaChunk } else { MmapStep::ProcessChunks }
}

/// Where a request starts once sharing is out of the question.
pub open spec fn start_from(addr: VMMapAddr, size: usize) -> MmapStep {
    if addr is Any { by_size(size) } else { MmapStep::AtAddr }
}

/// The first way to try an mmap request of `size` bytes at `addr`: sharing, when the request
/// can be shared (`share`); otherwise at the address, if one is given.
pub fn mmap_first_step(share: bool, addr: VMMapAddr, size: usize) -> (r: MmapStep)
    ensures
        r == (if share { MmapStep::Shared } else { start_from(addr, size) }),
{
    if share {
        MmapStep::Shared
    } else {
        match addr {
            VMMapAddr::Any => if size > CHUNK_DEFAULT_SIZE { MmapStep::SingleVmaChunk } else { MmapStep::ProcessChunks },
            _ => MmapStep::AtAddr,
        }
    }
}

/// The way to try next after `step` failed with `err`, or the error of the request. A failed
/// share falls back to an ordinary mapping; a hinted address to the other ways, but a needed
/// or forced one is final; a chunk of its own is the last resort of a large request; after the
/// default chunks of the process comes a new default chunk, and when none can be made
/// (`chunk_made` is false) any default chunk, and then the free memory left.
pub fn mmap_next_step(step: MmapStep, addr: VMMapAddr, size: usize, err: Errno, chunk_made: bool) -> (r: Result<MmapStep, Errno>)
    ensures
        r == match step {
            MmapStep::Shared => Ok(start_from(addr, size)),
            MmapStep::AtAddr => match addr {
                VMMapAddr::Need(_) | VMMapAddr::Force(_) => Err(err),
                _ => Ok(by_size(size)),
            },
            MmapStep::SingleVmaChunk => Err(Errno::ENOMEM),
            MmapStep::ProcessChunks => Ok(MmapStep::NewDefaultChunk),
            MmapStep::NewDefaultChunk => if chunk_made { Err(err) } else { Ok(MmapStep::AnyDefaultChunk) },
            MmapStep::AnyDefaultChunk => Ok(MmapStep::GlobalFreeRange),
            MmapStep::GlobalFreeRange => Err(Errno::ENOMEM),
        },
{
    match step {
        MmapStep::Shared => Ok(mmap_first_step(false, addr, size)),
        MmapStep::AtAddr => match addr {
            VMMapAddr::Need(_) | VMMapAddr::Force(_) => Err(err),
            _ => Ok(mmap_first_step(false, VMMapAddr::Any, size)),
        },
        MmapStep::SingleVmaChunk => Err(Errno::ENOMEM),
        MmapStep::ProcessChunks => Ok(MmapStep::NewDefaultChunk),
        MmapStep::NewDefaultChunk => {
            if chunk_made {
                Err(err)
            } else {
                Ok(MmapStep::AnyDefaultChunk)
            }
        },
        MmapStep::AnyDefaultChunk => Ok(MmapStep::GlobalFreeRange),
        MmapStep::GlobalFreeRange => Err(Errno::ENOMEM),
    }
}

/// How a mapping at a given address proceeds.
#[derive(Clone, Copy, Debug, PartialEq, Eq, Structural)]
pub enum WithAddrStep {
    /// Map inside the default chunk found there.
    InDefaultChunk,
    /// Map across the chunks that the range spans.
    AcrossChunks,
    /// Unmap the range from the single-area chunk found there, then map a new chunk.
    ForceUnmapSingle,
    /// Map a new chunk of its own there.
    NewChunk,
}

/// How a mapping of `target_range`, asked for at `addr` (not any address), proceeds, given the
/// first chunk of the process that meets the range, if any, by whether it holds a single area
/// and by its range: a forced mapping that goes beyond that chunk goes across chunks; inside a
/// default chunk the chunk maps it; a single-area chunk refuses a hinted or needed address and
/// is unmapped there for a forced one; with no chunk there, a new one is made.
pub fn mmap_with_addr_step(found: Option<(bool, VMRange)>, target_range: &VMRange, addr: VMMapAddr) -> (r: Result<WithAddrStep, Errno>)
    requires
        !(addr is Any),
    ensures
        r == match found {
            None => Ok(WithAddrStep::NewChunk),
            Some((single, cr)) => {
                let inside = cr.start <= target_range.start && target_range.end <= cr.end;
                if !single {
                    if !inside && addr is Force { Ok(WithAddrStep::AcrossChunks) } else { Ok(WithAddrStep::InDefaultChunk) }
                } else if !(addr is Force) {
                    Err(Errno::ENOMEM)
                } else if !inside {
                    Ok(WithAddrStep::AcrossChunks)
                } else {
                    Ok(WithAddrStep::ForceUnmapSingle)
                }
            },
        },
{
    match found {
        None => Ok(WithAddrStep::NewChunk),
        Some((single, chunk_range)) => {
            let inside = chunk_range.is_superset_of(target_range);
            let force = match addr {
                VMMapAddr::Force(_) => true,
                _ => false,
            };
            if !single {
                if !inside && force {
                    Ok(WithAddrStep::AcrossChunks)
                } else {
                    Ok(WithAddrStep::InDefaultChunk)
                }
            } else if !force {
                Err(Errno::ENOMEM)
            } else if !inside {
                Ok(WithAddrStep::AcrossChunks)
            } else {
                Ok(WithAddrStep::ForceUnmapSingle)
            }
        },
    }
}

/// Whether `a` holds all of `b`.
pub open spec fn holds(a: VMRange, b: VMRange) -> bool {
    a.start <= b.start && b.end <= a.end
}

/// The chunk, given by the ranges of the process's chunks in order, that an mprotect of
/// `[addr, addr + size)` acts on: the first chunk that meets the range, which must hold all of
/// it (`EINVAL` otherwise, as a change across chunks is not supported); `ENOMEM` when no chunk
/// meets it. Both ends must be page aligned.
pub fn mprotect_chunk_target(chunk_ranges: &Vec<VMRange>, addr: usize, size: usize) -> (r: Result<usize, Errno>)
    requires
        addr + size <= usize::MAX,
    ensures
        ({
            let pr = VMRange { start: addr, end: (addr + size) as usize };
            let rs = chunk_ranges@;
            let aligned = addr % PAGE_SIZE == 0 && (addr + size) % (PAGE_SIZE as int) == 0;
            &&& !aligned ==> r == Err::<usize, Errno>(Errno::EINVAL)
            &&& (aligned && !(exists|i: int| 0 <= i < rs.len() && meets(#[trigger] rs[i], pr))) ==> r == Err::<usize, Errno>(Errno::ENOMEM)
            &&& aligned ==> forall|i: int| 0 <= i < rs.len() && meets(#[trigger] rs[i], pr)
                && (forall|j: int| 0 <= j < i ==> !meets(#[trigger] rs[j], pr)) ==>
                r == if holds(rs[i], pr) { Ok::<usize, Errno>(i as usize) } else { Err::<usize, Errno>(Errno::EINVAL) }
        }),
{
    let protect_range = match VMRange::new_with_size(addr, size) {
        Ok(v) => v,
        Err(e) => {
            return Err(e);
        },
    };
    let ghost rs = chunk_ranges@;
    let n = chunk_ranges.len();
    let mut i: usize = 0;
    while i < n
        invariant
            n == rs.len(),
            rs == chunk_ranges@,
            i <= n,
            forall|j: int| 0 <= j < i ==> !meets(#[trigger] rs[j], protect_range),
            addr % PAGE_SIZE == 0 && (addr + size) % (PAGE_SIZE as int) == 0,
            addr + size <= usize::MAX,
            protect_range == (VMRange { start: addr, end: (addr + size) as usize }),
        decreases n - i,
    {
        if chunk_ranges[i].intersect(&protect_range).is_some() {
            proof {
                assert(meets(rs[i as int], protect_range));
                assert forall|x: int| 0 <= x < rs.len() && meets(#[trigger] rs[x], protect_range)
                    && (forall|j: int| 0 <= j < x ==> !meets(#[trigger] rs[j], protect_range)) implies x == i by {
                    if x > i {
                        assert(!meets(rs[i as int], protect_range));
                    }
                }
            }
            if chunk_ranges[i].is_superset_of(&protect_range) {
                return Ok(i);
            }
            return Err(Errno::EINVAL);
        }
        i = i + 1;
    }
    Err(Errno::ENOMEM)
}

/// The chunk, given by the ranges of the process's chunks in order, that an msync or an
/// mremap of `[addr, addr + size)` acts on: the first chunk that holds all of the range;
/// `ENOMEM` when none does. Both ends must be page aligned.
pub fn chunk_holding_range(chunk_ranges: &Vec<VMRange>, addr: usize, size: usize) -> (r: Result<usize, Errno>)
    requires
        addr + size <= usize::MAX,
    ensures
        ({
            let sr = VMRange { start: addr, end: (addr + size) as usize };
            let rs = chunk_ranges@;
            let aligned = addr % PAGE_SIZE == 0 && (addr + size) % (PAGE_SIZE as int) == 0;
            &&& !aligned ==> r == Err::<usize, Errno>(Errno::EINVAL)
            &&& (aligned && !(exists|i: int| 0 <= i < rs.len() && holds(#[trigger] rs[i], sr))) ==> r == Err::<usize, Errno>(Errno::ENOMEM)
            &&& aligned ==> forall|i: int| 0 <= i < rs.len() && holds(#[trigger] rs[i], sr)
                && (forall|j: int| 0 <= j < i ==> !holds(#[trigger] rs[j], sr)) ==> r == Ok::<usize, Errno>(i as usize)
        }),
{
    let sync_range = match VMRange::new_with_size(addr, size) {
        Ok(v) => v,
        Err(e) => {
            return Err(e);
        },
    };
    let ghost rs = chunk_ranges@;
    let n = chunk_ranges.len();
    let mut i: usize = 0;
    while i < n
        invariant
            n == rs.len(),
            rs == chunk_ranges@,
            i <= n,
            forall|j: int| 0 <= j < i ==> !holds(#[trigger] rs[j], sync_range),
            addr % PAGE_SIZE == 0 && (addr + size) % (PAGE_SIZE as int) == 0,
            addr + size <= usize::MAX,
            sync_range == (VMRange { start: addr, end: (addr + size) as usize }),
        decreases n - i,
    {
        if chunk_ranges[i].is_superset_of(&sync_range) {
            proof {
                assert(holds(rs[i as int], sync_range));
                assert forall|x: int| 0 <= x < rs.len() && holds(#[trigger] rs[x], sync_range)
                    && (forall|j: int| 0 <= j < x ==> !holds(#[trigger] rs[j], sync_range)) implies x == i by {
                    if x > i {
                        assert(!holds(rs[i as int], sync_range));
                    }
                }
            }
            return Ok(i);
        }
        i = i + 1;
    }
    Err(Errno::ENOMEM)
}

/// Whether a file mapping may be made: the file must be readable, and writable when the
/// mapping writes back to it and may be written (`EACCES` otherwise). The file's modes are
/// `file_readable` and `file_writable`.
pub fn mmap_file_check_permissions(options: &VMMapOptions, file_readable: bool, file_writable: bool) -> (r: Result<(), Errno>)
    ensures
        r == if options.spec_initializer() is LoadFromFile && (!file_readable
            || (options.spec_writeback_file() is Some && !file_writable && options.spec_perms().has(VM_PERM_WRITE))) {
            Err::<(), Errno>(Errno::EACCES)
        } else {
            Ok::<(), Errno>(())
        },
{
    match options.initializer() {
        VMInitializer::LoadFromFile { .. } => {
            if !file_readable {
                return Err(Errno::EACCES);
            }
            if options.writeback_file().is_some() && !file_writable && options.perms().can_write() {
                return Err(Errno::EACCES);
            }
            Ok(())
        },
        _ => Ok(()),
    }
}

/// The address an mremap returns, given its plan and, when the plan maps, the result of that
/// mapping: the old address when nothing is mapped; `EAGAIN` when the mapping failed but the
/// request may move, as the free space found while planning may be there again; otherwise the
/// address the plan knows, or else the one the mapping gave.
pub fn mremap_return_addr(plan: &VMRemapResult, mmap_result: Option<Result<usize, Errno>>, old_addr: usize) -> (r: Result<usize, Errno>)
    requires
        plan.spec_mmap_options() is Some ==> mmap_result is Some,
        plan.spec_mmap_options() is Some && !plan.spec_may_move() && plan.spec_mmap_result_addr() is None
            ==> mmap_result matches Some(Ok(_)),
    ensures
        r == match plan.spec_mmap_options() {
            None => Ok::<usize, Errno>(old_addr),
            Some(_) => match mmap_result->0 {
                Err(_) if plan.spec_may_move() => Err::<usize, Errno>(Errno::EAGAIN),
                res => match plan.spec_mmap_result_addr() {
                    Some(a) => Ok::<usize, Errno>(a),
                    None => Ok::<usize, Errno>(res->Ok_0),
                },
            },
        },
{
    match plan.mmap_options() {
        None => Ok(old_addr),
        Some(_) => {
            let res = match mmap_result {
                Some(res) => res,
                None => {
                    return Err(Errno::EAGAIN);
                },
            };
            if res.is_err() && plan.may_move() {
                return Err(Errno::EAGAIN);
            }
            match plan.mmap_result_addr() {
                Some(a) => Ok(*a),
                None => match res {
                    Ok(a) => Ok(a),
                    Err(e) => Err(e),
                },
            }
        },
    }
}

} // verus!

verus! {

/// The addresses of a range that may be absent.
pub open spec fn opt_addrs(g: Option<VMRange>) -> Set<int> {
    match g {
        Some(r) => r.addrs(),
        None => Set::empty(),
    }
}

/// The ranges of the list are nonempty and no two of them share an address.
pub open spec fn chunks_apart(s: Seq<VMRange>) -> bool {
    &&& forall|i: int| 0 <= i < s.len() ==> (#[trigger] s[i]).wf() && s[i].start < s[i].end
    &&& forall|i: int, j: int| 0 <= i < s.len() && 0 <= j < s.len() && i != j
        ==> (#[trigger] s[i]).end <= (#[trigger] s[j]).start || s[j].end <= s[i].start
}

/// The free ranges of a sorted list of nonempty ranges that lie in `r` end no later than `r`.
proof fn lemma_free_within(s: Seq<VMRange>, r: VMRange)
    requires
        ranges_sorted(s),
        ranges_nonempty(s),
        free_set(s).subset_of(r.addrs()),
    ensures
        forall|i: int| 0 <= i < s.len() ==> r.start <= (#[trigger] s[i]).start && s[i].end <= r.end,
{
    assert forall|i: int| 0 <= i < s.len() implies r.start <= (#[trigger] s[i]).start && s[i].end <= r.end by {
        assert(s[i].has(s[i].start as int));
        assert(s[i].has(s[i].end - 1));
        assert(in_ranges(s, s[i].start as int));
        assert(in_ranges(s, s[i].end - 1));
        assert(free_set(s).contains(s[i].start as int));
        assert(free_set(s).contains(s[i].end - 1));
    }
}

/// Ranges in address order, none empty, are apart.
proof fn lemma_sorted_apart(s: Seq<VMRange>)
    requires
        ranges_sorted(s),
        ranges_nonempty(s),
    ensures
        chunks_apart(s),
{
    assert forall|i: int, j: int| 0 <= i < s.len() && 0 <= j < s.len() && i != j
        implies (#[trigger] s[i]).end <= (#[trigger] s[j]).start || s[j].end <= s[i].start by {
        if i < j {
            assert(s[i].end <= s[j].start);
        } else {
            assert(s[j].end <= s[i].start);
        }
    }
}

/// The addresses of a list of ranges apart once its `k`-th range is replaced by `m`.
proof fn lemma_replace_addrs(s: Seq<VMRange>, k: int, m: Seq<VMRange>)
    requires
        chunks_apart(s),
        0 <= k < s.len(),
    ensures
        free_set(splice(s, k, k + 1, m)) == free_set(s).difference(s[k].addrs()).union(free_set(m)),
{
    lemma_splice(s, k, k + 1, m);
    lemma_one(s, k);
    let pre = s.subrange(0, k);
    let post = s.subrange(k + 1, s.len() as int);
    assert forall|a: int| free_set(splice(s, k, k + 1, m)).contains(a)
        <==> free_set(s).difference(s[k].addrs()).union(free_set(m)).contains(a) by {
        if in_ranges(pre, a) {
            let j = choose|j: int| 0 <= j < pre.len() && (#[trigger] pre[j]).has(a);
            assert(pre[j] == s[j]);
            assert(s[j].end <= s[k].start || s[k].end <= s[j].start);
        }
        if in_ranges(post, a) {
            let j = choose|j: int| 0 <= j < post.len() && (#[trigger] post[j]).has(a);
            assert(post[j] == s[j + k + 1]);
            assert(s[j + k + 1].end <= s[k].start || s[k].end <= s[j + k + 1].start);
        }
    }
    assert(free_set(splice(s, k, k + 1, m)) =~= free_set(s).difference(s[k].addrs()).union(free_set(m)));
}

/// Taking the `k`-th range out of a sorted list keeps it sorted.
proof fn lemma_remove_sorted(s: Seq<VMRange>, k: int)
    requires
        ranges_sorted(s),
        0 <= k < s.len(),
    ensures
        ranges_sorted(splice(s, k, k + 1, seq![])),
{
    let t = splice(s, k, k + 1, seq![]);
    assert forall|x: int| 0 <= x < t.len() implies (#[trigger] t[x]).wf() by {
        if x < k { assert(t[x] == s[x]); } else { assert(t[x] == s[x + 1]); }
    }
    assert forall|x: int, y: int| 0 <= x < y < t.len() implies (#[trigger] t[x]).end <= (#[trigger] t[y]).start by {
        let xx = if x < k { x } else { x + 1 };
        let yy = if y < k { y } else { y + 1 };
        assert(t[x] == s[xx] && t[y] == s[yy]);
    }
}

/// The parts of the range `c` that a part `p` of it cuts it into: the part before `p`, `p`
/// itself and the part after, those that are not empty, in address order.
pub open spec fn cut_parts(c: VMRange, p: VMRange) -> Seq<VMRange> {
    let before = if c.start < p.start { seq![VMRange { start: c.start, end: p.start }] } else { seq![] };
    let middle = if p.start < p.end { seq![p] } else { seq![] };
    let after = if p.end < c.end { seq![VMRange { start: p.end, end: c.end }] } else { seq![] };
    before + middle + after
}

/// The chunks that the requests `reqs` get, one after the other, each placed as a search of
/// the free ranges left by those before it places it, together with the free ranges left at
/// the end; nothing when one of them cannot be placed.
pub open spec fn alloc_seq(s: Seq<VMRange>, reqs: Seq<VMMapOptions>) -> Option<(Seq<VMRange>, Seq<VMRange>)>
    decreases reqs.len(),
{
    if reqs.len() == 0 {
        Some((seq![], s))
    } else {
        match alloc_seq(s, reqs.drop_last()) {
            None => None,
            Some((vs, t)) => {
                let q = reqs.last();
                match placement(t, q.spec_size() as int, q.spec_align() as int, q.spec_addr(), 0) {
                    None => None,
                    Some(v) => Some((vs.push(v), take_out(t, holder(t, v), v))),
                }
            },
        }
    }
}

/// When the first requests cannot all be placed, neither can all of them.
proof fn lemma_alloc_prefix_none(s: Seq<VMRange>, reqs: Seq<VMMapOptions>, j: int)
    requires
        0 <= j <= reqs.len(),
        alloc_seq(s, reqs.take(j)) is None,
    ensures
        alloc_seq(s, reqs) is None,
    decreases reqs.len() - j,
{
    if j == reqs.len() {
        assert(reqs.take(j) =~= reqs);
    } else {
        assert(reqs.take(j + 1).drop_last() =~= reqs.take(j));
        lemma_alloc_prefix_none(s, reqs, j + 1);
    }
}

/// A placed request starts on its alignment and has its size.
proof fn lemma_placement_aligned(s: Seq<VMRange>, q: VMMapOptions)
    requires
        q.wf(),
        placement(s, q.spec_size() as int, q.spec_align() as int, q.spec_addr(), 0) is Some,
    ensures
        ({
            let v = placement(s, q.spec_size() as int, q.spec_align() as int, q.spec_addr(), 0)->0;
            v.start % q.spec_align() == 0
        }),
{
    let size = q.spec_size() as int;
    let align = q.spec_align() as int;
    assert(align > 0);
    match q.spec_addr() {
        VMMapAddr::Any => {
            let i = choose|i: int| is_first_usable(s, i, size, align, 0);
            assert(s[i].start >= 0);
            lemma_align_up(s[i].start + 0, align);
        },
        VMMapAddr::Hint(h) => {
            if !(exists|i: int| 0 <= i < s.len() && hint_fits(#[trigger] s[i], size, align, h as int)) {
                let i = choose|i: int| is_best_usable(s, i, size, align, 0);
                lemma_align_up(s[i].start + 0, align);
            }
        },
        _ => {},
    }
}

/// The range of `size` bytes at the address that `r` gives, or its error.
pub open spec fn range_start(r: Result<usize, Errno>, size: usize) -> Result<VMRange, Errno> {
    match r {
        Ok(a) => Ok(VMRange { start: a, end: (a + size) as usize }),
        Err(e) => Err(e),
    }
}

/// The user space's global accounting: the ranges of the chunks in use and the free ranges,
/// beside an optional gap that belongs to neither. Every address of the user space lies in
/// exactly one of them.
pub struct InternalVMManager {
    range: VMRange,
    gap: Option<VMRange>,
    chunks: Vec<VMRange>,
    free_manager: VMFreeSpaceManager,
}

impl InternalVMManager {
    /// The user space.
    pub closed spec fn spec_range(&self) -> VMRange {
        self.range
    }

    /// The range that is neither free nor a chunk.
    pub closed spec fn spec_gap(&self) -> Option<VMRange> {
        self.gap
    }

    /// The ranges of the chunks in use.
    pub closed spec fn chunk_ranges(&self) -> Seq<VMRange> {
        self.chunks@
    }

    /// The free ranges.
    pub closed spec fn free_ranges(&self) -> Seq<VMRange> {
        self.free_manager.ranges()
    }

    /// The chunks are nonempty and in address order, the free ranges too, and the free ranges,
    /// the chunks and the gap share no address and together cover the user space.
    pub open spec fn wf(&self) -> bool {
        let lo = self.spec_range().start;
        let hi = self.spec_range().end;
        let f = free_set(self.free_ranges());
        let c = free_set(self.chunk_ranges());
        let g = opt_addrs(self.spec_gap());
        &&& self.spec_range().wf()
        &&& ranges_sorted(self.free_ranges())
        &&& (lo < hi ==> ranges_nonempty(self.free_ranges()))
        &&& (lo == hi ==> self.free_ranges() == seq![self.spec_range()] && self.chunk_ranges().len() == 0)
        &&& ranges_sorted(self.chunk_ranges())
        &&& ranges_nonempty(self.chunk_ranges())
        &&& (self.spec_gap() matches Some(gr) ==> gr.wf())
        &&& f.disjoint(c)
        &&& f.disjoint(g)
        &&& c.disjoint(g)
        &&& f.union(c).union(g) == self.spec_range().addrs()
    }

    /// The space `vm_range` with no chunk, all free but for `gap_range`, which must lie in it.
    pub fn init(vm_range: VMRange, gap_range: Option<VMRange>) -> (r: Self)
        requires
            vm_range.wf(),
            gap_range matches Some(g) ==> g.wf() && vm_range.start <= g.start && g.start < vm_range.end
                && g.end <= vm_range.end && vm_range.end + PAGE_SIZE + g.spec_size() <= usize::MAX,
        ensures
            r.wf(),
            r.spec_range() == vm_range,
            r.spec_gap() == gap_range,
            r.chunk_ranges().len() == 0,
            free_set(r.free_ranges()) == vm_range.addrs().difference(opt_addrs(gap_range)),
    {
        let mut free_manager = VMFreeSpaceManager::new(vm_range);
        let ghost s0 = free_manager.ranges();
        proof {
            lemma_single(vm_range);
            assert(free_set(s0) =~= vm_range.addrs());
        }
        if let Some(g) = gap_range {
            let res = free_manager.find_free_range(g.size(), PAGE_SIZE, VMMapAddr::Force(g.start()));
            proof {
                assert(s0[0] == vm_range);
                assert(s0[0].has(g.start as int));
            }
            let ghost v = res->Ok_0;
            let ghost i = choose|i: int| 0 <= i < s0.len() && s0[i].start <= v.start && v.end <= s0[i].end
                && free_manager.ranges() == take_out(s0, i, v);
            proof {
                lemma_take_out(s0, i, v);
                assert(v == g);
            }
        }
        let r = InternalVMManager { range: vm_range, gap: gap_range, chunks: Vec::new(), free_manager };
        proof {
            let f = free_set(r.free_ranges());
            let c = free_set(r.chunk_ranges());
            let g = opt_addrs(gap_range);
            assert(c =~= Set::<int>::empty());
            assert(f =~= vm_range.addrs().difference(g));
            assert(f.union(c).union(g) =~= vm_range.addrs());
            if vm_range.start == vm_range.end {
                assert(gap_range is None);
            }
        }
        r
    }

    /// Take a range of `size` bytes for a new chunk out of the free ranges, placed as `addr`
    /// asks and aligned to `align`, and count it among the chunks.
    #[verifier::spinoff_prover]
    #[verifier::rlimit(30)]
    pub fn find_chunk_space(&mut self, size: usize, align: usize, addr: VMMapAddr) -> (r: Result<VMRange, Errno>)
        requires
            old(self).wf(),
            size > 0,
            align > 0,
            !(addr is Need || addr is Force) ==> old(self).spec_range().end + align + size <= usize::MAX,
        ensures
            final(self).wf(),
            final(self).spec_range() == old(self).spec_range(),
            final(self).spec_gap() == old(self).spec_gap(),
            find_result(old(self).free_ranges(), final(self).free_ranges(), size as int, align as int, addr, 0, r),
            r is Err ==> final(self).chunk_ranges() == old(self).chunk_ranges(),
            r matches Ok(v) ==> exists|k: int| 0 <= k <= old(self).chunk_ranges().len()
                && final(self).chunk_ranges() == old(self).chunk_ranges().insert(k, v),
    {
        let ghost s0 = self.free_ranges();
        let ghost c0 = self.chunk_ranges();
        let ghost g = opt_addrs(self.gap);
        let ghost lo = self.range.start;
        let ghost hi = self.range.end;
        proof {
            if lo < hi {
                lemma_free_within(s0, self.range);
            }
            if !(addr is Need || addr is Force) {
                assert(ends_below(s0, (align + size) as int));
            }
        }
        let res = self.free_manager.find_free_range(size, align, addr);
        match res {
            Ok(v) => {
                let ghost i = choose|i: int| 0 <= i < s0.len() && s0[i].start <= v.start && v.end <= s0[i].end
                    && self.free_ranges() == take_out(s0, i, v);
                proof {
                    lemma_take_out(s0, i, v);
                    assert(lo < hi) by {
                        if lo == hi {
                            assert(s0[0].start == s0[0].end);
                        }
                    }
                    assert forall|a: int| v.has(a) implies free_set(s0).contains(a) by {
                        assert(s0[i].has(a));
                    }
                }
                proof {
                    lemma_sorted_apart(c0);
                    assert forall|j: int| 0 <= j < c0.len() implies v.end <= (#[trigger] c0[j]).start || c0[j].end <= v.start by {
                        if !(v.end <= c0[j].start || c0[j].end <= v.start) {
                            let a: int = if v.start > c0[j].start { v.start as int } else { c0[j].start as int };
                            assert(v.has(a) && c0[j].has(a));
                            assert(in_ranges(c0, a));
                            assert(free_set(c0).contains(a));
                            assert(free_set(s0).contains(a));
                        }
                    }
                }
                // The place of the new chunk in address order.
                let mut pos: usize = 0;
                while pos < self.chunks.len() && self.chunks[pos].start < v.start
                    invariant
                        c0 == self.chunks@,
                        pos <= c0.len(),
                        forall|j: int| 0 <= j < pos ==> (#[trigger] c0[j]).start < v.start,
                    decreases c0.len() - pos,
                {
                    pos = pos + 1;
                }
                self.chunks.insert(pos, v);
                proof {
                    let c1 = self.chunk_ranges();
                    assert(c1 =~= splice(c0, pos as int, pos as int, seq![v]));
                    assert(c1 =~= c0.insert(pos as int, v));
                    lemma_single(v);
                    assert(ranges_sorted(seq![v]));
                    if pos > 0 {
                        assert(c0[pos - 1].start < v.start);
                        assert(c0[pos - 1].end <= v.start);
                    }
                    if pos < c0.len() {
                        assert(c0[pos as int].start >= v.start);
                        assert(v.end <= c0[pos as int].start);
                    }
                    lemma_splice_sorted(c0, pos as int, pos as int, seq![v]);
                    lemma_splice_nonempty(c0, pos as int, pos as int, seq![v]);
                    assert(c0.subrange(pos as int, pos as int) =~= Seq::<VMRange>::empty());
                    assert(forall|x: int| #[trigger] in_ranges(c0.subrange(pos as int, pos as int), x) <==> false);
                    assert(sum_sizes(c0.subrange(pos as int, pos as int)) == 0);
                    lemma_splice_union(c0, pos as int, pos as int, seq![v], v);
                    let f1 = free_set(self.free_ranges());
                    assert(f1 =~= free_set(s0).difference(v.addrs()));
                    assert(f1.disjoint(free_set(c1)));
                    assert(f1.disjoint(g));
                    assert(free_set(c1).disjoint(g));
                    assert(f1.union(free_set(c1)).union(g) =~= self.range.addrs());
                }
                Ok(v)
            },
            Err(e) => Err(e),
        }
    }

    /// Take the space of a default chunk, placed as `addr` asks.
    pub fn mmap_chunk_default(&mut self, addr: VMMapAddr) -> (r: Result<VMRange, Errno>)
        requires
            old(self).wf(),
            !(addr is Need || addr is Force) ==> old(self).spec_range().end + PAGE_SIZE + CHUNK_DEFAULT_SIZE <= usize::MAX,
        ensures
            final(self).wf(),
            final(self).spec_range() == old(self).spec_range(),
            final(self).spec_gap() == old(self).spec_gap(),
            find_result(old(self).free_ranges(), final(self).free_ranges(), CHUNK_DEFAULT_SIZE as int, PAGE_SIZE as int, addr, 0, r),
            r is Err ==> final(self).chunk_ranges() == old(self).chunk_ranges(),
            r matches Ok(v) ==> exists|k: int| 0 <= k <= old(self).chunk_ranges().len()
                && final(self).chunk_ranges() == old(self).chunk_ranges().insert(k, v),
    {
        self.find_chunk_space(CHUNK_DEFAULT_SIZE, PAGE_SIZE, addr)
    }

    /// Take the space of a chunk for the single area that `options` asks for.
    pub fn mmap_chunk(&mut self, options: &VMMapOptions) -> (r: Result<VMRange, Errno>)
        requires
            old(self).wf(),
            options.wf(),
            !(options.spec_addr() is Need || options.spec_addr() is Force) ==> old(self).spec_range().end + options.spec_align() + options.spec_size() <= usize::MAX,
        ensures
            final(self).wf(),
            final(self).spec_range() == old(self).spec_range(),
            final(self).spec_gap() == old(self).spec_gap(),
            find_result(old(self).free_ranges(), final(self).free_ranges(), options.spec_size() as int,
                options.spec_align() as int, options.spec_addr(), 0, r),
            r is Err ==> final(self).chunk_ranges() == old(self).chunk_ranges(),
            r matches Ok(v) ==> exists|k: int| 0 <= k <= old(self).chunk_ranges().len()
                && final(self).chunk_ranges() == old(self).chunk_ranges().insert(k, v),
    {
        assert(options.spec_align() > 0);
        self.find_chunk_space(*options.size(), *options.align(), *options.addr())
    }

    /// Take the space of a chunk for each request of `requests`, in turn, as a new process's
    /// memory is laid out; when one cannot be had, give back the space taken for those before
    /// it and fail with its error, so that nothing is left over.
    #[verifier::spinoff_prover]
    #[verifier::rlimit(40)]
    pub fn alloc_chunks(&mut self, requests: &Vec<VMMapOptions>) -> (r: Result<Vec<VMRange>, Errno>)
        requires
            old(self).wf(),
            forall|i: int| 0 <= i < requests@.len() ==> (#[trigger] requests@[i]).wf()
                && (!(requests@[i].spec_addr() is Need || requests@[i].spec_addr() is Force)
                    ==> old(self).spec_range().end + requests@[i].spec_align() + requests@[i].spec_size() <= usize::MAX),
        ensures
            final(self).wf(),
            final(self).spec_range() == old(self).spec_range(),
            final(self).spec_gap() == old(self).spec_gap(),
            r is Ok <==> alloc_seq(old(self).free_ranges(), requests@) is Some,
            r matches Ok(v) ==> {
                &&& alloc_seq(old(self).free_ranges(), requests@) == Some((v@, final(self).free_ranges()))
                &&& v@.len() == requests@.len()
                &&& forall|i: int| 0 <= i < v@.len() ==> (#[trigger] v@[i]).end - v@[i].start == requests@[i].spec_size()
                    && v@[i].start % requests@[i].spec_align() == 0
                    && final(self).chunk_ranges().contains(v@[i])
                &&& free_set(final(self).free_ranges()) == free_set(old(self).free_ranges()).difference(free_set(v@))
                &&& free_set(final(self).chunk_ranges()) == free_set(old(self).chunk_ranges()).union(free_set(v@))
            },
            r is Err ==> r == Err::<Vec<VMRange>, Errno>(Errno::ENOMEM)
                && free_set(final(self).free_ranges()) == free_set(old(self).free_ranges())
                && free_set(final(self).chunk_ranges()) == free_set(old(self).chunk_ranges()),
    {
        let ghost f0 = free_set(self.free_ranges());
        let ghost k0 = free_set(self.chunk_ranges());
        let ghost g = opt_addrs(self.gap);
        let ghost fl = self.free_ranges();
        let mut taken: Vec<VMRange> = Vec::new();
        proof {
            assert(requests@.take(0) =~= Seq::<VMMapOptions>::empty());
        }
        let mut i: usize = 0;
        let mut failure: Option<Errno> = None;
        while i < requests.len()
            invariant_except_break
                failure is None,
            invariant
                self.wf(),
                self.range == old(self).range,
                self.gap == old(self).gap,
                g == opt_addrs(self.gap),
                f0 == free_set(old(self).free_ranges()),
                k0 == free_set(old(self).chunk_ranges()),
                f0.disjoint(k0),
                f0.union(k0).union(g) == self.range.addrs(),
                f0.disjoint(g),
                k0.disjoint(g),
                i <= requests@.len(),
                failure is None ==> taken@.len() == i,
                taken@.len() <= requests@.len(),
                forall|j: int| 0 <= j < requests@.len() ==> (#[trigger] requests@[j]).wf()
                    && (!(requests@[j].spec_addr() is Need || requests@[j].spec_addr() is Force)
                        ==> old(self).spec_range().end + requests@[j].spec_align() + requests@[j].spec_size() <= usize::MAX),
                forall|j: int| 0 <= j < taken@.len() ==> (#[trigger] taken@[j]).end - taken@[j].start == requests@[j].spec_size()
                    && taken@[j].wf() && taken@[j].start < taken@[j].end && self.chunk_ranges().contains(taken@[j]),
                forall|j1: int, j2: int| 0 <= j1 < j2 < taken@.len() ==> #[trigger] taken@[j1] != #[trigger] taken@[j2],
                free_set(self.free_ranges()) == f0.difference(free_set(taken@)),
                free_set(taken@).subset_of(f0),
                fl == old(self).free_ranges(),
                failure is None ==> alloc_seq(fl, requests@.take(i as int)) == Some((taken@, self.free_ranges())),
                failure is Some ==> alloc_seq(fl, requests@) is None && failure == Some(Errno::ENOMEM),
                forall|j: int| 0 <= j < taken@.len() ==> (#[trigger] taken@[j]).start % requests@[j].spec_align() == 0,
            ensures
                failure is None ==> taken@.len() == requests@.len(),
            decreases requests@.len() - i,
        {
            let ghost s0 = self.free_ranges();
            let ghost c0 = self.chunk_ranges();
            let ghost q = requests@[i as int];
            let res = self.mmap_chunk(&requests[i]);
            proof {
                lemma_find_result_placement(s0, self.free_ranges(), q.spec_size() as int, q.spec_align() as int, q.spec_addr(), 0, res);
                assert(requests@.take(i as int + 1).drop_last() =~= requests@.take(i as int));
                assert(requests@.take(i as int + 1).last() == q);
                if res is Err {
                    lemma_alloc_prefix_none(fl, requests@, i as int + 1);
                } else {
                    lemma_placement_aligned(s0, q);
                }
            }
            match res {
                Ok(v) => {
                    proof {
                        let ii = choose|ii: int| 0 <= ii < s0.len() && s0[ii].start <= v.start && v.end <= s0[ii].end
                            && self.free_ranges() == take_out(s0, ii, v);
                        lemma_take_out(s0, ii, v);
                        assert forall|a: int| v.has(a) implies free_set(s0).contains(a) by {
                            assert(s0[ii].has(a));
                        }
                        let kk = choose|kk: int| 0 <= kk <= c0.len() && self.chunk_ranges() == c0.insert(kk, v);
                        assert(self.chunk_ranges()[kk] == v);
                        assert forall|j: int| 0 <= j < taken@.len() implies self.chunk_ranges().contains(#[trigger] taken@[j]) by {
                            let q = choose|q: int| 0 <= q < c0.len() && c0[q] == taken@[j];
                            if q < kk { assert(self.chunk_ranges()[q] == c0[q]); } else { assert(self.chunk_ranges()[q + 1] == c0[q]); }
                        }
                        assert forall|j: int| 0 <= j < taken@.len() implies #[trigger] taken@[j] != v by {
                            assert(taken@[j].has(taken@[j].start as int));
                            assert(in_ranges(taken@, taken@[j].start as int));
                            assert(!free_set(s0).contains(taken@[j].start as int));
                        }
                    }
                    let ghost t0 = taken@;
                    taken.push(v);
                    proof {
                        assert(taken@ =~= t0 + seq![v]);
                        lemma_single(v);
                        assert forall|a: int| #[trigger] in_ranges(taken@, a) <==> in_ranges(t0, a) || v.has(a) by {
                            lemma_in_ranges_concat(t0, seq![v], a);
                        }
                        assert(free_set(self.free_ranges()) =~= f0.difference(free_set(taken@)));
                        assert(free_set(taken@).subset_of(f0));
                        assert forall|j: int| 0 <= j < taken@.len() implies (#[trigger] taken@[j]).end - taken@[j].start == requests@[j].spec_size()
                            && taken@[j].wf() && taken@[j].start < taken@[j].end && self.chunk_ranges().contains(taken@[j]) by {
                            if j < t0.len() { assert(taken@[j] == t0[j]); } else { assert(taken@[j] == v); }
                        }
                        assert forall|j1: int, j2: int| 0 <= j1 < j2 < taken@.len() implies #[trigger] taken@[j1] != #[trigger] taken@[j2] by {
                            assert(taken@[j1] == t0[j1]);
                            if j2 < t0.len() { assert(taken@[j2] == t0[j2]); } else { assert(taken@[j2] == v); }
                        }
                        assert(taken@ =~= t0.push(v));
                        assert forall|j: int| 0 <= j < taken@.len() implies (#[trigger] taken@[j]).start % requests@[j].spec_align() == 0 by {
                            if j < t0.len() { assert(taken@[j] == t0[j]); } else { assert(taken@[j] == v); }
                        }
                    }
                },
                Err(e) => {
                    failure = Some(e);
                    break;
                },
            }
            i = i + 1;
        }
        match failure {
            None => {
                proof {
                    assert(requests@.take(requests@.len() as int) =~= requests@);
                    let fc = free_set(self.chunk_ranges());
                    let ft = free_set(taken@);
                    let f = free_set(self.free_ranges());
                    assert(f.union(fc).union(g) == self.range.addrs());
                    assert(fc =~= k0.union(ft)) by {
                        assert forall|a: int| fc.contains(a) <==> k0.union(ft).contains(a) by {
                            assert(f.union(fc).union(g).contains(a) == self.range.addrs().contains(a));
                            assert(f0.union(k0).union(g).contains(a) == self.range.addrs().contains(a));
                            if ft.contains(a) {
                                assert(f0.contains(a));
                            }
                        }
                    }
                }
                Ok(taken)
            },
            Some(e) => {
                proof {
                    assert(taken@.subrange(0, taken@.len() as int) =~= taken@);
                }
                let mut j: usize = 0;
                while j < taken.len()
                    invariant
                        self.wf(),
                        self.range == old(self).range,
                        self.gap == old(self).gap,
                        g == opt_addrs(self.gap),
                        f0 == free_set(old(self).free_ranges()),
                        k0 == free_set(old(self).chunk_ranges()),
                        f0.disjoint(k0),
                        f0.union(k0).union(g) == self.range.addrs(),
                        f0.disjoint(g),
                        k0.disjoint(g),
                        j <= taken@.len(),
                        forall|q: int| j <= q < taken@.len() ==> self.chunk_ranges().contains(#[trigger] taken@[q]),
                        forall|q: int| 0 <= q < taken@.len() ==> (#[trigger] taken@[q]).wf() && taken@[q].start < taken@[q].end,
                        forall|j1: int, j2: int| 0 <= j1 < j2 < taken@.len() ==> #[trigger] taken@[j1] != #[trigger] taken@[j2],
                        free_set(self.free_ranges()) == f0.difference(free_set(taken@.subrange(j as int, taken@.len() as int))),
                        free_set(taken@).subset_of(f0),
                    decreases taken@.len() - j,
                {
                    let ghost c0 = self.chunk_ranges();
                    let ghost fr0 = free_set(self.free_ranges());
                    let ghost t = taken@;
                    self.free_chunk(&taken[j]);
                    proof {
                        let kk = choose|kk: int| 0 <= kk < c0.len() && c0[kk] == t[j as int]
                            && self.chunk_ranges() == c0.remove(kk);
                        assert forall|q: int| j + 1 <= q < t.len() implies self.chunk_ranges().contains(#[trigger] t[q]) by {
                            let w = choose|w: int| 0 <= w < c0.len() && c0[w] == t[q];
                            assert(t[q] != t[j as int]);
                            assert(w != kk);
                            if w < kk { assert(self.chunk_ranges()[w] == c0[w]); } else { assert(self.chunk_ranges()[w - 1] == c0[w]); }
                        }
                        let rest0 = t.subrange(j as int, t.len() as int);
                        let rest1 = t.subrange(j + 1, t.len() as int);
                        assert(rest0 =~= seq![t[j as int]] + rest1);
                        lemma_single(t[j as int]);
                        assert forall|a: int| #[trigger] in_ranges(rest0, a) <==> t[j as int].has(a) || in_ranges(rest1, a) by {
                            lemma_in_ranges_concat(seq![t[j as int]], rest1, a);
                        }
                        assert forall|a: int| t[j as int].has(a) implies f0.contains(a) by {
                            assert(in_ranges(t, a));
                            assert(free_set(t).contains(a));
                        }
                        assert(free_set(self.free_ranges()) =~= f0.difference(free_set(rest1)));
                    }
                    j = j + 1;
                }
                proof {
                    assert(taken@.subrange(j as int, taken@.len() as int) =~= Seq::<VMRange>::empty());
                    assert(free_set(Seq::<VMRange>::empty()) =~= Set::<int>::empty());
                    assert(free_set(self.free_ranges()) =~= f0);
                    let fc = free_set(self.chunk_ranges());
                    let f = free_set(self.free_ranges());
                    assert(f.union(fc).union(g) == self.range.addrs());
                    assert(fc =~= k0) by {
                        assert forall|a: int| fc.contains(a) <==> k0.contains(a) by {
                            assert(f.union(fc).union(g).contains(a) == self.range.addrs().contains(a));
                            assert(f0.union(k0).union(g).contains(a) == self.range.addrs().contains(a));
                        }
                    }
                }
                Err(e)
            },
        }
    }

    /// Replace the `k`-th chunk by `pieces`, parts of it in address order, and give `freed`,
    /// the rest of it, back to the free ranges.
    #[verifier::spinoff_prover]
    #[verifier::rlimit(40)]
    fn replace_chunk(&mut self, k: usize, freed: VMRange, pieces: Vec<VMRange>)
        requires
            old(self).wf(),
            k < old(self).chunk_ranges().len(),
            freed.wf(),
            old(self).chunk_ranges()[k as int].start <= freed.start,
            freed.end <= old(self).chunk_ranges()[k as int].end,
            ranges_sorted(pieces@),
            ranges_nonempty(pieces@),
            forall|i: int| 0 <= i < pieces@.len() ==> old(self).chunk_ranges()[k as int].start <= (#[trigger] pieces@[i]).start
                && pieces@[i].end <= old(self).chunk_ranges()[k as int].end,
            free_set(pieces@) == old(self).chunk_ranges()[k as int].addrs().difference(freed.addrs()),
        ensures
            final(self).wf(),
            final(self).spec_range() == old(self).spec_range(),
            final(self).spec_gap() == old(self).spec_gap(),
            final(self).chunk_ranges() == splice(old(self).chunk_ranges(), k as int, k as int + 1, pieces@),
            freed.start < freed.end ==> final(self).free_ranges() == put_back(old(self).free_ranges(), freed),
            freed.start >= freed.end ==> final(self).free_ranges() == old(self).free_ranges(),
            free_set(final(self).free_ranges()) == free_set(old(self).free_ranges()).union(freed.addrs()),
            free_set(final(self).chunk_ranges()) == free_set(old(self).chunk_ranges()).difference(freed.addrs()),
    {
        let ghost s0 = self.free_ranges();
        let ghost c0 = self.chunk_ranges();
        let ghost ck = c0[k as int];
        let ghost g = opt_addrs(self.gap);
        proof {
            lemma_sorted_apart(c0);
            assert(c0[k as int].start < c0[k as int].end);
            assert(self.range.start < self.range.end) by {
                if self.range.start == self.range.end {
                    assert(c0.len() == 0);
                }
            }
            if freed.start < freed.end {
                assert forall|a: int| freed.has(a) implies !in_ranges(s0, a) by {
                    assert(ck.has(a));
                    assert(in_ranges(c0, a));
                    assert(free_set(c0).contains(a));
                    if in_ranges(s0, a) {
                        assert(free_set(s0).contains(a));
                    }
                }
                lemma_disjoint_has_slot(s0, freed);
            }
        }
        self.chunks.remove(k);
        let mut i: usize = 0;
        while i < pieces.len()
            invariant
                i <= pieces@.len(),
                k < c0.len(),
                self.chunks@ == c0.subrange(0, k as int) + pieces@.subrange(0, i as int) + c0.subrange(k + 1, c0.len() as int),
                self.free_manager == old(self).free_manager,
                self.range == old(self).range,
                self.gap == old(self).gap,
            decreases pieces@.len() - i,
        {
            let len = self.chunks.len();
            assert(self.chunks@.len() == k + i + (c0.len() - k - 1));
            assert(k + i <= len);
            self.chunks.insert(k + i, pieces[i]);
            proof {
                assert(pieces@.subrange(0, i as int + 1) =~= pieces@.subrange(0, i as int).push(pieces@[i as int]));
                assert(self.chunks@ =~= c0.subrange(0, k as int) + pieces@.subrange(0, i as int + 1) + c0.subrange(k + 1, c0.len() as int));
            }
            i = i + 1;
        }
        proof {
            assert(pieces@.subrange(0, pieces@.len() as int) =~= pieces@);
            assert(self.chunks@ =~= splice(c0, k as int, k as int + 1, pieces@));
        }
        if freed.start < freed.end {
            let _ = self.free_manager.add_range_back_to_free_manager(&freed);
        }
        proof {
            let c1 = self.chunk_ranges();
            let p = pieces@;
            if p.len() > 0 {
                if k > 0 {
                    assert(c0[k - 1].end <= c0[k as int].start);
                }
                if k + 1 < c0.len() {
                    assert(c0[k as int].end <= c0[k + 1].start);
                }
                assert(p.last() == p[p.len() - 1]);
                lemma_splice_sorted(c0, k as int, k as int + 1, p);
            } else {
                assert(p =~= Seq::<VMRange>::empty());
                lemma_remove_sorted(c0, k as int);
            }
            lemma_splice_nonempty(c0, k as int, k as int + 1, p);
            lemma_replace_addrs(c0, k as int, p);
            let fc1 = free_set(c1);
            assert(fc1 =~= free_set(c0).difference(freed.addrs())) by {
                assert forall|a: int| fc1.contains(a) <==> free_set(c0).difference(freed.addrs()).contains(a) by {
                    if ck.has(a) {
                        assert(in_ranges(c0, a));
                        assert(free_set(p).contains(a) == (ck.has(a) && !freed.has(a)));
                    }
                }
            }
            let f1 = free_set(self.free_ranges());
            assert(f1 =~= free_set(s0).union(freed.addrs())) by {
                if freed.start >= freed.end {
                    assert(freed.addrs() =~= Set::<int>::empty());
                }
            }
            assert forall|a: int| freed.has(a) implies !g.contains(a) by {
                assert(ck.has(a));
                assert(in_ranges(c0, a));
                assert(free_set(c0).contains(a));
            }
            assert(f1.disjoint(fc1));
            assert(f1.disjoint(g));
            assert(fc1.disjoint(g));
            assert(f1.union(fc1).union(g) =~= self.range.addrs()) by {
                assert forall|a: int| freed.has(a) implies self.range.addrs().contains(a) by {
                    assert(ck.has(a));
                    assert(in_ranges(c0, a));
                    assert(free_set(c0).contains(a));
                }
            }
        }
    }

    /// The index of the chunk `chunk_range`.
    fn chunk_index(&self, chunk_range: &VMRange) -> (r: usize)
        requires
            self.chunk_ranges().contains(*chunk_range),
        ensures
            r < self.chunk_ranges().len(),
            self.chunk_ranges()[r as int] == *chunk_range,
    {
        let mut i: usize = 0;
        while i < self.chunks.len()
            invariant
                i <= self.chunks@.len(),
                self.chunks@.contains(*chunk_range),
                forall|j: int| 0 <= j < i ==> self.chunks@[j] != *chunk_range,
            decreases self.chunks@.len() - i,
        {
            if self.chunks[i].start == chunk_range.start && self.chunks[i].end == chunk_range.end {
                return i;
            }
            i = i + 1;
        }
        proof {
            let j = choose|j: int| 0 <= j < self.chunks@.len() && self.chunks@[j] == *chunk_range;
            assert(self.chunks@[j] != *chunk_range);
        }
        0
    }

    /// Give the chunk `chunk_range` back: it is no chunk any more, and its space is free again.
    pub fn free_chunk(&mut self, chunk_range: &VMRange)
        requires
            old(self).wf(),
            old(self).chunk_ranges().contains(*chunk_range),
        ensures
            final(self).wf(),
            final(self).spec_range() == old(self).spec_range(),
            final(self).spec_gap() == old(self).spec_gap(),
            exists|k: int| 0 <= k < old(self).chunk_ranges().len() && old(self).chunk_ranges()[k] == *chunk_range
                && final(self).chunk_ranges() == old(self).chunk_ranges().remove(k),
            final(self).free_ranges() == put_back(old(self).free_ranges(), *chunk_range),
            free_set(final(self).free_ranges()) == free_set(old(self).free_ranges()).union(chunk_range.addrs()),
    {
        let k = self.chunk_index(chunk_range);
        let pieces: Vec<VMRange> = Vec::new();
        proof {
            assert(free_set(pieces@) =~= chunk_range.addrs().difference(chunk_range.addrs()));
            assert(self.chunk_ranges()[k as int].start < self.chunk_ranges()[k as int].end);
        }
        self.replace_chunk(k, *chunk_range, pieces);
        assert(self.chunk_ranges() =~= old(self).chunk_ranges().remove(k as int));
        assert(free_set(self.free_ranges()) == free_set(old(self).free_ranges()).union(chunk_range.addrs()));
    }

    /// Unmap `munmap_range` from the chunk `chunk_range`, which holds a single area and shares
    /// addresses with it: the common part becomes free, and what is left of the chunk, no
    /// piece, one or two, stays in use, each piece a chunk of its own. Returns those pieces.
    pub fn munmap_chunk_range(&mut self, chunk_range: &VMRange, munmap_range: &VMRange) -> (r: Vec<VMRange>)
        requires
            old(self).wf(),
            old(self).chunk_ranges().contains(*chunk_range),
            munmap_range.wf(),
            munmap_range.start < munmap_range.end,
            chunk_range.start < munmap_range.end,
            munmap_range.start < chunk_range.end,
        ensures
            final(self).wf(),
            final(self).spec_range() == old(self).spec_range(),
            final(self).spec_gap() == old(self).spec_gap(),
            ({
                let inter = VMRange {
                    start: if chunk_range.start > munmap_range.start { chunk_range.start } else { munmap_range.start },
                    end: if chunk_range.end < munmap_range.end { chunk_range.end } else { munmap_range.end },
                };
                &&& r@ == crate::vm_range::subtract_spec(*chunk_range, inter)
                &&& exists|k: int| 0 <= k < old(self).chunk_ranges().len() && old(self).chunk_ranges()[k] == *chunk_range
                    && final(self).chunk_ranges() == splice(old(self).chunk_ranges(), k, k + 1, r@)
                &&& final(self).free_ranges() == put_back(old(self).free_ranges(), inter)
                &&& free_set(final(self).free_ranges()) == free_set(old(self).free_ranges()).union(inter.addrs())
            }),
    {
        let k = self.chunk_index(chunk_range);
        let inter = match chunk_range.intersect(munmap_range) {
            Some(i) => i,
            None => {
                assert(false);
                return Vec::new();
            },
        };
        proof {
            assert(self.chunks@[k as int].wf());
        }
        let pieces = chunk_range.subtract(&inter);
        proof {
            crate::vm_range::lemma_subtract_spec(*chunk_range, inter);
            assert(free_set(pieces@) =~= chunk_range.addrs().difference(inter.addrs())) by {
                assert forall|a: int| free_set(pieces@).contains(a) <==> chunk_range.addrs().difference(inter.addrs()).contains(a) by {
                    if chunk_range.has(a) && !inter.has(a) {
                        let i = choose|i: int| 0 <= i < pieces@.len() && (#[trigger] pieces@[i]).has(a);
                        assert(in_ranges(pieces@, a));
                    }
                    if in_ranges(pieces@, a) {
                        let i = choose|i: int| 0 <= i < pieces@.len() && (#[trigger] pieces@[i]).has(a);
                        assert(chunk_range.has(a) && !inter.has(a));
                    }
                }
            }
            assert(ranges_sorted(pieces@) && ranges_nonempty(pieces@)) by {
                assert forall|x: int| 0 <= x < pieces@.len() implies (#[trigger] pieces@[x]).wf() && pieces@[x].start < pieces@[x].end by {}
                if pieces@.len() == 2 {
                    assert(pieces@[0].end <= pieces@[1].start);
                }
            }
        }
        self.replace_chunk(k, inter, pieces.clone());
        pieces
    }

    /// Split the chunk `chunk_range`, which holds a single area, where `protect_range`, a part
    /// of it, begins and ends, as a change of permissions over that part splits its area: the
    /// part before, the part itself and the part after, those of them that are not empty, each
    /// become a chunk of their own. No memory becomes free. Returns those parts.
    pub fn split_chunk(&mut self, chunk_range: &VMRange, protect_range: &VMRange) -> (r: Vec<VMRange>)
        requires
            old(self).wf(),
            old(self).chunk_ranges().contains(*chunk_range),
            chunk_range.start <= protect_range.start,
            protect_range.start <= protect_range.end,
            protect_range.end <= chunk_range.end,
        ensures
            final(self).wf(),
            final(self).spec_range() == old(self).spec_range(),
            final(self).spec_gap() == old(self).spec_gap(),
            final(self).free_ranges() == old(self).free_ranges(),
            r@ == cut_parts(*chunk_range, *protect_range),
            exists|k: int| 0 <= k < old(self).chunk_ranges().len() && old(self).chunk_ranges()[k] == *chunk_range
                && final(self).chunk_ranges() == splice(old(self).chunk_ranges(), k, k + 1, r@),
    {
        let k = self.chunk_index(chunk_range);
        let c = *chunk_range;
        let p = *protect_range;
        let mut pieces: Vec<VMRange> = Vec::new();
        if c.start < p.start {
            pieces.push(VMRange { start: c.start, end: p.start });
        }
        if p.start < p.end {
            pieces.push(p);
        }
        if p.end < c.end {
            pieces.push(VMRange { start: p.end, end: c.end });
        }
        let freed = VMRange { start: p.start, end: p.start };
        proof {
            let ps = pieces@;
            assert(ps =~= cut_parts(c, p));
            assert(ranges_sorted(ps) && ranges_nonempty(ps)) by {
                assert forall|x: int, y: int| 0 <= x < y < ps.len() implies (#[trigger] ps[x]).end <= (#[trigger] ps[y]).start by {}
            }
            assert(free_set(ps) =~= c.addrs().difference(freed.addrs())) by {
                assert forall|a: int| free_set(ps).contains(a) <==> c.addrs().difference(freed.addrs()).contains(a) by {
                    if c.has(a) {
                        if a < p.start {
                            assert(ps[0].has(a));
                        } else if a < p.end {
                            let j: int = if c.start < p.start { 1 } else { 0 };
                            assert(ps[j] == p);
                            assert(ps[j].has(a));
                        } else {
                            assert(ps[ps.len() - 1].has(a));
                        }
                    }
                    if in_ranges(ps, a) {
                        let j = choose|j: int| 0 <= j < ps.len() && (#[trigger] ps[j]).has(a);
                    }
                }
            }
        }
        self.replace_chunk(k, freed, pieces.clone());
        pieces
    }

    /// Join the chunk `left` with the chunk `right` that starts where it ends, as when a shared
    /// area grows into the chunk made for its new part: one chunk covers both. No memory
    /// becomes free.
    #[verifier::spinoff_prover]
    #[verifier::rlimit(30)]
    pub fn merge_chunks(&mut self, left: &VMRange, right: &VMRange) -> (r: VMRange)
        requires
            old(self).wf(),
            old(self).chunk_ranges().contains(*left),
            old(self).chunk_ranges().contains(*right),
            left.end == right.start,
        ensures
            final(self).wf(),
            final(self).spec_range() == old(self).spec_range(),
            final(self).spec_gap() == old(self).spec_gap(),
            final(self).free_ranges() == old(self).free_ranges(),
            r == (VMRange { start: left.start, end: right.end }),
            exists|k: int| 0 <= k && k + 1 < old(self).chunk_ranges().len() && #[trigger] old(self).chunk_ranges()[k] == *left
                && old(self).chunk_ranges()[k + 1] == *right
                && final(self).chunk_ranges() == splice(old(self).chunk_ranges(), k, k + 2, seq![r]),
    {
        let k = self.chunk_index(left);
        let j = self.chunk_index(right);
        let ghost c0 = self.chunk_ranges();
        let ghost g = opt_addrs(self.gap);
        let m = VMRange { start: left.start, end: right.end };
        proof {
            assert(c0[k as int].start < c0[k as int].end);
            assert(c0[j as int].start < c0[j as int].end);
            if j < k {
                assert(c0[j as int].end <= c0[k as int].start);
            }
            if j > k + 1 {
                assert(c0[k as int].end <= c0[k + 1].start);
                assert(c0[k + 1].end <= c0[j as int].start);
                assert(c0[k + 1].start < c0[k + 1].end);
            }
            assert(j == k + 1);
        }
        self.chunks.set(k, m);
        self.chunks.remove(k + 1);
        proof {
            let c1 = self.chunk_ranges();
            assert(c1 =~= splice(c0, k as int, k as int + 2, seq![m]));
            lemma_single(m);
            assert(ranges_sorted(seq![m]));
            if k > 0 {
                assert(c0[k - 1].end <= c0[k as int].start);
            }
            if k + 2 < c0.len() {
                assert(c0[k + 1].end <= c0[k + 2].start);
            }
            lemma_splice_sorted(c0, k as int, k as int + 2, seq![m]);
            lemma_splice_nonempty(c0, k as int, k as int + 2, seq![m]);
            lemma_splice(c0, k as int, k as int + 2, seq![m]);
            crate::free_space_manager::lemma_pair(c0, k as int);
            assert(free_set(c1) =~= free_set(c0)) by {
                assert forall|a: int| free_set(c1).contains(a) <==> free_set(c0).contains(a) by {
                    assert(in_ranges(seq![m], a) <==> m.has(a));
                    assert(in_ranges(c0.subrange(k as int, k as int + 2), a) <==> c0[k as int].has(a) || c0[k + 1].has(a));
                }
            }
        }
        m
    }

    /// Carry out the step `step` that the shared memory manager decided for the shared mapping
    /// `options`, given the range of the file's shared chunk when it has one: a share gives its
    /// address; a new shared chunk takes the space of a chunk; a shared chunk that grows takes
    /// the space of the new part and is joined with it; replacing a shared chunk is not
    /// supported (`EINVAL`). Returns the address of the mapping.
    pub fn mmap_shared_space(&mut self, step: MmapSharedResult, shared_range: Option<VMRange>, options: &VMMapOptions)
        -> (r: Result<usize, Errno>)
        requires
            old(self).wf(),
            options.wf(),
            old(self).spec_range().end + options.spec_align() + options.spec_size() <= usize::MAX,
            step matches MmapSharedResult::NeedExpand(_, rg) ==> {
                &&& crate::shm_manager::fixed_addr(options.spec_addr()) == Some(rg.start)
                &&& rg.end == rg.start + options.spec_size()
                &&& shared_range matches Some(c) && old(self).chunk_ranges().contains(c) && c.end == rg.start
            },
        ensures
            final(self).wf(),
            final(self).spec_range() == old(self).spec_range(),
            final(self).spec_gap() == old(self).spec_gap(),
            r is Err ==> free_set(final(self).free_ranges()) == free_set(old(self).free_ranges())
                && final(self).chunk_ranges() == old(self).chunk_ranges(),
            match step {
                MmapSharedResult::Success(a) => r == Ok::<usize, Errno>(a) && *final(self) == *old(self),
                MmapSharedResult::NeedReplace(_) => r == Err::<usize, Errno>(Errno::EINVAL) && *final(self) == *old(self),
                MmapSharedResult::NeedCreate => {
                    &&& find_result(old(self).free_ranges(), final(self).free_ranges(), options.spec_size() as int,
                        options.spec_align() as int, options.spec_addr(), 0, range_start(r, options.spec_size()))
                    &&& r matches Ok(a) ==> exists|k: int| 0 <= k <= old(self).chunk_ranges().len()
                        && #[trigger] final(self).chunk_ranges()[k] == (VMRange { start: a, end: (a + options.spec_size()) as usize })
                        && final(self).chunk_ranges() == old(self).chunk_ranges().insert(k, final(self).chunk_ranges()[k])
                },
                MmapSharedResult::NeedExpand(_, rg) => {
                    let c = shared_range->0;
                    &&& r is Ok <==> exists|i: int| 0 <= i < old(self).free_ranges().len()
                        && (#[trigger] old(self).free_ranges()[i]).has(rg.start as int) && rg.end <= old(self).free_ranges()[i].end
                    &&& r is Err ==> r == Err::<usize, Errno>(Errno::ENOMEM)
                    &&& r is Ok ==> r == Ok::<usize, Errno>(c.start)
                        && free_set(final(self).free_ranges()) == free_set(old(self).free_ranges()).difference(rg.addrs())
                        && final(self).chunk_ranges().contains(VMRange { start: c.start, end: rg.end })
                },
            },
    {
        match step {
            MmapSharedResult::Success(a) => Ok(a),
            MmapSharedResult::NeedReplace(_) => Err(Errno::EINVAL),
            MmapSharedResult::NeedCreate => {
                let res = self.mmap_chunk(options);
                match res {
                    Ok(v) => {
                        proof {
                            let c0 = old(self).chunk_ranges();
                            let kk = choose|kk: int| 0 <= kk <= c0.len() && self.chunk_ranges() == c0.insert(kk, v);
                            assert(self.chunk_ranges()[kk] == v);
                        }
                        Ok(v.start)
                    },
                    Err(e) => Err(e),
                }
            },
            MmapSharedResult::NeedExpand(_, rg) => {
                let c = match shared_range {
                    Some(c) => c,
                    None => {
                        return Err(Errno::EINVAL);
                    },
                };
                let ghost s0 = self.free_ranges();
                let res = self.mmap_chunk(options);
                match res {
                    Ok(v) => {
                        proof {
                            let i = choose|i: int| 0 <= i < s0.len() && s0[i].start <= v.start && v.end <= s0[i].end
                                && self.free_ranges() == take_out(s0, i, v);
                            lemma_take_out(s0, i, v);
                            assert(v == rg);
                            let c0 = old(self).chunk_ranges();
                            let kk = choose|kk: int| 0 <= kk <= c0.len() && self.chunk_ranges() == c0.insert(kk, v);
                            let q = choose|q: int| 0 <= q < c0.len() && c0[q] == c;
                            if q < kk { assert(self.chunk_ranges()[q] == c); } else { assert(self.chunk_ranges()[q + 1] == c); }
                            assert(self.chunk_ranges()[kk] == v);
                        }
                        let ghost cm = self.chunk_ranges();
                        let m = self.merge_chunks(&c, &v);
                        proof {
                            let k = choose|k: int| 0 <= k && k + 1 < cm.len() && #[trigger] cm[k] == c
                                && cm[k + 1] == v && self.chunk_ranges() == splice(cm, k, k + 2, seq![m]);
                            assert(self.chunk_ranges()[k] == m);
                        }
                        Ok(m.start)
                    },
                    Err(e) => Err(e),
                }
            },
        }
    }

    /// The user space.
    pub fn range(&self) -> (r: &VMRange)
        ensures
            *r == self.spec_range(),
    {
        &self.range
    }

    /// The ranges of the chunks in use.
    pub fn chunks(&self) -> (r: &Vec<VMRange>)
        ensures
            r@ == self.chunk_ranges(),
    {
        &self.chunks
    }

    /// The total size of the free ranges.
    pub fn free_size(&self) -> (r: usize)
        requires
            self.wf(),
        ensures
            r == crate::free_space_manager::sum_sizes(self.free_ranges()),
    {
        self.free_manager.free_size()
    }

    /// Whether one free range holds all of `request_range`.
    pub fn is_free_range(&self, request_range: &VMRange) -> (r: bool)
        ensures
            r == exists|i: int| 0 <= i < self.free_ranges().len()
                && (#[trigger] self.free_ranges()[i]).start <= request_range.start && request_range.end <= self.free_ranges()[i].end,
    {
        let r = self.free_manager.is_free_range(request_range);
        let ghost s = self.free_ranges();
        assert(s == self.free_manager.ranges());
        proof {
            if r {
                let i = choose|i: int| 0 <= i < s.len() && (#[trigger] s[i]).start <= request_range.start && request_range.end <= s[i].end;
                assert(0 <= i < s.len() && s[i].start <= request_range.start && request_range.end <= s[i].end);
            }
        }
        r
    }
}

impl VMRemapParser for InternalVMManager {
    open spec fn spec_is_free_range(&self, request_range: VMRange) -> bool {
        free_holds(self.free_ranges(), request_range)
    }

    fn is_free_range(&self, request_range: &VMRange) -> (r: bool) {
        InternalVMManager::is_free_range(self, request_range)
    }
}

} // verus!
