//! The per-process memory options: mmap, mremap and msync flags, and the layout that a new
//! process needs for its ELF images, heap and stack.
use vstd::prelude::*;
use crate::errno::Errno;
use crate::vm_layout::VMLayout;
use crate::vm_range::{align_up, align_down, align_down_spec, align_up_spec, lemma_align_up, is_pow2, lemma_page_size_pow2, PAGE_SIZE, VMRange};
use crate::vm_perms::VMPerms;
use crate::vm_util::{VMMapAddr, VMMapOptions, VMMapOptionsBuilder, VMInitializer, FileRef};
use crate::vm_area::{can_merge_view, VMArea, VMAreaView};
use crate::vm_chunk_manager::{area_ranges, mapped_set};
use crate::free_space_manager::in_ranges;

verus! {

/// Every bit that names an mmap flag.
pub const MMAP_KNOWN_BITS: u32 = 0x1FF93F;
pub const MAP_SHARED: u32 = 0x1;
pub const MAP_PRIVATE: u32 = 0x2;
pub const MAP_FIXED: u32 = 0x10;
pub const MAP_ANONYMOUS: u32 = 0x20;

/// The flags of an mmap request, a set of bits.
#[derive(Clone, Copy, Debug, PartialEq, Eq, Structural)]
pub struct MMapFlags {
    pub bits: u32,
}

impl MMapFlags {
    /// The flags named by `bits`; bits that name no flag are refused.
    pub fn from_u32(bits: u32) -> (r: Result<MMapFlags, Errno>)
        ensures
            r is Err <==> bits & !MMAP_KNOWN_BITS != 0,
            r is Err ==> r == Err::<MMapFlags, Errno>(Errno::EINVAL),
            r matches Ok(f) ==> f.bits == bits,
    {
        if bits & !MMAP_KNOWN_BITS != 0 {
            return Err(Errno::EINVAL);
        }
        Ok(MMapFlags { bits })
    }

    /// Whether all of `flag`'s bits are set.
    pub fn contains(&self, flag: u32) -> (r: bool)
        ensures
            r == (self.bits & flag == flag),
    {
        self.bits & flag == flag
    }
}

pub const MS_ASYNC: u32 = 0x1;
pub const MS_INVALIDATE: u32 = 0x2;
pub const MS_SYNC: u32 = 0x4;

/// The flags of an msync request, a set of bits.
#[derive(Clone, Copy, Debug, PartialEq, Eq, Structural)]
pub struct MSyncFlags {
    pub bits: u32,
}

impl MSyncFlags {
    /// The flags named by `bits`; unknown bits, and asking for both the synchronous and the
    /// asynchronous mode, are refused.
    pub fn from_u32(bits: u32) -> (r: Result<MSyncFlags, Errno>)
        ensures
            r is Err <==> (bits & !0x7u32 != 0 || bits & (MS_ASYNC | MS_SYNC) == (MS_ASYNC | MS_SYNC)),
            r is Err ==> r == Err::<MSyncFlags, Errno>(Errno::EINVAL),
            r matches Ok(f) ==> f.bits == bits,
    {
        if bits & !0x7u32 != 0 {
            return Err(Errno::EINVAL);
        }
        if bits & (MS_ASYNC | MS_SYNC) == (MS_ASYNC | MS_SYNC) {
            return Err(Errno::EINVAL);
        }
        Ok(MSyncFlags { bits })
    }

    /// Whether all of `flag`'s bits are set.
    pub fn contains(&self, flag: u32) -> (r: bool)
        ensures
            r == (self.bits & flag == flag),
    {
        self.bits & flag == flag
    }

    /// Invalidating other mappings of the memory is not supported.
    pub fn check_supported(&self) -> (r: Result<(), Errno>)
        ensures
            r == if self.bits & MS_INVALIDATE == MS_INVALIDATE { Err::<(), Errno>(Errno::EINVAL) } else { Ok::<(), Errno>(()) },
    {
        if self.contains(MS_INVALIDATE) {
            return Err(Errno::EINVAL);
        }
        Ok(())
    }
}

/// How an mremap request may move the mapping.
#[derive(Clone, Copy, Debug, PartialEq, Eq, Structural)]
pub enum MRemapFlags {
    NoMove,
    MayMove,
    FixedAddr(usize),
}

impl MRemapFlags {
    /// The flags named by `raw_flags`: 0 keeps the address, 1 allows a move, 3 asks for the
    /// address `new_addr`; any other value is refused.
    pub fn from_raw(raw_flags: u32, new_addr: usize) -> (r: Result<MRemapFlags, Errno>)
        ensures
            raw_flags == 0 ==> r == Ok::<MRemapFlags, Errno>(MRemapFlags::NoMove),
            raw_flags == 1 ==> r == Ok::<MRemapFlags, Errno>(MRemapFlags::MayMove),
            raw_flags == 3 ==> r == Ok::<MRemapFlags, Errno>(MRemapFlags::FixedAddr(new_addr)),
            raw_flags != 0 && raw_flags != 1 && raw_flags != 3 ==> r == Err::<MRemapFlags, Errno>(Errno::EINVAL),
    {
        if raw_flags == 0 {
            Ok(MRemapFlags::NoMove)
        } else if raw_flags == 1 {
            Ok(MRemapFlags::MayMove)
        } else if raw_flags == 3 {
            Ok(MRemapFlags::FixedAddr(new_addr))
        } else {
            Err(Errno::EINVAL)
        }
    }

    /// The requested address, for the fixed-address flag.
    pub fn new_addr(&self) -> (r: Option<usize>)
        ensures
            r == (match *self {
                MRemapFlags::FixedAddr(a) => Some(a),
                _ => None,
            }),
    {
        match self {
            MRemapFlags::FixedAddr(new_addr) => Some(*new_addr),
            _ => None,
        }
    }
}

impl Default for MRemapFlags {
    fn default() -> (r: MRemapFlags)
        ensures
            r == MRemapFlags::NoMove,
    {
        MRemapFlags::NoMove
    }
}

/// What the layout computation reads of one program header of an ELF image.
#[derive(Clone, Copy, Debug, PartialEq, Eq, Structural)]
pub struct ElfSegmentInfo {
    pub vaddr: usize,
    pub memsz: usize,
    pub align: usize,
    pub loadable: bool,
}

/// What the layout computation reads of an ELF image: its program headers.
#[derive(Clone, Debug)]
pub struct ElfInfo {
    pub segments: Vec<ElfSegmentInfo>,
}

/// The size and alignment, as integers, after extending the empty layout by the loadable
/// segments among the first `n`.
pub open spec fn elf_layout_spec(segs: Seq<ElfSegmentInfo>, n: nat) -> (int, int)
    decreases n,
{
    if n == 0 || n > segs.len() {
        (0, PAGE_SIZE as int)
    } else {
        let (s, a) = elf_layout_spec(segs, (n - 1) as nat);
        let seg = segs[n - 1];
        let size = seg.vaddr + seg.memsz;
        if !seg.loadable || size == 0 {
            (s, a)
        } else {
            let a2 = if a >= seg.align { a } else { seg.align as int };
            (align_up_spec(if s >= size { s } else { size }, a2), a2)
        }
    }
}

/// The size and alignment, as integers, after adding the layouts of `ls`, one after another, to
/// the empty layout.
pub open spec fn add_layouts_spec(ls: Seq<(int, int)>, n: nat) -> (int, int)
    decreases n,
{
    if n == 0 || n > ls.len() {
        (0, PAGE_SIZE as int)
    } else {
        let (s, a) = add_layouts_spec(ls, (n - 1) as nat);
        let (ms, ma) = ls[n - 1];
        if ms == 0 {
            (s, a)
        } else {
            (align_up_spec(s, ma) + ms, if a >= ma { a } else { ma })
        }
    }
}

/// Every loadable segment has a power-of-two alignment, and no step of extending the layout by
/// the segments passes the largest `usize`.
pub open spec fn segments_fit(segs: Seq<ElfSegmentInfo>) -> bool {
    &&& forall|i: int| 0 <= i < segs.len() ==> (#[trigger] segs[i]).loadable ==> is_pow2(segs[i].align as nat)
    &&& forall|i: int| 0 <= i < segs.len() ==> (#[trigger] segs[i]).vaddr + segs[i].memsz <= usize::MAX
    &&& forall|n: nat| n < segs.len() ==> #[trigger] elf_step_fits(segs, n)
}

/// Extending the layout of the first `n` segments by segment `n` stays within `usize`.
pub open spec fn elf_step_fits(segs: Seq<ElfSegmentInfo>, n: nat) -> bool {
    let (s, a) = elf_layout_spec(segs, n);
    let seg = segs[n as int];
    let size = seg.vaddr + seg.memsz;
    let a2 = if a >= seg.align { a } else { seg.align as int };
    seg.loadable && size > 0 ==> (if s >= size { s } else { size }) + a2 - 1 <= usize::MAX
}

/// Adding the layout `n` of `ls` to the sum of the layouts before it stays within `usize`.
pub open spec fn add_step_fits(ls: Seq<(int, int)>, n: nat) -> bool {
    let (s, a) = add_layouts_spec(ls, n);
    let (ms, ma) = ls[n as int];
    ms > 0 ==> s + ma - 1 <= usize::MAX && align_up_spec(s, ma) + ms <= usize::MAX
}

/// The sizes and alignments of the layouts of ELF images, heap and stack, in the order in which
/// they are added.
pub open spec fn process_layout_parts(elfs: Seq<ElfInfo>, heap: int, stack: int) -> Seq<(int, int)> {
    Seq::new(elfs.len(), |i: int| elf_layout_spec(elfs[i].segments@, elfs[i].segments@.len()))
        + seq![(heap, PAGE_SIZE as int), (stack, PAGE_SIZE as int)]
}

/// The layouts that a new process needs.
#[derive(Clone, Debug)]
pub struct ProcessLayouts {
    pub elf_layouts: Vec<VMLayout>,
    pub heap_layout: VMLayout,
    pub stack_layout: VMLayout,
    pub process_layout: VMLayout,
}

/// Builds the memory of a new process from its ELF images and its heap and stack sizes.
#[derive(Clone, Debug)]
pub struct ProcessVMBuilder {
    elfs: Vec<ElfInfo>,
    heap_size: Option<usize>,
    stack_size: Option<usize>,
}

impl ProcessVMBuilder {
    pub closed spec fn heap_size_opt(&self) -> Option<usize> {
        self.heap_size
    }

    pub closed spec fn stack_size_opt(&self) -> Option<usize> {
        self.stack_size
    }

    pub closed spec fn elf_images(&self) -> Seq<ElfInfo> {
        self.elfs@
    }

    /// The heap size that was set, or `default`.
    pub open spec fn heap_or(&self, default: usize) -> usize {
        match self.heap_size_opt() {
            Some(h) => h,
            None => default,
        }
    }

    /// The stack size that was set, or `default`.
    pub open spec fn stack_or(&self, default: usize) -> usize {
        match self.stack_size_opt() {
            Some(s) => s,
            None => default,
        }
    }

    /// No step of adding up the layouts of the process passes the largest `usize`.
    pub open spec fn layouts_fit(&self, default_heap_size: usize, default_stack_size: usize) -> bool {
        let ls = process_layout_parts(self.elf_images(), self.heap_or(default_heap_size) as int, self.stack_or(default_stack_size) as int);
        forall|n: nat| n < ls.len() ==> #[trigger] add_step_fits(ls, n)
    }

    pub fn new(elfs: Vec<ElfInfo>) -> (r: ProcessVMBuilder)
        ensures
            r.elf_images() == elfs@,
            r.heap_size_opt() is None,
            r.stack_size_opt() is None,
    {
        ProcessVMBuilder { elfs: elfs, heap_size: None, stack_size: None }
    }

    pub fn set_heap_size(&mut self, heap_size: usize) -> (r: &mut Self)
        ensures
            r.heap_size_opt() == Some(heap_size),
            r.stack_size_opt() == old(self).stack_size_opt(),
            r.elf_images() == old(self).elf_images(),
            *final(self) == *final(r),
    {
        self.heap_size = Some(heap_size);
        self
    }

    pub fn set_stack_size(&mut self, stack_size: usize) -> (r: &mut Self)
        ensures
            r.stack_size_opt() == Some(stack_size),
            r.heap_size_opt() == old(self).heap_size_opt(),
            r.elf_images() == old(self).elf_images(),
            *final(self) == *final(r),
    {
        self.stack_size = Some(stack_size);
        self
    }

    /// A heap or stack size that is given must be a nonzero multiple of the page size.
    pub fn validate(&self) -> (r: Result<(), Errno>)
        ensures
            r is Err <==> (self.heap_size_opt() matches Some(h) && (h == 0 || h % PAGE_SIZE != 0))
                || (self.stack_size_opt() matches Some(s) && (s == 0 || s % PAGE_SIZE != 0)),
            r is Err ==> r == Err::<(), Errno>(Errno::EINVAL),
    {
        if let Some(size) = self.heap_size {
            if size == 0 || size % PAGE_SIZE != 0 {
                return Err(Errno::EINVAL);
            }
        }
        if let Some(size) = self.stack_size {
            if size == 0 || size % PAGE_SIZE != 0 {
                return Err(Errno::EINVAL);
            }
        }
        Ok(())
    }

    /// The layout that covers the loadable segments of one ELF image: every segment from
    /// address zero to its end, with its alignment.
    pub fn elf_layout(elf: &ElfInfo) -> (r: VMLayout)
        requires
            segments_fit(elf.segments@),
        ensures
            r.wf(),
            (r.size() as int, r.align() as int) == elf_layout_spec(elf.segments@, elf.segments@.len()),
    {
        let ghost segs = elf.segments@;
        let mut elf_layout = VMLayout::new_empty();
        let mut i: usize = 0;
        while i < elf.segments.len()
            invariant
                segs == elf.segments@,
                segments_fit(segs),
                i <= segs.len(),
                elf_layout.wf(),
                (elf_layout.size() as int, elf_layout.align() as int) == elf_layout_spec(segs, i as nat),
            decreases segs.len() - i,
        {
            let segment = elf.segments[i];
            proof {
                assert(elf_step_fits(segs, i as nat));
            }
            if segment.loadable {
                let segment_size = segment.vaddr + segment.memsz;
                let segment_align = segment.align;
                let segment_layout = match VMLayout::new(segment_size, segment_align) {
                    Ok(l) => l,
                    Err(_) => {
                        assert(false);
                        VMLayout::new_empty()
                    },
                };
                elf_layout.extend(&segment_layout);
            }
            i = i + 1;
        }
        elf_layout
    }

    /// The layouts of the ELF images, of the heap and the stack (their sizes, or the defaults
    /// when none is given, page aligned), and of the whole process: all of them added in turn.
    pub fn compute_layouts(&self, default_heap_size: usize, default_stack_size: usize) -> (r: Result<ProcessLayouts, Errno>)
        requires
            forall|i: int| 0 <= i < self.elf_images().len() ==> segments_fit((#[trigger] self.elf_images()[i]).segments@),
            self.layouts_fit(default_heap_size, default_stack_size),
        ensures
            r is Err <==> (self.heap_size_opt() matches Some(h) && (h == 0 || h % PAGE_SIZE != 0))
                || (self.stack_size_opt() matches Some(s) && (s == 0 || s % PAGE_SIZE != 0)),
            r is Err ==> r == Err::<ProcessLayouts, Errno>(Errno::EINVAL),
            r matches Ok(l) ==> {
                let heap = self.heap_or(default_heap_size);
                let stack = self.stack_or(default_stack_size);
                let ls = process_layout_parts(self.elf_images(), heap as int, stack as int);
                &&& l.elf_layouts@.len() == self.elf_images().len()
                &&& forall|i: int| 0 <= i < l.elf_layouts@.len() ==> ((#[trigger] l.elf_layouts@[i]).size() as int, l.elf_layouts@[i].align() as int)
                    == elf_layout_spec(self.elf_images()[i].segments@, self.elf_images()[i].segments@.len())
                &&& l.heap_layout.size() == heap && l.heap_layout.align() == PAGE_SIZE
                &&& l.stack_layout.size() == stack && l.stack_layout.align() == PAGE_SIZE
                &&& (l.process_layout.size() as int, l.process_layout.align() as int) == add_layouts_spec(ls, ls.len())
            },
    {
        self.validate()?;
        let heap_size = match self.heap_size { Some(h) => h, None => default_heap_size };
        let stack_size = match self.stack_size { Some(s) => s, None => default_stack_size };
        let ghost ls = process_layout_parts(self.elf_images(), heap_size as int, stack_size as int);
        let ghost ne = self.elfs@.len();
        assert(heap_size == self.heap_or(default_heap_size));
        assert(stack_size == self.stack_or(default_stack_size));
        assert(forall|n: nat| n < ls.len() ==> #[trigger] add_step_fits(ls, n));

        let mut elf_layouts: Vec<VMLayout> = Vec::new();
        let mut process_layout = VMLayout::new_empty();
        let mut i: usize = 0;
        while i < self.elfs.len()
            invariant
                ls == process_layout_parts(self.elf_images(), heap_size as int, stack_size as int),
                ne == self.elfs@.len(),
                i <= ne,
                forall|k: int| 0 <= k < ne ==> segments_fit((#[trigger] self.elf_images()[k]).segments@),
                forall|n: nat| n < ls.len() ==> #[trigger] add_step_fits(ls, n),
                elf_layouts@.len() == i,
                forall|k: int| 0 <= k < i ==> ((#[trigger] elf_layouts@[k]).size() as int, elf_layouts@[k].align() as int)
                    == elf_layout_spec(self.elf_images()[k].segments@, self.elf_images()[k].segments@.len()),
                process_layout.wf(),
                (process_layout.size() as int, process_layout.align() as int) == add_layouts_spec(ls, i as nat),
            decreases ne - i,
        {
            assert(segments_fit(self.elf_images()[i as int].segments@));
            let elf_layout = Self::elf_layout(&self.elfs[i]);
            proof {
                assert(ls[i as int] == elf_layout_spec(self.elf_images()[i as int].segments@, self.elf_images()[i as int].segments@.len()));
                assert(add_step_fits(ls, i as nat));
            }
            process_layout.add(&elf_layout);
            elf_layouts.push(elf_layout);
            i = i + 1;
        }
        proof {
            lemma_page_size_pow2();
            assert(ls[ne as int] == (heap_size as int, PAGE_SIZE as int));
            assert(ls[ne as int + 1] == (stack_size as int, PAGE_SIZE as int));
            assert(add_step_fits(ls, ne as nat));
            assert(add_step_fits(ls, (ne + 1) as nat));
        }
        let heap_layout = match VMLayout::new(heap_size, PAGE_SIZE) {
            Ok(l) => l,
            Err(_) => {
                assert(false);
                VMLayout::new_empty()
            },
        };
        let stack_layout = match VMLayout::new(stack_size, PAGE_SIZE) {
            Ok(l) => l,
            Err(_) => {
                assert(false);
                VMLayout::new_empty()
            },
        };
        process_layout.add(&heap_layout);
        process_layout.add(&stack_layout);
        assert(ls.len() == ne + 2);
        Ok(ProcessLayouts { elf_layouts, heap_layout, stack_layout, process_layout })
    }
}

/// The outcome of a brk request within the heap `heap`, with the break at `cur_brk`: a break
/// inside the heap becomes the new break, and when it lowers the page-rounded break the pages
/// in between are to be reset; a break outside the heap leaves it as it is.
pub open spec fn brk_spec(heap: VMRange, cur_brk: usize, brk: usize) -> (usize, Option<VMRange>) {
    if heap.start <= brk <= heap.end {
        let new_brk = align_up_spec(brk as int, PAGE_SIZE as int);
        let old_brk = align_up_spec(cur_brk as int, PAGE_SIZE as int);
        if new_brk < old_brk {
            (brk, Some(VMRange { start: new_brk as usize, end: old_brk as usize }))
        } else {
            (brk, None)
        }
    } else {
        (cur_brk, None)
    }
}

/// The allocation requests for the memory of a new process.
#[derive(Clone, Debug)]
pub struct ProcessAllocOptions {
    pub elf_options: Vec<VMMapOptions>,
    pub heap_options: VMMapOptions,
    pub stack_options: VMMapOptions,
}

/// The request for a region of `size` bytes, rounded up to pages, aligned to `align`, with
/// the permissions `perms`, anywhere, left as it is.
pub open spec fn region_request(size: usize, align: usize, perms: VMPerms) -> crate::vm_util::MmapRequest {
    crate::vm_util::MmapRequest {
        size: align_up_spec(size as int, PAGE_SIZE as int) as usize,
        align,
        perms,
        addr: VMMapAddr::Any,
        initializer: VMInitializer::DoNothing(),
        writeback_file: None,
    }
}

/// The request for one region, or `EINVAL` when it would be empty.
fn region_options(size: usize, align: usize, perms: VMPerms) -> (r: Result<VMMapOptions, Errno>)
    requires
        is_pow2(align as nat),
        size + PAGE_SIZE - 1 <= usize::MAX,
    ensures
        r is Err <==> size == 0,
        r is Err ==> r == Err::<VMMapOptions, Errno>(Errno::EINVAL),
        r matches Ok(o) ==> o.request() == region_request(size, align, perms) && o.wf(),
{
    VMMapOptionsBuilder::new().size(size).align(align).perms(perms).build()
}

/// The requests to allocate the memory of a new process with the layouts `layouts`: a region
/// for each ELF image, of its layout's size and alignment, readable, writable and executable;
/// the heap and the stack, readable and writable, with the heap's alignment. A region of no
/// size is refused.
pub fn alloc_options(layouts: &ProcessLayouts) -> (r: Result<ProcessAllocOptions, Errno>)
    requires
        forall|i: int| 0 <= i < layouts.elf_layouts@.len() ==> (#[trigger] layouts.elf_layouts@[i]).wf()
            && layouts.elf_layouts@[i].size() + PAGE_SIZE - 1 <= usize::MAX,
        layouts.heap_layout.wf(),
        layouts.heap_layout.size() + PAGE_SIZE - 1 <= usize::MAX,
        layouts.stack_layout.size() + PAGE_SIZE - 1 <= usize::MAX,
    ensures
        r is Err <==> (exists|i: int| 0 <= i < layouts.elf_layouts@.len() && (#[trigger] layouts.elf_layouts@[i]).size() == 0)
            || layouts.heap_layout.size() == 0 || layouts.stack_layout.size() == 0,
        r is Err ==> r == Err::<ProcessAllocOptions, Errno>(Errno::EINVAL),
        r matches Ok(o) ==> {
            &&& o.elf_options@.len() == layouts.elf_layouts@.len()
            &&& forall|i: int| 0 <= i < o.elf_options@.len() ==> (#[trigger] o.elf_options@[i]).request() == region_request(
                layouts.elf_layouts@[i].size(), layouts.elf_layouts@[i].align(), VMPerms { bits: crate::vm_perms::VM_PERM_ALL })
                && o.elf_options@[i].wf()
            &&& o.heap_options.request() == region_request(layouts.heap_layout.size(), layouts.heap_layout.align(),
                VMPerms { bits: crate::vm_perms::VM_PERM_DEFAULT })
            &&& o.stack_options.request() == region_request(layouts.stack_layout.size(), layouts.heap_layout.align(),
                VMPerms { bits: crate::vm_perms::VM_PERM_DEFAULT })
        },
{
    let mut elf_options: Vec<VMMapOptions> = Vec::new();
    let n = layouts.elf_layouts.len();
    let mut i: usize = 0;
    while i < n
        invariant
            n == layouts.elf_layouts@.len(),
            i <= n,
            forall|k: int| 0 <= k < n ==> (#[trigger] layouts.elf_layouts@[k]).wf()
                && layouts.elf_layouts@[k].size() + PAGE_SIZE - 1 <= usize::MAX,
            forall|k: int| 0 <= k < i ==> (#[trigger] layouts.elf_layouts@[k]).size() != 0,
            elf_options@.len() == i,
            forall|k: int| 0 <= k < i ==> (#[trigger] elf_options@[k]).request() == region_request(
                layouts.elf_layouts@[k].size(), layouts.elf_layouts@[k].align(), VMPerms { bits: crate::vm_perms::VM_PERM_ALL })
                && elf_options@[k].wf(),
        decreases n - i,
    {
        let l = &layouts.elf_layouts[i];
        let o = region_options(l.get_size(), l.get_align(), VMPerms::all())?;
        elf_options.push(o);
        i = i + 1;
    }
    let heap_options = region_options(layouts.heap_layout.get_size(), layouts.heap_layout.get_align(), VMPerms::rw())?;
    let stack_options = region_options(layouts.stack_layout.get_size(), layouts.heap_layout.get_align(), VMPerms::rw())?;
    Ok(ProcessAllocOptions { elf_options, heap_options, stack_options })
}

/// Move the program break of a process whose heap is `heap_range` and whose break is
/// `cur_brk` to `requested`. Returns the break after the request, which is the one asked for when
/// it lies in the heap (not rounded, as Linux does) and the old one otherwise, and the memory
/// to reset when the break lowers.
pub fn brk(heap_range: &VMRange, cur_brk: usize, requested: usize) -> (r: (usize, Option<VMRange>))
    requires
        heap_range.wf(),
        heap_range.page_aligned(),
        cur_brk <= heap_range.end,
    ensures
        r == brk_spec(*heap_range, cur_brk, requested),
{
    let heap_start = heap_range.start();
    let heap_end = heap_range.end();
    proof {
        lemma_page_size_pow2();
    }
    if requested >= heap_start && requested <= heap_end {
        proof {
            lemma_align_up(requested as int, PAGE_SIZE as int);
            lemma_align_up(cur_brk as int, PAGE_SIZE as int);
            lemma_align_up(heap_end as int, PAGE_SIZE as int);
            lemma_align_up_monotone(requested as int, heap_end as int, PAGE_SIZE as int);
            lemma_align_up_monotone(cur_brk as int, heap_end as int, PAGE_SIZE as int);
        }
        let new_brk = align_up(requested, PAGE_SIZE);
        let old_brk = align_up(cur_brk, PAGE_SIZE);
        if new_brk < old_brk {
            (requested, Some(VMRange { start: new_brk, end: old_brk }))
        } else {
            (requested, None)
        }
    } else {
        (cur_brk, None)
    }
}

/// Rounding up keeps the order.
proof fn lemma_align_up_monotone(x: int, y: int, align: int)
    requires
        0 <= x <= y,
        align > 0,
    ensures
        align_up_spec(x, align) <= align_up_spec(y, align),
{
    assert((x + align - 1) / align <= (y + align - 1) / align) by (nonlinear_arith)
        requires
            x <= y,
            align > 0,
    ;
    assert(((x + align - 1) / align) * align <= ((y + align - 1) / align) * align) by (nonlinear_arith)
        requires
            (x + align - 1) / align <= (y + align - 1) / align,
            align > 0,
    ;
}

/// The mmap request of a process: `MAP_FIXED` forces the address, address 0 lets any do,
/// another address is a hint; anonymous memory is not filled, file memory is loaded from the
/// file at `offset` and, when `MAP_SHARED`, written back to it.
pub fn mmap_options(addr: usize, size: usize, perms: VMPerms, flags: MMapFlags, file: Option<FileRef>, offset: usize)
    -> (r: Result<VMMapOptions, Errno>)
    requires
        size + PAGE_SIZE - 1 <= usize::MAX,
        flags.bits & MAP_ANONYMOUS != MAP_ANONYMOUS ==> file is Some,
    ensures
        ({
            let a = if flags.bits & MAP_FIXED == MAP_FIXED { VMMapAddr::Force(addr) } else if addr == 0 { VMMapAddr::Any } else { VMMapAddr::Hint(addr) };
            let anon = flags.bits & MAP_ANONYMOUS == MAP_ANONYMOUS;
            &&& (r is Err <==> size == 0 || (a is Force && addr % PAGE_SIZE != 0))
            &&& (r is Err ==> r == Err::<VMMapOptions, Errno>(Errno::EINVAL))
            &&& (r matches Ok(o) ==> {
                &&& o.wf()
                &&& o.spec_size() == align_up_spec(size as int, PAGE_SIZE as int)
                &&& o.spec_align() == PAGE_SIZE
                &&& o.spec_perms() == perms
                &&& o.spec_addr() == match a {
                    VMMapAddr::Hint(h) => VMMapAddr::Hint((h - h % PAGE_SIZE) as usize),
                    other => other,
                }
                &&& o.spec_initializer() == if anon { VMInitializer::DoNothing() } else { VMInitializer::LoadFromFile { file: file->0, offset } }
                &&& o.spec_writeback_file() == if !anon && flags.bits & MAP_SHARED == MAP_SHARED { Some((file->0, offset)) } else { None }
            })
        }),
{
    let addr_option = if flags.contains(MAP_FIXED) {
        VMMapAddr::Force(addr)
    } else if addr == 0 {
        VMMapAddr::Any
    } else {
        VMMapAddr::Hint(addr)
    };
    let (initializer, writeback) = if flags.contains(MAP_ANONYMOUS) {
        (VMInitializer::DoNothing(), None)
    } else {
        let f = match file {
            Some(f) => f,
            None => {
                return Err(Errno::EBADF);
            },
        };
        let wb = if flags.contains(MAP_SHARED) { Some((f, offset)) } else { None };
        (VMInitializer::LoadFromFile { file: f, offset }, wb)
    };
    proof {
        lemma_page_size_pow2();
        assert(is_pow2(PAGE_SIZE as nat));
    }
    VMMapOptionsBuilder::new()
        .size(size)
        .addr(addr_option)
        .perms(perms)
        .initializer(initializer)
        .writeback_file(writeback)
        .build()
}

/// The range that an mprotect of `[addr, addr + size)` covers, the size rounded up to pages:
/// nothing for a zero size; the address must be page aligned.
pub fn mprotect_range(addr: usize, size: usize) -> (r: Result<Option<VMRange>, Errno>)
    requires
        addr + align_up_spec(size as int, PAGE_SIZE as int) <= usize::MAX,
        size + PAGE_SIZE - 1 <= usize::MAX,
    ensures
        size == 0 ==> r == Ok::<Option<VMRange>, Errno>(None),
        size > 0 ==> (r is Err <==> addr % PAGE_SIZE != 0),
        r is Err ==> r == Err::<Option<VMRange>, Errno>(Errno::EINVAL),
        size > 0 ==> (r matches Ok(Some(v)) ==> v == VMRange { start: addr, end: (addr + align_up_spec(size as int, PAGE_SIZE as int)) as usize }),
        size > 0 ==> !(r matches Ok(None)),
{
    if size == 0 {
        return Ok(None);
    }
    proof {
        lemma_page_size_pow2();
        lemma_align_up(size as int, PAGE_SIZE as int);
    }
    let size = align_up(size, PAGE_SIZE);
    let protect_range = VMRange::new_with_size(addr, size)?;
    Ok(Some(protect_range))
}

/// What loading reads of a loadable program header of an ELF image.
#[derive(Clone, Copy, Debug, PartialEq, Eq, Structural)]
pub struct ElfLoadSegment {
    pub offset: usize,
    pub filesz: usize,
    pub vaddr: usize,
    pub memsz: usize,
    pub align: usize,
}

/// How one segment is put into the memory of its ELF image, as offsets into that memory:
/// the bytes from the aligned start to the segment are cleared, `load_len` bytes of the file
/// at `file_offset` are read to `load_start`, and the bytes after them up to the aligned end
/// of the segment are cleared.
#[derive(Clone, Copy, Debug, PartialEq, Eq, Structural)]
pub struct SegmentPlan {
    pub zero_before_start: usize,
    pub zero_before_end: usize,
    pub file_offset: usize,
    pub load_start: usize,
    pub load_len: usize,
    pub zero_after_start: usize,
    pub zero_after_end: usize,
}

/// The plan to load `seg` into the memory of its ELF image, whose first segment is at
/// `base_load_address_offset` in the image's address space.
pub fn elf_segment_plan(seg: &ElfLoadSegment, base_load_address_offset: usize) -> (r: SegmentPlan)
    requires
        seg.vaddr >= base_load_address_offset,
        seg.align > 0,
        seg.filesz <= seg.memsz,
        seg.vaddr - base_load_address_offset + seg.memsz + seg.align - 1 <= usize::MAX,
    ensures
        ({
            let m = seg.vaddr - base_load_address_offset;
            &&& r.zero_before_start == align_down_spec(m, seg.align as int)
            &&& r.zero_before_end == m
            &&& r.file_offset == seg.offset
            &&& r.load_start == m
            &&& r.load_len == seg.filesz
            &&& r.zero_after_start == m + seg.filesz
            &&& r.zero_after_end == align_up_spec(m + seg.memsz, seg.align as int)
        }),
{
    let mem_start_offset = seg.vaddr - base_load_address_offset;
    let empty_start_offset = align_down(mem_start_offset, seg.align);
    let empty_end_offset = align_up(mem_start_offset + seg.memsz, seg.align);
    SegmentPlan {
        zero_before_start: empty_start_offset,
        zero_before_end: mem_start_offset,
        file_offset: seg.offset,
        load_start: mem_start_offset,
        load_len: seg.filesz,
        zero_after_start: mem_start_offset + seg.filesz,
        zero_after_end: empty_end_offset,
    }
}


/// The area `a` emptied at its start, as when another area takes it over.
pub open spec fn emptied(a: VMAreaView) -> VMAreaView {
    VMAreaView { range: VMRange { start: a.range.start, end: a.range.start }, ..a }
}

/// The area `b` grown back to start where `a` starts, its file moved back with it.
pub open spec fn absorb(a: VMAreaView, b: VMAreaView) -> VMAreaView {
    VMAreaView {
        range: VMRange { start: a.range.start, end: b.range.end },
        file_backed: VMArea::moved_file(b.file_backed, b.range.start, a.range.start),
        ..b
    }
}

/// The areas of single-area chunks after a merge pass over them in order: each area that can
/// become one with the (possibly grown) area before it takes that one over, which is emptied.
pub open spec fn window_pass(s: Seq<VMAreaView>) -> Seq<VMAreaView>
    decreases s.len(),
{
    if s.len() <= 1 {
        s
    } else {
        let p = window_pass(s.drop_last());
        let a = p.last();
        let b = s.last();
        if can_merge_view(a, b) {
            p.update(p.len() - 1, emptied(a)).push(absorb(a, b))
        } else {
            p.push(b)
        }
    }
}

/// Whether the file offsets of the areas leave room for each area that takes another over to
/// move its file back to the new start.
pub open spec fn window_pass_fits(s: Seq<VMAreaView>) -> bool {
    forall|k: int| 1 <= k < s.len() ==> {
        let a = (#[trigger] window_pass(s.take(k))).last();
        (can_merge_view(a, s[k]) && s[k].file_backed is Some) ==> s[k].file_backed->0.offset + a.range.start >= s[k].range.start
    }
}

/// A merge pass keeps the number of areas, and every area well formed.
proof fn lemma_window_pass(s: Seq<VMAreaView>)
    requires
        forall|i: int| 0 <= i < s.len() ==> (#[trigger] s[i]).range.wf(),
    ensures
        window_pass(s).len() == s.len(),
        forall|i: int| 0 <= i < s.len() ==> (#[trigger] window_pass(s)[i]).range.wf(),
    decreases s.len(),
{
    if s.len() > 1 {
        let q = s.drop_last();
        assert forall|i: int| 0 <= i < q.len() implies (#[trigger] q[i]).range.wf() by {
            assert(q[i] == s[i]);
        }
        lemma_window_pass(q);
        assert(s.last() == s[s.len() - 1]);
    }
}

/// A merge pass over the areas of single-area chunks keeps the addresses they cover: an area
/// that takes the one before it over covers both.
pub proof fn law_merge_pass_keeps_addresses(s: Seq<VMAreaView>)
    requires
        forall|i: int| 0 <= i < s.len() ==> (#[trigger] s[i]).range.wf(),
    ensures
        mapped_set(window_pass(s)) == mapped_set(s),
    decreases s.len(),
{
    if s.len() > 1 {
        let q = s.drop_last();
        assert forall|i: int| 0 <= i < q.len() implies (#[trigger] q[i]).range.wf() by {
            assert(q[i] == s[i]);
        }
        law_merge_pass_keeps_addresses(q);
        lemma_window_pass(q);
        let p = window_pass(q);
        let m = p.len() as int;
        let a = p.last();
        let b = s.last();
        let w = window_pass(s);
        assert(b == s[s.len() - 1]);
        assert forall|x: int| #[trigger] mapped_set(w).contains(x) <==> mapped_set(s).contains(x) by {
            let rw = area_ranges(w);
            let rp = area_ranges(p);
            let rs = area_ranges(s);
            let rq = area_ranges(q);
            assert(mapped_set(p).contains(x) == mapped_set(q).contains(x));
            // The addresses of `s` are those of `q` and of `b`.
            if in_ranges(rs, x) {
                let k = choose|k: int| 0 <= k < rs.len() && (#[trigger] rs[k]).has(x);
                if k < q.len() {
                    assert(rq[k] == rs[k]);
                    assert(in_ranges(rq, x));
                }
            }
            if in_ranges(rq, x) {
                let k = choose|k: int| 0 <= k < rq.len() && (#[trigger] rq[k]).has(x);
                assert(rs[k] == rq[k]);
                assert(in_ranges(rs, x));
            }
            if b.range.has(x) {
                assert(rs[s.len() - 1].has(x));
            }
            assert(in_ranges(rs, x) <==> (in_ranges(rq, x) || b.range.has(x)));
            if can_merge_view(a, b) {
                assert(w == p.update(m - 1, emptied(a)).push(absorb(a, b)));
                assert(rw.len() == m + 1);
                if in_ranges(rw, x) {
                    let k = choose|k: int| 0 <= k < rw.len() && (#[trigger] rw[k]).has(x);
                    if k < m - 1 {
                        assert(rw[k] == rp[k]);
                        assert(in_ranges(rp, x));
                    } else if k == m - 1 {
                        assert(rw[k] == emptied(a).range);
                    } else {
                        assert(rw[k] == absorb(a, b).range);
                        if x < a.range.end {
                            assert(rp[m - 1] == a.range);
                            assert(rp[m - 1].has(x));
                        }
                    }
                }
                if in_ranges(rp, x) {
                    let k = choose|k: int| 0 <= k < rp.len() && (#[trigger] rp[k]).has(x);
                    if k < m - 1 {
                        assert(rw[k] == rp[k]);
                        assert(rw[k].has(x));
                    } else {
                        assert(rp[k] == a.range);
                        assert(rw[m] == absorb(a, b).range);
                        assert(rw[m].has(x));
                    }
                }
                if b.range.has(x) {
                    assert(rw[m] == absorb(a, b).range);
                    assert(rw[m].has(x));
                }
            } else {
                assert(w == p.push(b));
                if in_ranges(rw, x) {
                    let k = choose|k: int| 0 <= k < rw.len() && (#[trigger] rw[k]).has(x);
                    if k < m {
                        assert(rw[k] == rp[k]);
                        assert(in_ranges(rp, x));
                    }
                }
                if in_ranges(rp, x) {
                    let k = choose|k: int| 0 <= k < rp.len() && (#[trigger] rp[k]).has(x);
                    assert(rw[k] == rp[k]);
                    assert(rw[k].has(x));
                }
                if b.range.has(x) {
                    assert(rw[m] == b.range);
                    assert(rw[m].has(x));
                }
            }
        }
        assert(mapped_set(w) =~= mapped_set(s));
    }
}

/// What becomes of a single-area chunk after the merge pass.
#[derive(Debug)]
pub enum SingleVmaFate {
    /// The chunk keeps its area.
    Kept,
    /// Its area was taken over by the next one, or was empty: the chunk goes.
    Dropped,
    /// Its area took over the ones before it: the chunk goes, and this area needs a new one.
    Merged(VMArea),
}

/// Merge the connecting areas of the single-area chunks of a process, given in order of their
/// start addresses: tells, for each chunk in turn, whether it keeps its area, goes, or gives
/// way to a merged area.
#[verifier::spinoff_prover]
#[verifier::rlimit(40)]
pub fn merge_all_single_vma_chunks(vmas: &Vec<VMArea>) -> (r: Vec<SingleVmaFate>)
    requires
        forall|i: int| 0 <= i < vmas@.len() ==> (#[trigger] vmas@[i])@.range.wf(),
        window_pass_fits(vmas@.map_values(|v: VMArea| v@)),
    ensures
        ({
            let s = vmas@.map_values(|v: VMArea| v@);
            let w = window_pass(s);
            &&& r@.len() == s.len()
            &&& forall|i: int| 0 <= i < s.len() ==> {
                &&& ((#[trigger] r@[i]) is Dropped <==> w[i].range.spec_size() == 0)
                &&& (r@[i] is Kept <==> w[i].range.spec_size() != 0 && w[i].range.spec_size() == s[i].range.spec_size())
                &&& (r@[i] is Merged <==> w[i].range.spec_size() != 0 && w[i].range.spec_size() != s[i].range.spec_size())
                &&& (r@[i] matches SingleVmaFate::Merged(a) ==> a@ == w[i])
            }
        }),
{
    let ghost s = vmas@.map_values(|v: VMArea| v@);
    let n = vmas.len();
    let mut cur: Vec<VMArea> = Vec::new();
    let mut i: usize = 0;
    while i < n
        invariant
            n == vmas@.len(),
            s == vmas@.map_values(|v: VMArea| v@),
            forall|j: int| 0 <= j < s.len() ==> (#[trigger] s[j]).range.wf(),
            window_pass_fits(s),
            i <= n,
            cur@.map_values(|v: VMArea| v@) == window_pass(s.take(i as int)),
        decreases n - i,
    {
        let ghost t = s.take(i as int + 1);
        proof {
            assert(t.drop_last() =~= s.take(i as int));
            assert(t.last() == s[i as int]);
            assert forall|j: int| 0 <= j < s.take(i as int).len() implies (#[trigger] s.take(i as int)[j]).range.wf() by {
                assert(s.take(i as int)[j] == s[j]);
            }
            lemma_window_pass(s.take(i as int));
        }
        let cl = cur.len();
        let merge = if cl > 0 {
            proof {
                assert(cur@.map_values(|v: VMArea| v@)[cl - 1] == cur@[cl - 1]@);
            }
            VMArea::can_merge_vmas(&cur[cl - 1], &vmas[i])
        } else {
            false
        };
        if merge {
            let mut last = match cur.pop() {
                Some(l) => l,
                None => {
                    assert(false);
                    return Vec::new();
                },
            };
            let start = last.start();
            let mut next = vmas[i].duplicate();
            proof {
                assert(window_pass(s.take(i as int)).last() == last@);
                assert(1 <= i < s.len());
            }
            next.set_start(start);
            last.set_end(start);
            cur.push(last);
            cur.push(next);
        } else {
            cur.push(vmas[i].duplicate());
        }
        proof {
            assert(cur@.map_values(|v: VMArea| v@) =~= window_pass(t));
        }
        i = i + 1;
    }
    proof {
        assert(s.take(n as int) =~= s);
        lemma_window_pass(s);
    }
    let mut out: Vec<SingleVmaFate> = Vec::new();
    let mut k: usize = 0;
    while k < n
        invariant
            n == vmas@.len(),
            s == vmas@.map_values(|v: VMArea| v@),
            cur@.map_values(|v: VMArea| v@) == window_pass(s),
            window_pass(s).len() == n,
            forall|j: int| 0 <= j < n ==> (#[trigger] window_pass(s)[j]).range.wf(),
            forall|j: int| 0 <= j < n ==> (#[trigger] s[j]).range.wf(),
            k <= n,
            out@.len() == k,
            forall|j: int| 0 <= j < k ==> {
                let w = window_pass(s);
                &&& ((#[trigger] out@[j]) is Dropped <==> w[j].range.spec_size() == 0)
                &&& (out@[j] is Kept <==> w[j].range.spec_size() != 0 && w[j].range.spec_size() == s[j].range.spec_size())
                &&& (out@[j] is Merged <==> w[j].range.spec_size() != 0 && w[j].range.spec_size() != s[j].range.spec_size())
                &&& (out@[j] matches SingleVmaFate::Merged(a) ==> a@ == w[j])
            },
        decreases n - k,
    {
        proof {
            assert(cur@.map_values(|v: VMArea| v@)[k as int] == cur@[k as int]@);
            assert(s[k as int] == vmas@[k as int]@);
        }
        let size = cur[k].size();
        let fate = if size == 0 {
            SingleVmaFate::Dropped
        } else if size != vmas[k].size() {
            SingleVmaFate::Merged(cur[k].duplicate())
        } else {
            SingleVmaFate::Kept
        };
        out.push(fate);
        k = k + 1;
    }
    out
}

} // verus!
