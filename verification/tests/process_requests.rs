use occlum::process_vm::{
    alloc_options, brk, elf_segment_plan, mmap_options, mprotect_range, ElfInfo, ElfLoadSegment, ElfSegmentInfo, MMapFlags,
    MRemapFlags, MSyncFlags, ProcessVMBuilder, MAP_ANONYMOUS, MAP_FIXED, MAP_PRIVATE, MAP_SHARED,
};
use occlum::vm_chunk_manager::ChunkManager;
use occlum::vm_perms::VMPerms;
use occlum::vm_range::VMRange;
use occlum::vm_util::{FileRef, VMInitializer, VMMapAddr, VMMapOptionsBuilder, VMRemapOptions, VMRemapSizeType};
use occlum::Errno;

fn r(start: usize, end: usize) -> VMRange {
    VMRange { start, end }
}

fn seg(vaddr: usize, memsz: usize, align: usize) -> ElfSegmentInfo {
    ElfSegmentInfo { vaddr, memsz, align, loadable: true }
}

#[test]
fn flags_are_checked() {
    assert_eq!(MMapFlags::from_u32(MAP_PRIVATE | MAP_ANONYMOUS).unwrap().bits, 0x22);
    assert!(MMapFlags::from_u32(MAP_SHARED).unwrap().contains(MAP_SHARED));
    assert_eq!(MMapFlags::from_u32(0x8000_0000), Err(Errno::EINVAL));
    assert_eq!(MSyncFlags::from_u32(0x1).unwrap().bits, 0x1);
    assert_eq!(MSyncFlags::from_u32(0x5), Err(Errno::EINVAL));
    assert_eq!(MSyncFlags::from_u32(0x8), Err(Errno::EINVAL));
    assert_eq!(MRemapFlags::from_raw(0, 9), Ok(MRemapFlags::NoMove));
    assert_eq!(MRemapFlags::from_raw(1, 9), Ok(MRemapFlags::MayMove));
    assert_eq!(MRemapFlags::from_raw(3, 0x5000), Ok(MRemapFlags::FixedAddr(0x5000)));
    assert_eq!(MRemapFlags::from_raw(2, 9), Err(Errno::EINVAL));
    assert_eq!(MRemapFlags::FixedAddr(0x5000).new_addr(), Some(0x5000));
    assert_eq!(MRemapFlags::default().new_addr(), None);
}

#[test]
fn layouts_add_up() {
    let elf = ElfInfo { segments: vec![seg(0, 0x1800, 0x1000), seg(0x2000, 0x500, 0x1000), ElfSegmentInfo { vaddr: 0x9000, memsz: 0x9000, align: 3, loadable: false }] };
    let elf_layout = ProcessVMBuilder::elf_layout(&elf);
    assert_eq!(elf_layout.get_size(), 0x3000);
    assert_eq!(elf_layout.get_align(), 0x1000);
    let mut b = ProcessVMBuilder::new(vec![elf]);
    b.set_heap_size(0x4000);
    let l = b.compute_layouts(0x10000, 0x2000).unwrap();
    assert_eq!(l.elf_layouts.len(), 1);
    assert_eq!(l.heap_layout.get_size(), 0x4000);
    assert_eq!(l.stack_layout.get_size(), 0x2000);
    assert_eq!(l.process_layout.get_size(), 0x9000);
    assert_eq!(l.process_layout.get_align(), 0x1000);
}

#[test]
fn layouts_refuse_bad_sizes() {
    let mut b = ProcessVMBuilder::new(vec![]);
    b.set_stack_size(0x1234);
    assert_eq!(b.validate(), Err(Errno::EINVAL));
    assert!(b.compute_layouts(0x1000, 0x1000).is_err());
    let mut c = ProcessVMBuilder::new(vec![]);
    c.set_heap_size(0);
    assert_eq!(c.validate(), Err(Errno::EINVAL));
    assert_eq!(ProcessVMBuilder::new(vec![]).validate(), Ok(()));
}

#[test]
fn brk_moves_within_heap() {
    let heap = r(0x10000, 0x20000);
    assert_eq!(brk(&heap, 0x10000, 0x12345), (0x12345, None));
    assert_eq!(brk(&heap, 0x12345, 0x10800), (0x10800, Some(r(0x11000, 0x13000))));
    assert_eq!(brk(&heap, 0x12345, 0x30000), (0x12345, None));
    assert_eq!(brk(&heap, 0x12345, 0x0), (0x12345, None));
}

#[test]
fn mmap_request_options() {
    let anon = mmap_options(0, 0x1800, VMPerms::rw(), MMapFlags { bits: MAP_PRIVATE | MAP_ANONYMOUS }, None, 0).unwrap();
    assert_eq!(*anon.size(), 0x2000);
    assert_eq!(*anon.addr(), VMMapAddr::Any);
    assert_eq!(*anon.initializer(), VMInitializer::DoNothing());
    assert_eq!(*anon.writeback_file(), None);
    let hinted = mmap_options(0x5123, 0x1000, VMPerms::rw(), MMapFlags { bits: MAP_PRIVATE | MAP_ANONYMOUS }, None, 0).unwrap();
    assert_eq!(*hinted.addr(), VMMapAddr::Hint(0x5000));
    let f = FileRef { id: 4 };
    let shared = mmap_options(0x8000, 0x1000, VMPerms::read(), MMapFlags { bits: MAP_SHARED | MAP_FIXED }, Some(f), 0x3000).unwrap();
    assert_eq!(*shared.addr(), VMMapAddr::Force(0x8000));
    assert_eq!(*shared.initializer(), VMInitializer::LoadFromFile { file: f, offset: 0x3000 });
    assert_eq!(*shared.writeback_file(), Some((f, 0x3000)));
    let private = mmap_options(0, 0x1000, VMPerms::read(), MMapFlags { bits: MAP_PRIVATE }, Some(f), 0).unwrap();
    assert_eq!(*private.writeback_file(), None);
    assert!(mmap_options(0x8001, 0x1000, VMPerms::rw(), MMapFlags { bits: MAP_FIXED | MAP_ANONYMOUS }, None, 0).is_err());
    assert!(mmap_options(0, 0, VMPerms::rw(), MMapFlags { bits: MAP_ANONYMOUS }, None, 0).is_err());
}

#[test]
fn mprotect_request_range() {
    assert_eq!(mprotect_range(0x1000, 0), Ok(None));
    assert_eq!(mprotect_range(0x1000, 1), Ok(Some(r(0x1000, 0x2000))));
    assert_eq!(mprotect_range(0x1001, 1), Err(Errno::EINVAL));
}

#[test]
fn segment_load_plan() {
    let s = ElfLoadSegment { offset: 0x100, filesz: 0x300, vaddr: 0x401234, memsz: 0x1000, align: 0x1000 };
    let p = elf_segment_plan(&s, 0x400000);
    assert_eq!(p.zero_before_start, 0x1000);
    assert_eq!(p.zero_before_end, 0x1234);
    assert_eq!(p.file_offset, 0x100);
    assert_eq!(p.load_start, 0x1234);
    assert_eq!(p.load_len, 0x300);
    assert_eq!(p.zero_after_start, 0x1534);
    assert_eq!(p.zero_after_end, 0x3000);
}

#[test]
fn remap_options_and_plans() {
    assert_eq!(VMRemapSizeType::new(&0x1000, &0x2000), VMRemapSizeType::Growing);
    assert_eq!(VMRemapSizeType::new(&0x2000, &0x1000), VMRemapSizeType::Shrinking);
    assert_eq!(VMRemapSizeType::new(&0x2000, &0x2000), VMRemapSizeType::Same);
    assert!(VMRemapOptions::new(0x1001, 0x1000, 0x2000, MRemapFlags::MayMove).is_err());
    assert!(VMRemapOptions::new(0x1000, 0, 0x2000, MRemapFlags::MayMove).is_err());
    assert!(VMRemapOptions::new(0x1000, 0x1000, 0x2000, MRemapFlags::FixedAddr(0x123)).is_err());
    let o = VMRemapOptions::new(0x10000, 0x1800, 0x2800, MRemapFlags::MayMove).unwrap();
    assert_eq!(o.old_size(), 0x2000);
    assert_eq!(o.new_size(), 0x3000);

    let mut c = ChunkManager::from(0x10000, 0x10000).unwrap();
    let m = VMMapOptionsBuilder::new().size(0x2000).addr(VMMapAddr::Need(0x10000)).perms(VMPerms::rw()).build().unwrap();
    c.mmap(&m, 1).unwrap();
    // Growing in place: the page after the area is free.
    let plan = c.parse_mremap_options(&o, 1).unwrap();
    assert_eq!(*plan.mmap_result_addr(), Some(0x10000));
    assert_eq!(*plan.munmap_args(), None);
    let mo = plan.mmap_options().unwrap();
    assert_eq!(*mo.addr(), VMMapAddr::Need(0x12000));
    assert_eq!(*mo.size(), 0x1000);
    assert!(plan.may_move());

    // Shrinking unmaps the tail.
    let shrink = VMRemapOptions::new(0x10000, 0x2000, 0x1000, MRemapFlags::NoMove).unwrap();
    let plan = c.parse_mremap_options(&shrink, 1).unwrap();
    assert!(plan.mmap_options().is_none());
    assert_eq!(*plan.munmap_args(), Some((0x11000, 0x1000)));

    // An old range that no area of the process holds is a fault.
    let elsewhere = VMRemapOptions::new(0x18000, 0x1000, 0x2000, MRemapFlags::MayMove).unwrap();
    assert_eq!(c.parse_mremap_options(&elsewhere, 1).err(), Some(Errno::EFAULT));
}

#[test]
fn process_allocation_requests() {
    let elf = ElfInfo { segments: vec![seg(0, 0x1800, 0x2000)] };
    let mut b = ProcessVMBuilder::new(vec![elf]);
    b.set_heap_size(0x4000);
    b.set_stack_size(0x2000);
    let l = b.compute_layouts(0x1000, 0x1000).unwrap();
    let o = alloc_options(&l).unwrap();
    assert_eq!(o.elf_options.len(), 1);
    assert_eq!(*o.elf_options[0].size(), 0x2000);
    assert_eq!(*o.elf_options[0].align(), 0x2000);
    assert_eq!(*o.elf_options[0].perms(), VMPerms::all());
    assert_eq!(*o.heap_options.size(), 0x4000);
    assert_eq!(*o.heap_options.perms(), VMPerms::rw());
    assert_eq!(*o.stack_options.size(), 0x2000);
    assert_eq!(*o.stack_options.align(), 0x1000);
    let empty = ProcessVMBuilder::new(vec![ElfInfo { segments: vec![] }]).compute_layouts(0x1000, 0x1000).unwrap();
    assert_eq!(alloc_options(&empty).err(), Some(Errno::EINVAL));
}
