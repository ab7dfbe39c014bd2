use occlum::process_vm::{merge_all_single_vma_chunks, MSyncFlags, SingleVmaFate, MS_INVALIDATE};
use occlum::vm_area::{MemInitPlan, VMArea};
use occlum::vm_manager::{
    force_mmap_across_multiple_chunks, mmap_first_step, mmap_next_step, mmap_with_addr_step, mprotect_chunk_target,
    mmap_file_check_permissions, mprotect_single_vma_chunk, chunk_holding_range, mremap_return_addr, munmap_chunk_targets, munmap_single_vma_chunk, InternalVMManager, MmapStep, WithAddrStep, CHUNK_DEFAULT_SIZE,
};
use occlum::shm_manager::MmapSharedResult;
use occlum::vm_perms::VMPerms;
use occlum::vm_range::VMRange;
use occlum::vm_util::{FileBacked, FileRef, VMInitializer, VMMapAddr, VMMapOptionsBuilder, VMRemapResult};
use occlum::Errno;

fn r(start: usize, end: usize) -> VMRange {
    VMRange { start, end }
}

fn anon(start: usize, end: usize, pid: u32) -> VMArea {
    VMArea::new(r(start, end), VMPerms::rw(), None, pid)
}

fn shared_file(start: usize, end: usize, offset: usize) -> VMArea {
    VMArea::new(r(start, end), VMPerms::rw(), Some(FileBacked::new(FileRef { id: 1 }, offset, true)), 1)
}

#[test]
fn single_vma_mprotect_inside_splits_in_three() {
    let mut vma = shared_file(0x10000, 0x14000, 0x100);
    let new = mprotect_single_vma_chunk(&mut vma, r(0x11000, 0x12000), VMPerms::read(), true, 1).unwrap();
    assert_eq!(*vma.range(), r(0x10000, 0x11000));
    assert_eq!(vma.perms(), VMPerms::rw());
    assert_eq!(new.len(), 2);
    assert_eq!(*new[0].range(), r(0x11000, 0x12000));
    assert_eq!(new[0].perms(), VMPerms::read());
    assert_eq!(new[0].writeback_file(), Some((FileRef { id: 1 }, 0x1100)));
    assert_eq!(*new[1].range(), r(0x12000, 0x14000));
    assert_eq!(new[1].perms(), VMPerms::rw());
    assert_eq!(new[1].writeback_file(), Some((FileRef { id: 1 }, 0x2100)));
}

#[test]
fn single_vma_mprotect_edges_and_whole() {
    let mut left = anon(0x10000, 0x14000, 1);
    let new = mprotect_single_vma_chunk(&mut left, r(0x10000, 0x11000), VMPerms::read(), true, 1).unwrap();
    assert_eq!(*left.range(), r(0x11000, 0x14000));
    assert_eq!(new.len(), 1);
    assert_eq!(*new[0].range(), r(0x10000, 0x11000));

    let mut right = anon(0x10000, 0x14000, 1);
    let new = mprotect_single_vma_chunk(&mut right, r(0x13000, 0x14000), VMPerms::read(), true, 1).unwrap();
    assert_eq!(*right.range(), r(0x10000, 0x13000));
    assert_eq!(*new[0].range(), r(0x13000, 0x14000));

    let mut whole = anon(0x10000, 0x14000, 1);
    assert_eq!(mprotect_single_vma_chunk(&mut whole, r(0x10000, 0x14000), VMPerms::read(), true, 1).unwrap().len(), 0);
    assert_eq!(whole.perms(), VMPerms::read());
    assert_eq!(mprotect_single_vma_chunk(&mut whole, r(0x10000, 0x11000), VMPerms::read(), true, 1).unwrap().len(), 0);
    assert_eq!(*whole.range(), r(0x10000, 0x14000));
}

#[test]
fn single_vma_mprotect_refuses_write_to_read_only_file() {
    let mut vma = VMArea::new(r(0x10000, 0x12000), VMPerms::read(), Some(FileBacked::new(FileRef { id: 1 }, 0, true)), 1);
    assert_eq!(mprotect_single_vma_chunk(&mut vma, r(0x10000, 0x11000), VMPerms::rw(), false, 1).err(), Some(Errno::EACCES));
    assert_eq!(vma.perms(), VMPerms::read());
    assert!(mprotect_single_vma_chunk(&mut vma, r(0x10000, 0x11000), VMPerms::all(), true, 1).is_ok());
}

#[test]
fn single_vma_munmap_parts() {
    let vma = shared_file(0x10000, 0x14000, 0);
    let (gone, rest) = munmap_single_vma_chunk(&vma, &r(0x11000, 0x12000));
    assert_eq!(*gone.range(), r(0x11000, 0x12000));
    assert_eq!(gone.writeback_file(), Some((FileRef { id: 1 }, 0x1000)));
    assert_eq!(rest.len(), 2);
    assert_eq!(*rest[0].range(), r(0x10000, 0x11000));
    assert_eq!(*rest[1].range(), r(0x12000, 0x14000));
    let (gone, rest) = munmap_single_vma_chunk(&vma, &r(0x8000, 0x20000));
    assert_eq!(*gone.range(), r(0x10000, 0x14000));
    assert!(rest.is_empty());
}

#[test]
fn munmap_picks_chunks() {
    let chunks = vec![r(0x10000, 0x20000), r(0x20000, 0x30000), r(0x40000, 0x50000)];
    assert_eq!(munmap_chunk_targets(&chunks, 0x11000, 0x1000), Ok(vec![0]));
    assert_eq!(munmap_chunk_targets(&chunks, 0x1f000, 0x2000), Ok(vec![0, 1]));
    assert_eq!(munmap_chunk_targets(&chunks, 0x60000, 0x1000), Ok(vec![]));
    assert_eq!(munmap_chunk_targets(&chunks, 0x31000, 0x20000), Ok(vec![2]));
    assert_eq!(munmap_chunk_targets(&chunks, 0x11001, 0x1000), Err(Errno::EINVAL));
    assert_eq!(munmap_chunk_targets(&chunks, 0x11000, 0), Err(Errno::EINVAL));
    // A chunk that only touches the range comes first, and does not hold it.
    assert_eq!(munmap_chunk_targets(&chunks, 0x30000, 0x11000), Ok(vec![2]));
}

#[test]
fn force_mapping_across_chunks() {
    let chunks = vec![r(0x10000, 0x20000), r(0x30000, 0x40000)];
    let owned = vec![true, true];
    assert_eq!(
        force_mmap_across_multiple_chunks(&VMInitializer::DoNothing(), &chunks, &owned, &r(0x18000, 0x38000)),
        Ok(vec![r(0x18000, 0x20000), r(0x20000, 0x30000), r(0x30000, 0x38000)])
    );
    assert_eq!(
        force_mmap_across_multiple_chunks(&VMInitializer::FillZeros(), &vec![r(0x10000, 0x20000), r(0x20000, 0x30000)], &owned, &r(0x18000, 0x28000)),
        Ok(vec![r(0x18000, 0x20000), r(0x20000, 0x28000)])
    );
    assert_eq!(
        force_mmap_across_multiple_chunks(&VMInitializer::LoadFromFile { file: FileRef { id: 1 }, offset: 0 }, &chunks, &owned, &r(0x18000, 0x38000)),
        Err(Errno::ENOSYS)
    );
    assert_eq!(
        force_mmap_across_multiple_chunks(&VMInitializer::DoNothing(), &chunks, &vec![true, false], &r(0x18000, 0x38000)),
        Err(Errno::ENOMEM)
    );
}

#[test]
fn mmap_fallback_order() {
    assert_eq!(mmap_first_step(true, VMMapAddr::Any, 0x1000), MmapStep::Shared);
    assert_eq!(mmap_first_step(false, VMMapAddr::Any, 0x1000), MmapStep::ProcessChunks);
    assert_eq!(mmap_first_step(false, VMMapAddr::Any, CHUNK_DEFAULT_SIZE + 0x1000), MmapStep::SingleVmaChunk);
    assert_eq!(mmap_first_step(false, VMMapAddr::Hint(0x1000), 0x1000), MmapStep::AtAddr);
    let e = Errno::ENOMEM;
    assert_eq!(mmap_next_step(MmapStep::Shared, VMMapAddr::Need(0x1000), 0x1000, Errno::EINVAL, false), Ok(MmapStep::AtAddr));
    assert_eq!(mmap_next_step(MmapStep::AtAddr, VMMapAddr::Hint(0x1000), 0x1000, e, false), Ok(MmapStep::ProcessChunks));
    assert_eq!(mmap_next_step(MmapStep::AtAddr, VMMapAddr::Force(0x1000), 0x1000, Errno::EINVAL, false), Err(Errno::EINVAL));
    assert_eq!(mmap_next_step(MmapStep::ProcessChunks, VMMapAddr::Any, 0x1000, e, false), Ok(MmapStep::NewDefaultChunk));
    assert_eq!(mmap_next_step(MmapStep::NewDefaultChunk, VMMapAddr::Any, 0x1000, e, false), Ok(MmapStep::AnyDefaultChunk));
    assert_eq!(mmap_next_step(MmapStep::NewDefaultChunk, VMMapAddr::Any, 0x1000, Errno::EINVAL, true), Err(Errno::EINVAL));
    assert_eq!(mmap_next_step(MmapStep::AnyDefaultChunk, VMMapAddr::Any, 0x1000, e, false), Ok(MmapStep::GlobalFreeRange));
    assert_eq!(mmap_next_step(MmapStep::GlobalFreeRange, VMMapAddr::Any, 0x1000, Errno::EINVAL, false), Err(Errno::ENOMEM));
    assert_eq!(mmap_next_step(MmapStep::SingleVmaChunk, VMMapAddr::Any, 0x1000, Errno::EINVAL, false), Err(Errno::ENOMEM));
}

#[test]
fn mapping_at_an_address() {
    let t = r(0x11000, 0x12000);
    assert_eq!(mmap_with_addr_step(None, &t, VMMapAddr::Need(0x11000)), Ok(WithAddrStep::NewChunk));
    assert_eq!(mmap_with_addr_step(Some((false, r(0x10000, 0x20000))), &t, VMMapAddr::Hint(0x11000)), Ok(WithAddrStep::InDefaultChunk));
    assert_eq!(mmap_with_addr_step(Some((false, r(0x11800, 0x20000))), &t, VMMapAddr::Force(0x11000)), Ok(WithAddrStep::AcrossChunks));
    assert_eq!(mmap_with_addr_step(Some((true, r(0x10000, 0x20000))), &t, VMMapAddr::Need(0x11000)), Err(Errno::ENOMEM));
    assert_eq!(mmap_with_addr_step(Some((true, r(0x10000, 0x20000))), &t, VMMapAddr::Force(0x11000)), Ok(WithAddrStep::ForceUnmapSingle));
    assert_eq!(mmap_with_addr_step(Some((true, r(0x11800, 0x20000))), &t, VMMapAddr::Force(0x11000)), Ok(WithAddrStep::AcrossChunks));
}

#[test]
fn single_vma_chunks_merge() {
    let vmas = vec![
        anon(0x10000, 0x11000, 1),
        anon(0x11000, 0x13000, 1),
        anon(0x13000, 0x14000, 1),
        anon(0x20000, 0x21000, 1),
        VMArea::new(r(0x21000, 0x22000), VMPerms::read(), None, 1),
    ];
    let fates = merge_all_single_vma_chunks(&vmas);
    assert_eq!(fates.len(), 5);
    assert!(matches!(fates[0], SingleVmaFate::Dropped));
    assert!(matches!(fates[1], SingleVmaFate::Dropped));
    match &fates[2] {
        SingleVmaFate::Merged(a) => assert_eq!(*a.range(), r(0x10000, 0x14000)),
        other => panic!("unexpected {:?}", other),
    }
    assert!(matches!(fates[3], SingleVmaFate::Kept));
    assert!(matches!(fates[4], SingleVmaFate::Kept));
}

#[test]
fn file_areas_merge_with_offsets() {
    let vmas = vec![shared_file(0x10000, 0x11000, 0x5000), shared_file(0x11000, 0x12000, 0x6000), shared_file(0x12000, 0x13000, 0x9000)];
    let fates = merge_all_single_vma_chunks(&vmas);
    assert!(matches!(fates[0], SingleVmaFate::Dropped));
    match &fates[1] {
        SingleVmaFate::Merged(a) => {
            assert_eq!(*a.range(), r(0x10000, 0x12000));
            assert_eq!(a.writeback_file(), Some((FileRef { id: 1 }, 0x5000)));
        },
        other => panic!("unexpected {:?}", other),
    }
    assert!(matches!(fates[2], SingleVmaFate::Kept));
}

#[test]
fn initializer_fills_buffers() {
    let mut buf = [5u8; 8];
    VMInitializer::DoNothing().init_slice(&mut buf, &[], None).unwrap();
    assert_eq!(buf, [5u8; 8]);
    VMInitializer::FillZeros().init_slice(&mut buf, &[], None).unwrap();
    assert_eq!(buf, [0u8; 8]);
    let copy = VMInitializer::CopyFrom { range: r(0, 0x1000) };
    copy.init_slice(&mut buf, &[1, 2, 3], None).unwrap();
    assert_eq!(buf, [1, 2, 3, 0, 0, 0, 0, 0]);
    let mut small = [9u8; 2];
    copy.init_slice(&mut small, &[1, 2, 3], None).unwrap();
    assert_eq!(small, [1, 2]);
    let load = VMInitializer::LoadFromFile { file: FileRef { id: 1 }, offset: 0 };
    let mut buf = [5u8; 6];
    load.init_slice(&mut buf, &[], Some(&[7u8, 7][..])).unwrap();
    assert_eq!(buf, [7, 7, 0, 0, 0, 0]);
    assert_eq!(load.init_slice(&mut buf, &[], None), Err(Errno::EACCES));
    let both = VMInitializer::CopyOldAndReadNew { old_range: r(0, 0x1000), file: FileRef { id: 1 }, offset: 0 };
    let mut buf = [5u8; 6];
    both.init_slice(&mut buf, &[1, 2], Some(&[8u8][..])).unwrap();
    assert_eq!(buf, [1, 2, 8, 0, 0, 0]);
    let mut buf = [5u8; 6];
    assert_eq!(both.init_slice(&mut buf, &[1, 2], None), Err(Errno::EACCES));
    assert_eq!(buf, [1, 2, 5, 5, 5, 5]);
}

#[test]
fn memory_init_plans() {
    let file = FileRef { id: 2 };
    let vma = VMArea::new(r(0x10000, 0x14000), VMPerms::read(), Some(FileBacked::new(file, 0x300, false)), 1);
    let target = r(0x12000, 0x13000);
    assert_eq!(
        vma.init_memory_plan(&target, Some(&VMInitializer::LoadFromFile { file, offset: 0x100 })),
        MemInitPlan::ReadFile { file, offset: 0x2100, protect: Some(VMPerms::read()) }
    );
    assert_eq!(vma.init_memory_plan(&target, Some(&VMInitializer::FillZeros())), MemInitPlan::Zero { protect: Some(VMPerms::read()) });
    assert_eq!(
        vma.init_memory_plan(&target, None),
        MemInitPlan::CommitWithFile { file, offset: 0x2300, perms: VMPerms::read() }
    );
    let plain = anon(0x10000, 0x14000, 1);
    assert_eq!(plain.init_memory_plan(&target, Some(&VMInitializer::DoNothing())), MemInitPlan::Protect { protect: None });
    assert_eq!(plain.init_memory_plan(&target, None), MemInitPlan::Commit { perms: VMPerms::rw() });
}

#[test]
fn flush_and_permission_plans() {
    let file = FileRef { id: 1 };
    let vma = VMArea::new(r(0x10000, 0x14000), VMPerms::rw(), Some(FileBacked::new(file, 0x100, true)), 1);
    let committed = vec![r(0x10000, 0x11000), r(0x12000, 0x14000)];
    assert_eq!(
        vma.flush_plan(&committed, true),
        vec![(r(0x10000, 0x11000), Some((file, 0x100))), (r(0x12000, 0x14000), Some((file, 0x2100)))]
    );
    assert_eq!(vma.flush_plan(&committed, false), vec![(r(0x10000, 0x11000), None), (r(0x12000, 0x14000), None)]);
    assert_eq!(anon(0x10000, 0x14000, 1).flush_plan(&committed, true)[1], (r(0x12000, 0x14000), None));
    assert_eq!(vma.extend_permission_ranges(false, &committed, 0x12800), Ok(vec![r(0x12000, 0x14000)]));
    assert_eq!(vma.extend_permission_ranges(false, &committed, 0x11800), Ok(vec![]));
    assert_eq!(vma.extend_permission_ranges(true, &committed, 0x11800), Ok(vec![r(0x10000, 0x14000)]));
    let none = VMArea::new(r(0x10000, 0x14000), VMPerms::none(), None, 1);
    assert_eq!(none.extend_permission_ranges(true, &committed, 0x11800), Err(Errno::EPERM));
}

#[test]
fn mprotect_and_msync_pick_one_chunk() {
    let chunks = vec![r(0x10000, 0x20000), r(0x20000, 0x30000)];
    assert_eq!(mprotect_chunk_target(&chunks, 0x11000, 0x1000), Ok(0));
    assert_eq!(mprotect_chunk_target(&chunks, 0x1f000, 0x2000), Err(Errno::EINVAL));
    assert_eq!(mprotect_chunk_target(&chunks, 0x40000, 0x1000), Err(Errno::ENOMEM));
    assert_eq!(mprotect_chunk_target(&chunks, 0x11001, 0x1000), Err(Errno::EINVAL));
    // The first chunk only touches the range, and is the one that counts.
    assert_eq!(mprotect_chunk_target(&chunks, 0x20000, 0x1000), Err(Errno::EINVAL));
    assert_eq!(chunk_holding_range(&chunks, 0x20000, 0x1000), Ok(1));
    assert_eq!(chunk_holding_range(&chunks, 0x1f000, 0x2000), Err(Errno::ENOMEM));
    assert_eq!(chunk_holding_range(&chunks, 0x1f000, 0x2001), Err(Errno::EINVAL));
    assert_eq!(MSyncFlags::from_u32(MS_INVALIDATE).unwrap().check_supported(), Err(Errno::EINVAL));
    assert_eq!(MSyncFlags::from_u32(0x4).unwrap().check_supported(), Ok(()));
}

#[test]
fn file_mapping_permissions() {
    let file = FileRef { id: 1 };
    let shared_rw = VMMapOptionsBuilder::new()
        .size(0x1000)
        .perms(VMPerms::rw())
        .initializer(VMInitializer::LoadFromFile { file, offset: 0 })
        .writeback_file(Some((file, 0)))
        .build()
        .unwrap();
    assert_eq!(mmap_file_check_permissions(&shared_rw, true, true), Ok(()));
    assert_eq!(mmap_file_check_permissions(&shared_rw, true, false), Err(Errno::EACCES));
    assert_eq!(mmap_file_check_permissions(&shared_rw, false, true), Err(Errno::EACCES));
    let private_rw = VMMapOptionsBuilder::new()
        .size(0x1000)
        .perms(VMPerms::rw())
        .initializer(VMInitializer::LoadFromFile { file, offset: 0 })
        .build()
        .unwrap();
    assert_eq!(mmap_file_check_permissions(&private_rw, true, false), Ok(()));
    let anon = VMMapOptionsBuilder::new().size(0x1000).perms(VMPerms::rw()).build().unwrap();
    assert_eq!(mmap_file_check_permissions(&anon, false, false), Ok(()));
}

#[test]
fn mremap_result_address() {
    let o = VMMapOptionsBuilder::new().size(0x1000).perms(VMPerms::rw()).build().unwrap();
    let none = VMRemapResult::new(None, Some(0x5000), Some((0x6000, 0x1000)), false);
    assert_eq!(mremap_return_addr(&none, None, 0x5000), Ok(0x5000));
    let moving = VMRemapResult::new(Some(o), None, Some((0x5000, 0x1000)), true);
    assert_eq!(mremap_return_addr(&moving, Some(Ok(0x9000)), 0x5000), Ok(0x9000));
    assert_eq!(mremap_return_addr(&moving, Some(Err(Errno::ENOMEM)), 0x5000), Err(Errno::EAGAIN));
    let in_place = VMRemapResult::new(Some(o), Some(0x5000), None, false);
    assert_eq!(mremap_return_addr(&in_place, Some(Ok(0x6000)), 0x5000), Ok(0x5000));
    assert_eq!(mremap_return_addr(&in_place, Some(Err(Errno::ENOMEM)), 0x5000), Ok(0x5000));
}

#[test]
fn global_space_takes_and_gives_back_chunks() {
    let space = r(0x1000_0000, 0x2000_0000);
    let gap = r(0x1800_0000, 0x1900_0000);
    let mut m = InternalVMManager::init(space, Some(gap));
    assert_eq!(m.free_size(), 0x1000_0000 - 0x100_0000);
    assert!(m.is_free_range(&r(0x1000_0000, 0x1800_0000)));
    assert!(!m.is_free_range(&r(0x1800_0000, 0x1800_1000)));

    let d = m.mmap_chunk_default(VMMapAddr::Any).unwrap();
    assert_eq!(d, r(0x1000_0000, 0x1000_0000 + CHUNK_DEFAULT_SIZE));
    let opts = VMMapOptionsBuilder::new().size(0x4000).addr(VMMapAddr::Need(0x1400_0000)).perms(VMPerms::rw()).build().unwrap();
    let s = m.mmap_chunk(&opts).unwrap();
    assert_eq!(s, r(0x1400_0000, 0x1400_4000));
    assert_eq!(m.chunks().clone(), vec![d, s]);
    assert_eq!(m.mmap_chunk(&opts), Err(Errno::ENOMEM));
    let in_gap = VMMapOptionsBuilder::new().size(0x1000).addr(VMMapAddr::Need(0x1800_0000)).perms(VMPerms::rw()).build().unwrap();
    assert_eq!(m.mmap_chunk(&in_gap), Err(Errno::ENOMEM));

    // Unmapping the middle of the single-area chunk leaves two chunks.
    let left = m.munmap_chunk_range(&s, &r(0x1400_1000, 0x1400_2000));
    assert_eq!(left, vec![r(0x1400_0000, 0x1400_1000), r(0x1400_2000, 0x1400_4000)]);
    assert_eq!(m.chunks().clone(), vec![d, r(0x1400_0000, 0x1400_1000), r(0x1400_2000, 0x1400_4000)]);
    assert!(m.is_free_range(&r(0x1400_1000, 0x1400_2000)));

    // Unmapping the whole of a chunk leaves none of it.
    assert!(m.munmap_chunk_range(&r(0x1400_0000, 0x1400_1000), &r(0x13ff_f000, 0x1400_1000)).is_empty());
    m.free_chunk(&r(0x1400_2000, 0x1400_4000));
    m.free_chunk(&d);
    assert!(m.chunks().is_empty());
    assert_eq!(m.free_size(), 0x1000_0000 - 0x100_0000);
    assert!(m.is_free_range(&r(0x1000_0000, 0x1800_0000)));
    assert!(m.is_free_range(&r(0x1900_0000, 0x2000_0000)));
}

#[test]
fn global_space_splits_a_chunk_and_allocates_all_or_nothing() {
    let space = r(0x1000_0000, 0x1001_0000);
    let mut m = InternalVMManager::init(space, None);
    let opts = |size: usize| VMMapOptionsBuilder::new().size(size).perms(VMPerms::rw()).build().unwrap();
    let c = m.mmap_chunk(&opts(0x4000)).unwrap();
    assert_eq!(c, r(0x1000_0000, 0x1000_4000));
    let parts = m.split_chunk(&c, &r(0x1000_1000, 0x1000_2000));
    assert_eq!(parts, vec![r(0x1000_0000, 0x1000_1000), r(0x1000_1000, 0x1000_2000), r(0x1000_2000, 0x1000_4000)]);
    assert_eq!(m.chunks().clone(), parts);
    assert_eq!(m.split_chunk(&r(0x1000_2000, 0x1000_4000), &r(0x1000_2000, 0x1000_4000)), vec![r(0x1000_2000, 0x1000_4000)]);
    assert_eq!(m.free_size(), 0xC000);

    let got = m.alloc_chunks(&vec![opts(0x2000), opts(0x3000)]).unwrap();
    assert_eq!(got, vec![r(0x1000_4000, 0x1000_6000), r(0x1000_6000, 0x1000_9000)]);
    assert_eq!(m.free_size(), 0x7000);
    // The third request does not fit: the first two are given back.
    assert_eq!(m.alloc_chunks(&vec![opts(0x2000), opts(0x1000), opts(0x8000)]), Err(Errno::ENOMEM));
    assert_eq!(m.free_size(), 0x7000);
    assert_eq!(m.chunks().len(), 5);
    assert!(m.is_free_range(&r(0x1000_9000, 0x1001_0000)));
}

#[test]
fn global_space_grows_a_shared_chunk() {
    let mut m = InternalVMManager::init(r(0x1000_0000, 0x1001_0000), None);
    let at = |a: usize, size: usize| VMMapOptionsBuilder::new().size(size).addr(VMMapAddr::Need(a)).perms(VMPerms::rw()).build().unwrap();
    let first = at(0x1000_2000, 0x2000);
    assert_eq!(m.mmap_shared_space(MmapSharedResult::NeedCreate, None, &first), Ok(0x1000_2000));
    let c = r(0x1000_2000, 0x1000_4000);
    assert_eq!(m.chunks().clone(), vec![c]);
    let grow = at(0x1000_4000, 0x1000);
    let step = MmapSharedResult::NeedExpand(7, r(0x1000_4000, 0x1000_5000));
    assert_eq!(m.mmap_shared_space(step, Some(c), &grow), Ok(0x1000_2000));
    assert_eq!(m.chunks().clone(), vec![r(0x1000_2000, 0x1000_5000)]);
    assert_eq!(m.mmap_shared_space(MmapSharedResult::Success(0x1000_2000), None, &grow), Ok(0x1000_2000));
    assert_eq!(m.mmap_shared_space(MmapSharedResult::NeedReplace(7), None, &grow), Err(Errno::EINVAL));
    // A chunk taken next to it is joined by merge_chunks.
    let next = m.mmap_chunk(&at(0x1000_5000, 0x1000)).unwrap();
    assert_eq!(m.merge_chunks(&r(0x1000_2000, 0x1000_5000), &next), r(0x1000_2000, 0x1000_6000));
    assert_eq!(m.chunks().clone(), vec![r(0x1000_2000, 0x1000_6000)]);
    assert_eq!(m.free_size(), 0x1_0000 - 0x4000);
}

#[test]
fn global_allocation_places_each_request_aligned() {
    let mut m = InternalVMManager::init(r(0x1000_0000, 0x1002_0000), None);
    let req = |size: usize, align: usize| VMMapOptionsBuilder::new().size(size).align(align).perms(VMPerms::rw()).build().unwrap();
    let got = m.alloc_chunks(&vec![req(0x1000, 0x1000), req(0x2000, 0x4000), req(0x1000, 0x1000)]).unwrap();
    assert_eq!(got, vec![r(0x1000_0000, 0x1000_1000), r(0x1000_4000, 0x1000_6000), r(0x1000_1000, 0x1000_2000)]);
    assert_eq!(m.alloc_chunks(&vec![]), Ok(vec![]));
    assert_eq!(m.alloc_chunks(&vec![req(0x20000, 0x1000)]), Err(Errno::ENOMEM));
    assert_eq!(m.free_size(), 0x20000 - 0x4000);
}
