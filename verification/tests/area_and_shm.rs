use occlum::shm_manager::{MmapSharedResult, MunmapChunkFlag, MunmapSharedResult, ShmManager};
use occlum::vm_area::VMArea;
use occlum::vm_perms::VMPerms;
use occlum::vm_range::VMRange;
use occlum::vm_util::{FileBacked, FileRef, VMMapAddr, VMMapOptions, VMMapOptionsBuilder};
use occlum::Errno;

fn r(start: usize, end: usize) -> VMRange {
    VMRange { start, end }
}

fn file_area(start: usize, end: usize, offset: usize, pid: u32) -> VMArea {
    VMArea::new(r(start, end), VMPerms::rw(), Some(FileBacked::new(FileRef { id: 3 }, offset, true)), pid)
}

fn shared_opts(size: usize, addr: VMMapAddr, offset: usize, perms: VMPerms) -> VMMapOptions {
    VMMapOptionsBuilder::new()
        .size(size)
        .addr(addr)
        .perms(perms)
        .writeback_file(Some((FileRef { id: 3 }, offset)))
        .build()
        .unwrap()
}

#[test]
fn area_split_moves_file_offsets() {
    let a = file_area(0x1000, 0x5000, 0x200, 1);
    let parts = a.subtract(&r(0x2000, 0x3000));
    assert_eq!(parts.len(), 2);
    assert_eq!(*parts[0].range(), r(0x1000, 0x2000));
    assert_eq!(parts[0].writeback_file(), Some((FileRef { id: 3 }, 0x200)));
    assert_eq!(*parts[1].range(), r(0x3000, 0x5000));
    assert_eq!(parts[1].writeback_file(), Some((FileRef { id: 3 }, 0x2200)));
    let mid = a.intersect(&r(0x2000, 0x3000)).unwrap();
    assert_eq!(mid.init_file(), Some((FileRef { id: 3 }, 0x1200)));
    assert!(a.intersect(&r(0x6000, 0x7000)).is_none());
}

#[test]
fn area_set_start_moves_offset() {
    let mut a = file_area(0x2000, 0x5000, 0x1000, 1);
    a.set_start(0x1000);
    assert_eq!(*a.range(), r(0x1000, 0x5000));
    assert_eq!(a.writeback_file(), Some((FileRef { id: 3 }, 0x0)));
    a.set_start(0x3000);
    assert_eq!(a.writeback_file(), Some((FileRef { id: 3 }, 0x2000)));
    a.set_end(0x4000);
    assert_eq!(a.size(), 0x1000);
}

#[test]
fn area_merge_rule() {
    let a = file_area(0x1000, 0x2000, 0x0, 1);
    let b = file_area(0x2000, 0x3000, 0x1000, 1);
    let c = file_area(0x2000, 0x3000, 0x2000, 1);
    let d = file_area(0x2000, 0x3000, 0x1000, 2);
    assert!(VMArea::can_merge_vmas(&a, &b));
    assert!(!VMArea::can_merge_vmas(&a, &c));
    assert!(!VMArea::can_merge_vmas(&a, &d));
    assert!(!VMArea::can_merge_vmas(&b, &a));
    let anon1 = VMArea::new(r(0x1000, 0x2000), VMPerms::rw(), None, 1);
    let anon2 = VMArea::new(r(0x2000, 0x3000), VMPerms::rw(), None, 1);
    let anon3 = VMArea::new(r(0x2000, 0x3000), VMPerms::read(), None, 1);
    assert!(VMArea::can_merge_vmas(&anon1, &anon2));
    assert!(!VMArea::can_merge_vmas(&anon1, &anon3));
    assert!(a.is_the_same_to(&a.duplicate()));
    assert!(!a.is_the_same_to(&b));
}

#[test]
fn area_sharing_counts() {
    let mut a = file_area(0x1000, 0x2000, 0, 5);
    assert!(!a.is_shared());
    assert_eq!(a.attach_shared_process(6), Err(Errno::EINVAL));
    assert_eq!(a.detach_shared_process(5, false), Err(Errno::EINVAL));
    a.mark_shared();
    assert!(a.is_shared());
    assert!(a.belong_to(5));
    assert!(a.exclusive_by(5));
    assert_eq!(a.attach_shared_process(6), Ok(()));
    assert_eq!(a.attach_shared_process(6), Ok(()));
    assert!(!a.exclusive_by(5));
    assert_eq!(a.detach_shared_process(6, false), Ok(false));
    assert!(a.belong_to(6));
    assert_eq!(a.detach_shared_process(5, false), Ok(false));
    assert!(a.exclusive_by(6));
    assert_eq!(a.detach_shared_process(6, true), Ok(true));
    assert!(!a.belong_to(6));
}

#[test]
fn shm_first_request_needs_a_chunk() {
    let mut shm = ShmManager::new();
    let o = shared_opts(0x2000, VMMapAddr::Any, 0, VMPerms::read());
    let mut dummy = file_area(0, 0, 0, 1);
    assert_eq!(shm.mmap_shared_chunk(&o, true, 42, &mut dummy, 1), Ok((MmapSharedResult::NeedCreate, None)));
    assert_eq!(shm.mmap_shared_chunk(&o, false, 42, &mut dummy, 1), Err(Errno::EINVAL));
    let anon = VMMapOptionsBuilder::new().size(0x1000).perms(VMPerms::rw()).build().unwrap();
    assert_eq!(ShmManager::qualified_for_sharing(&anon, true), Err(Errno::EINVAL));
    assert_eq!(shm.shared_chunk_for(&o, true, 42), Ok(None));
}

#[test]
fn shm_second_process_shares_and_raises_perms() {
    let mut shm = ShmManager::new();
    let o = shared_opts(0x2000, VMMapAddr::Any, 0, VMPerms::read());
    let mut vma = VMArea::new(r(0x10000, 0x12000), VMPerms::read(), Some(FileBacked::new(FileRef { id: 3 }, 0, true)), 1);
    assert_eq!(shm.create_shared_chunk(&o, &mut vma, 77, 42), Ok(0x10000));
    assert_eq!(shm.shared_chunk_of(42), Some(77));
    assert!(vma.exclusive_by(1));

    // Process 2 maps the second page of the file with write permission.
    let o2 = shared_opts(0x1000, VMMapAddr::Any, 0x1000, VMPerms::rw());
    let res = shm.mmap_shared_chunk(&o2, true, 42, &mut vma, 2).unwrap();
    assert_eq!(res, (MmapSharedResult::Success(0x11000), Some((VMPerms::read(), VMPerms::rw()))));
    assert_eq!(vma.perms(), VMPerms::rw());
    assert!(vma.belong_to(2));

    // Growing right after the area needs the chunk to expand.
    let o3 = shared_opts(0x1000, VMMapAddr::Need(0x12000), 0x2000, VMPerms::rw());
    let res = shm.mmap_shared_chunk(&o3, true, 42, &mut vma, 2).unwrap();
    assert_eq!(res, (MmapSharedResult::NeedExpand(77, r(0x12000, 0x13000)), None));

    // A mapping elsewhere of an area shared by two processes is refused.
    let o4 = shared_opts(0x1000, VMMapAddr::Need(0x20000), 0x5000, VMPerms::rw());
    assert_eq!(shm.mmap_shared_chunk(&o4, true, 42, &mut vma, 2), Err(Errno::EINVAL));

    // Unmapping: process 1 leaves, then process 2 leaves and the chunk can go.
    assert_eq!(shm.munmap_shared_chunk(&mut vma, 42, &r(0x10000, 0x11000), MunmapChunkFlag::Default, 1), Ok(MunmapSharedResult::StillInUse));
    assert!(vma.belong_to(1));
    assert_eq!(shm.munmap_shared_chunk(&mut vma, 42, &r(0x10000, 0x12000), MunmapChunkFlag::Force, 1), Err(Errno::EINVAL));
    assert_eq!(shm.munmap_shared_chunk(&mut vma, 42, &r(0x10000, 0x12000), MunmapChunkFlag::Default, 1), Ok(MunmapSharedResult::StillInUse));
    assert!(!vma.belong_to(1));
    assert_eq!(shm.munmap_shared_chunk(&mut vma, 42, &r(0x10000, 0x12000), MunmapChunkFlag::OnProcessExit, 2), Ok(MunmapSharedResult::Freeable));
    assert_eq!(shm.shared_chunk_of(42), None);
}

#[test]
fn shm_exclusive_owner_gets_replace() {
    let mut shm = ShmManager::new();
    let o = shared_opts(0x1000, VMMapAddr::Any, 0, VMPerms::rw());
    let mut vma = VMArea::new(r(0x10000, 0x11000), VMPerms::rw(), Some(FileBacked::new(FileRef { id: 3 }, 0, true)), 1);
    shm.create_shared_chunk(&o, &mut vma, 5, 9).unwrap();
    let big = shared_opts(0x4000, VMMapAddr::Any, 0, VMPerms::rw());
    assert_eq!(shm.mmap_shared_chunk(&big, true, 9, &mut vma, 1), Ok((MmapSharedResult::NeedReplace(5), None)));
    shm.replace_shared_chunk(9, 6);
    assert_eq!(shm.shared_chunk_of(9), Some(6));
}

#[test]
fn shm_mprotect_only_raises() {
    let shm = ShmManager::new();
    let mut vma = VMArea::new(r(0x10000, 0x11000), VMPerms::read(), Some(FileBacked::new(FileRef { id: 3 }, 0, true)), 1);
    assert_eq!(shm.mprotect_shared_chunk(&mut vma, VMPerms::rw(), true), Err(Errno::EINVAL));
    vma.mark_shared();
    assert_eq!(shm.mprotect_shared_chunk(&mut vma, VMPerms::rw(), false), Err(Errno::EACCES));
    assert_eq!(shm.mprotect_shared_chunk(&mut vma, VMPerms::exec(), false), Ok(Some((VMPerms::read(), VMPerms { bits: 0x5 }))));
    assert_eq!(shm.mprotect_shared_chunk(&mut vma, VMPerms::read(), false), Ok(None));
    assert_eq!(vma.perms(), VMPerms { bits: 0x5 });
}

#[test]
fn attach_then_detach_restores_sharing() {
    let mut a = file_area(0x1000, 0x2000, 0, 5);
    a.mark_shared();
    a.attach_shared_process(6).unwrap();
    assert_eq!(a.detach_shared_process(6, false), Ok(false));
    assert!(!a.belong_to(6));
    assert!(a.exclusive_by(5));
    a.attach_shared_process(5).unwrap();
    assert!(!a.exclusive_by(5));
    assert_eq!(a.detach_shared_process(5, false), Ok(false));
    assert!(a.exclusive_by(5));
}
