use occlum::chunk::{mmap_in_chunks, ChunkInternal};
use occlum::free_space_manager::VMFreeSpaceManager;
use occlum::vm_area::VMArea;
use occlum::vm_chunk_manager::ChunkManager;
use occlum::vm_perms::VMPerms;
use occlum::vm_range::VMRange;
use occlum::vm_util::{FileRef, VMInitializer, VMMapAddr, VMMapOptions, VMMapOptionsBuilder};
use occlum::Errno;

fn r(start: usize, end: usize) -> VMRange {
    VMRange { start, end }
}

fn opts(size: usize, addr: VMMapAddr, perms: VMPerms) -> VMMapOptions {
    VMMapOptionsBuilder::new().size(size).addr(addr).perms(perms).build().unwrap()
}

fn ranges(vmas: &[VMArea]) -> Vec<VMRange> {
    vmas.iter().map(|v| *v.range()).collect()
}

#[test]
fn free_manager_takes_first_fit() {
    let mut m = VMFreeSpaceManager::new(r(0x1000, 0x10000));
    assert_eq!(m.free_size(), 0xF000);
    assert_eq!(m.find_free_range(0x2000, 0x1000, VMMapAddr::Any), Ok(r(0x1000, 0x3000)));
    assert_eq!(m.free_size(), 0xD000);
    assert_eq!(m.find_free_range(0x1000, 0x1000, VMMapAddr::Need(0x5000)), Ok(r(0x5000, 0x6000)));
    assert_eq!(m.free_size(), 0xC000);
    assert!(m.is_free_range(&r(0x3000, 0x5000)));
    assert!(!m.is_free_range(&r(0x4000, 0x6000)));
}

#[test]
fn free_manager_fixed_address_taken_is_enomem() {
    let mut m = VMFreeSpaceManager::new(r(0x1000, 0x10000));
    assert!(m.find_free_range(0x1000, 0x1000, VMMapAddr::Need(0x5000)).is_ok());
    assert_eq!(m.find_free_range(0x1000, 0x1000, VMMapAddr::Need(0x5000)), Err(Errno::ENOMEM));
    assert_eq!(m.find_free_range(0x20000, 0x1000, VMMapAddr::Any), Err(Errno::ENOMEM));
}

#[test]
fn free_manager_hint_and_alignment() {
    let mut m = VMFreeSpaceManager::new(r(0x1000, 0x10000));
    assert_eq!(m.find_free_range(0x1000, 0x1000, VMMapAddr::Hint(0x8000)), Ok(r(0x8000, 0x9000)));
    assert_eq!(m.find_free_range(0x1000, 0x4000, VMMapAddr::Any), Ok(r(0x4000, 0x5000)));
    assert_eq!(m.free_size(), 0xF000 - 0x2000);
}

#[test]
fn free_manager_release_restores_free_space() {
    let mut m = VMFreeSpaceManager::new(r(0x1000, 0x10000));
    let taken = m.find_free_range(0x3000, 0x1000, VMMapAddr::Need(0x4000)).unwrap();
    assert_eq!(taken, r(0x4000, 0x7000));
    assert!(!m.is_free_range(&r(0x1000, 0x10000)));
    assert_eq!(m.add_range_back_to_free_manager(&taken), Ok(()));
    assert_eq!(m.free_size(), 0xF000);
    assert!(m.is_free_range(&r(0x1000, 0x10000)));
}

#[test]
fn free_manager_put_back_joins_both_neighbours() {
    let mut m = VMFreeSpaceManager::new(r(0x1000, 0x10000));
    assert_eq!(m.find_free_range(0x2000, 0x1000, VMMapAddr::Need(0x4000)), Ok(r(0x4000, 0x6000)));
    assert!(!m.is_free_range(&r(0x1000, 0x10000)));
    assert_eq!(m.add_range_back_to_free_manager(&r(0x4000, 0x6000)), Ok(()));
    assert_eq!(m.free_size(), 0xF000);
    assert!(m.is_free_range(&r(0x1000, 0x10000)));
}

#[test]
fn free_manager_put_back_joins_the_first_range() {
    let mut m = VMFreeSpaceManager::new(r(0x1000, 0x10000));
    assert_eq!(m.find_free_range(0x2000, 0x1000, VMMapAddr::Any), Ok(r(0x1000, 0x3000)));
    assert_eq!(m.add_range_back_to_free_manager(&r(0x2000, 0x3000)), Ok(()));
    assert!(m.is_free_range(&r(0x2000, 0x10000)));
    assert_eq!(m.add_range_back_to_free_manager(&r(0x1000, 0x2000)), Ok(()));
    assert!(m.is_free_range(&r(0x1000, 0x10000)));
}

#[test]
fn chunk_force_mmap_fails_when_another_process_holds_the_range() {
    let mut c = ChunkManager::from(0x10000, 0x10000).unwrap();
    c.mmap(&opts(0x2000, VMMapAddr::Need(0x12000), VMPerms::rw()), 1).unwrap();
    assert_eq!(c.mmap(&opts(0x2000, VMMapAddr::Force(0x11000), VMPerms::rw()), 2).err(), Some(Errno::ENOMEM));
    assert_eq!(c.mmap(&opts(0x2000, VMMapAddr::Force(0x1F000), VMPerms::rw()), 2).err(), Some(Errno::ENOMEM));
    let (v, _) = c.mmap(&opts(0x2000, VMMapAddr::Force(0x11000), VMPerms::rw()), 1).unwrap();
    assert_eq!(v, r(0x11000, 0x13000));
}

#[test]
fn chunk_from_checks_alignment() {
    assert_eq!(ChunkManager::from(0x10001, 0x10000).err(), Some(Errno::EINVAL));
    let c = ChunkManager::from(0x10000, 0x10000).unwrap();
    assert_eq!(*c.range(), r(0x10000, 0x20000));
    assert_eq!(*c.free_size(), 0x10000);
    assert!(c.is_empty());
}

#[test]
fn chunk_mmap_then_munmap_restores() {
    let mut c = ChunkManager::from(0x10000, 0x10000).unwrap();
    let (v, gone) = c.mmap(&opts(0x2000, VMMapAddr::Any, VMPerms::rw()), 7).unwrap();
    assert_eq!(v, r(0x10000, 0x12000));
    assert!(gone.is_empty());
    assert_eq!(*c.free_size(), 0xE000);
    assert_eq!(ranges(c.vmas()), vec![r(0x10000, 0x12000)]);
    assert_eq!(c.vmas()[0].pid(), 7);
    assert!(!c.is_free_range(&r(0x10000, 0x11000)));

    let removed = c.munmap(0x10000, 0x2000, 7).unwrap();
    assert_eq!(ranges(&removed), vec![r(0x10000, 0x12000)]);
    assert!(c.is_empty());
    assert_eq!(*c.free_size(), 0x10000);
    assert!(c.is_free_range(&r(0x10000, 0x20000)));
}

#[test]
fn chunk_munmap_splits_area_and_skips_other_process() {
    let mut c = ChunkManager::from(0x10000, 0x10000).unwrap();
    c.mmap(&opts(0x4000, VMMapAddr::Need(0x10000), VMPerms::rw()), 1).unwrap();
    c.mmap(&opts(0x2000, VMMapAddr::Need(0x14000), VMPerms::rw()), 2).unwrap();
    let removed = c.munmap(0x11000, 0x4000, 1).unwrap();
    assert_eq!(ranges(&removed), vec![r(0x11000, 0x14000)]);
    assert_eq!(ranges(c.vmas()), vec![r(0x10000, 0x11000), r(0x14000, 0x16000)]);
    assert_eq!(*c.free_size(), 0x10000 - 0x1000 - 0x2000);
    assert_eq!(c.munmap(0x11001, 0x1000, 1).err(), Some(Errno::EINVAL));
    assert_eq!(c.munmap(0x11000, 0, 1).err(), Some(Errno::EINVAL));
}

#[test]
fn chunk_munmap_twice_is_like_once() {
    let mut c = ChunkManager::from(0x10000, 0x10000).unwrap();
    c.mmap(&opts(0x4000, VMMapAddr::Need(0x10000), VMPerms::rw()), 3).unwrap();
    let first = c.munmap(0x11000, 0x2000, 3).unwrap();
    assert_eq!(ranges(&first), vec![r(0x11000, 0x13000)]);
    let after_once = ranges(c.vmas());
    let free_once = *c.free_size();
    let second = c.munmap(0x11000, 0x2000, 3).unwrap();
    assert!(second.is_empty());
    assert_eq!(ranges(c.vmas()), after_once);
    assert_eq!(ranges(c.vmas()), vec![r(0x10000, 0x11000), r(0x13000, 0x14000)]);
    assert_eq!(*c.free_size(), free_once);
}

#[test]
fn chunk_force_mmap_replaces_what_was_there() {
    let mut c = ChunkManager::from(0x10000, 0x10000).unwrap();
    c.mmap(&opts(0x4000, VMMapAddr::Need(0x10000), VMPerms::rw()), 1).unwrap();
    let (v, gone) = c.mmap(&opts(0x2000, VMMapAddr::Force(0x11000), VMPerms::read()), 1).unwrap();
    assert_eq!(v, r(0x11000, 0x13000));
    assert_eq!(ranges(&gone), vec![r(0x11000, 0x13000)]);
    assert_eq!(ranges(c.vmas()), vec![r(0x10000, 0x11000), r(0x11000, 0x13000), r(0x13000, 0x14000)]);
    assert_eq!(c.vmas()[1].perms(), VMPerms::read());
    assert_eq!(*c.free_size(), 0xC000);
}

#[test]
fn chunk_mmap_without_room_is_enomem() {
    let mut c = ChunkManager::from(0x10000, 0x2000).unwrap();
    assert_eq!(c.mmap(&opts(0x4000, VMMapAddr::Any, VMPerms::rw()), 1).err(), Some(Errno::ENOMEM));
    assert!(c.is_empty());
}

#[test]
fn chunk_mprotect_splits_and_reports_changed_ranges() {
    let mut c = ChunkManager::from(0x10000, 0x10000).unwrap();
    c.mmap(&opts(0x3000, VMMapAddr::Need(0x10000), VMPerms::rw()), 1).unwrap();
    let changed = c.mprotect(0x11000, 0x1000, VMPerms::read(), 1).unwrap();
    assert_eq!(changed, vec![r(0x11000, 0x12000)]);
    assert_eq!(ranges(c.vmas()), vec![r(0x10000, 0x11000), r(0x11000, 0x12000), r(0x12000, 0x13000)]);
    assert_eq!(c.vmas()[1].perms(), VMPerms::read());
    assert_eq!(c.vmas()[2].perms(), VMPerms::rw());
    // The same permissions again change nothing.
    assert_eq!(c.mprotect(0x11000, 0x1000, VMPerms::read(), 1), Ok(vec![]));
    // Another process's areas are left alone.
    assert_eq!(c.mprotect(0x10000, 0x1000, VMPerms::read(), 2), Ok(vec![]));
    assert_eq!(c.mprotect(0x10001, 0x1000, VMPerms::read(), 1), Err(Errno::EINVAL));
    assert_eq!(c.mprotect(0x0, 0x1000, VMPerms::read(), 1), Err(Errno::ENOMEM));
    assert_eq!(*c.free_size(), 0xD000);
}

#[test]
fn chunk_find_mmap_region_and_clean() {
    let mut c = ChunkManager::from(0x10000, 0x10000).unwrap();
    c.mmap(&opts(0x2000, VMMapAddr::Need(0x10000), VMPerms::rw()), 1).unwrap();
    c.mmap(&opts(0x1000, VMMapAddr::Need(0x13000), VMPerms::rw()), 2).unwrap();
    assert_eq!(c.find_mmap_region(0x11800, 1), Ok(r(0x10000, 0x12000)));
    assert_eq!(c.find_mmap_region(0x13000, 1), Err(Errno::ESRCH));
    assert_eq!(c.find_mmap_region(0x12000, 1), Err(Errno::ESRCH));
    let cleaned = c.clean_vmas_with_pid(1);
    assert_eq!(ranges(&cleaned), vec![r(0x10000, 0x12000)]);
    assert_eq!(ranges(c.vmas()), vec![r(0x13000, 0x14000)]);
    assert_eq!(*c.free_size(), 0xF000);
}

#[test]
fn chunk_msync_by_range_and_file() {
    let file = FileRef { id: 9 };
    let mut c = ChunkManager::from(0x10000, 0x10000).unwrap();
    let o = VMMapOptionsBuilder::new()
        .size(0x2000)
        .addr(VMMapAddr::Need(0x10000))
        .perms(VMPerms::rw())
        .initializer(VMInitializer::LoadFromFile { file, offset: 0x100 })
        .writeback_file(Some((file, 0x100)))
        .build()
        .unwrap();
    c.mmap(&o, 1).unwrap();
    c.mmap(&opts(0x1000, VMMapAddr::Need(0x12000), VMPerms::rw()), 1).unwrap();
    let parts = c.msync_by_range(&r(0x11000, 0x13000)).unwrap();
    assert_eq!(ranges(&parts), vec![r(0x11000, 0x12000), r(0x12000, 0x13000)]);
    assert_eq!(parts[0].writeback_file(), Some((file, 0x1100)));
    assert_eq!(c.msync_by_range(&r(0x0, 0x1000)).err(), Some(Errno::ENOMEM));
    let by_file = c.msync_by_file(&file);
    assert_eq!(ranges(&by_file), vec![r(0x10000, 0x12000)]);
    assert!(c.msync_by_file(&FileRef { id: 10 }).is_empty());
}

#[test]
fn default_chunk_tracks_its_processes() {
    let mut c = ChunkInternal::new(r(0x10000, 0x20000), 1).unwrap();
    assert!(ChunkInternal::new(r(0x10001, 0x20000), 1).is_err());
    assert!(c.is_owned_by_current_process(1));
    assert!(!c.is_owned_by_current_process(2));
    assert_eq!(c.free_size(), 0x10000);
    let (v, _) = c.mmap(&opts(0x2000, VMMapAddr::Any, VMPerms::rw()), 1).unwrap();
    assert_eq!(v, r(0x10000, 0x12000));
    assert_eq!(c.mmap(&opts(0x20000, VMMapAddr::Any, VMPerms::rw()), 1).err(), Some(Errno::ENOMEM));
    c.add_process(2);
    assert!(!c.is_owned_by_current_process(1));
    c.chunk_manager_mut().mmap(&opts(0x1000, VMMapAddr::Any, VMPerms::rw()), 2).unwrap();
    assert_eq!(c.chunk_manager().vmas().len(), 2);
    // Process 1 leaves; the area of process 2 stays, so both still count.
    assert!(!c.clean_multi_vmas(1));
    assert!(!c.is_owned_by_current_process(1));
    assert!(c.clean_multi_vmas(2));
    assert!(!c.is_owned_by_current_process(2));
    assert!(c.is_owned_by_current_process(1));
}

#[test]
fn default_chunks_tried_in_order() {
    let mut chunks = vec![
        ChunkInternal::new(r(0x10000, 0x12000), 1).unwrap(),
        ChunkInternal::new(r(0x20000, 0x30000), 2).unwrap(),
        ChunkInternal::new(r(0x40000, 0x50000), 1).unwrap(),
    ];
    // Process 1 uses the first and the third; the first is too small.
    assert_eq!(mmap_in_chunks(&mut chunks, &opts(0x4000, VMMapAddr::Any, VMPerms::rw()), 1, false), Ok(0x40000));
    assert_eq!(chunks[2].chunk_manager().vmas().len(), 1);
    assert_eq!(chunks[0].chunk_manager().vmas().len(), 0);
    // Process 3 uses none of them.
    assert_eq!(mmap_in_chunks(&mut chunks, &opts(0x1000, VMMapAddr::Any, VMPerms::rw()), 3, false), Err(Errno::ENOMEM));
    // Any chunk: the first that takes it, which process 3 then uses.
    assert_eq!(mmap_in_chunks(&mut chunks, &opts(0x4000, VMMapAddr::Any, VMPerms::rw()), 3, true), Ok(0x20000));
    assert!(chunks[1].used_by(3));
    assert!(!chunks[0].used_by(3));
    assert_eq!(mmap_in_chunks(&mut chunks, &opts(0x20000, VMMapAddr::Any, VMPerms::rw()), 3, true), Err(Errno::ENOMEM));
}
