use occlum::page_tracker::{get_page_chunk_start_addr, handle_page_fault, PageChunkManager, PageFaultAction, PageTracker, PAGE_CHUNK_UNIT};
use occlum::vm_epc::{commit_memory, perm_change_steps, CommitPlan, EPCAllocator, EPCMemType, PermChangeSteps, ReservedMem, SGXPlatform, UserRegionMem};
use occlum::vm_perms::{VMPerms, VM_PERM_GROWSDOWN};
use occlum::vm_range::VMRange;
use occlum::Errno;

fn r(start: usize, end: usize) -> VMRange {
    VMRange { start, end }
}

#[test]
fn user_space_split_between_memory_kinds() {
    let edmm = SGXPlatform::from_edmm_support(true);
    let plain = SGXPlatform::from_edmm_support(false);
    assert_eq!(edmm.user_space_sizes(0x10000, 0x40000), (0x10000, Some(0x30000)));
    assert_eq!(edmm.user_space_sizes(0x40000, 0x40000), (0x40000, None));
    assert_eq!(plain.user_space_sizes(0x10000, 0x40000), (0x40000, None));
    assert_eq!(
        edmm.alloc_user_space(0x10000, 0x40000, 0x100000, 0x200000),
        Ok((r(0x100000, 0x230000), Some(r(0x110000, 0x200000))))
    );
    assert_eq!(plain.alloc_user_space(0x10000, 0x40000, 0x100000, 0), Ok((r(0x100000, 0x140000), None)));
    assert_eq!(plain.alloc_user_space(0x10000, 0x40000, 0x100001, 0), Err(Errno::EINVAL));
    assert_eq!(
        edmm.free_user_space(&r(0x100000, 0x230000), Some(&r(0x110000, 0x200000))),
        vec![(EPCMemType::Reserved, r(0x100000, 0x110000)), (EPCMemType::UserRegion, r(0x200000, 0x230000))]
    );
    assert_eq!(plain.free_user_space(&r(0x100000, 0x140000), None), vec![(EPCMemType::Reserved, r(0x100000, 0x140000))]);
}

#[test]
fn memory_kind_of_a_range() {
    let gap = Some(r(0x110000, 0x200000));
    assert_eq!(EPCMemType::new(&r(0x100000, 0x110000), true, gap), EPCMemType::Reserved);
    assert_eq!(EPCMemType::new(&r(0x200000, 0x201000), true, gap), EPCMemType::UserRegion);
    assert_eq!(EPCMemType::new(&r(0x200000, 0x201000), false, gap), EPCMemType::Reserved);
    assert_eq!(ReservedMem::mem_type(), EPCMemType::Reserved);
    assert_eq!(UserRegionMem::mem_type(), EPCMemType::UserRegion);
}

#[test]
fn protection_drops_growsdown() {
    let cur = VMPerms { bits: 0x3 | VM_PERM_GROWSDOWN };
    let change = EPCMemType::UserRegion.modify_protection(0x1000, 0x2000, cur, VMPerms::read());
    assert_eq!(change.current, VMPerms::rw());
    assert_eq!(change.new, VMPerms::read());
    assert_eq!(change.addr, 0x1000);
    assert_eq!(change.length, 0x2000);
    assert_eq!(change.mem_type, EPCMemType::UserRegion);
}

#[test]
fn commit_and_permission_steps() {
    assert_eq!(commit_memory(0x1000, 0x2000, None), CommitPlan::Plain { start: 0x1000, size: 0x2000 });
    assert_eq!(commit_memory(0x1000, 0x2000, Some(VMPerms::rw())), CommitPlan::Plain { start: 0x1000, size: 0x2000 });
    assert_eq!(
        commit_memory(0x1000, 0x2000, Some(VMPerms::read())),
        CommitPlan::WithPermission { start: 0x1000, size: 0x2000, perms: VMPerms::read() }
    );
    assert_eq!(perm_change_steps(VMPerms::rw(), VMPerms::rw()), None);
    assert_eq!(perm_change_steps(VMPerms::read(), VMPerms::all()), Some(PermChangeSteps { extend: true, accept: false, to_none: false }));
    assert_eq!(perm_change_steps(VMPerms::rw(), VMPerms::none()), Some(PermChangeSteps { extend: false, accept: true, to_none: true }));
}

#[test]
fn page_fault_decisions() {
    let rw = VMPerms::rw();
    assert_eq!(handle_page_fault(VMPerms::none(), 0, 0x1000, false, false, EPCMemType::UserRegion, false, 0), Err(Errno::EACCES));
    assert_eq!(handle_page_fault(VMPerms::read(), 0, 0x1000, true, false, EPCMemType::UserRegion, false, 0), Err(Errno::EACCES));
    assert_eq!(handle_page_fault(rw, 0x1000, 0x1000, false, false, EPCMemType::UserRegion, false, 0), Err(Errno::EACCES));
    assert_eq!(handle_page_fault(rw, 0, 0x1000, true, true, EPCMemType::UserRegion, false, 0), Ok(PageFaultAction::AlreadyCommitted));
    assert_eq!(handle_page_fault(rw, 0, 0x1000, true, false, EPCMemType::Reserved, false, 0), Err(Errno::EINVAL));
    assert_eq!(handle_page_fault(rw, 0, 0x1000, true, false, EPCMemType::UserRegion, false, 0), Ok(PageFaultAction::CommitOnce));
    assert_eq!(handle_page_fault(rw, 0, 0x1000, true, false, EPCMemType::UserRegion, true, 0), Ok(PageFaultAction::CommitWhole));
    assert_eq!(handle_page_fault(rw, 0, 0x1000, true, false, EPCMemType::UserRegion, false, 3), Ok(PageFaultAction::CommitWhole));
}

#[test]
fn page_chunk_start() {
    assert_eq!(get_page_chunk_start_addr(0x40_1234), 0x40_0000);
    assert_eq!(get_page_chunk_start_addr(0x3f_ffff), 0);
}

#[test]
fn tracker_ranges_follow_commits() {
    let mut t = PageTracker::new_vma_tracker(&r(0x10000, 0x18000), &EPCMemType::UserRegion);
    assert!(t.is_reserved_only());
    assert_eq!(t.get_ranges(true), Vec::<VMRange>::new());
    assert_eq!(t.get_ranges(false), vec![r(0x10000, 0x18000)]);
    t.commit_pages_common(0x11000, 0x2000);
    t.commit_pages_common(0x16000, 0x1000);
    assert!(t.is_partially_committed());
    assert_eq!(t.get_ranges(true), vec![r(0x11000, 0x13000), r(0x16000, 0x17000)]);
    assert_eq!(t.get_ranges(false), vec![r(0x10000, 0x11000), r(0x13000, 0x16000), r(0x17000, 0x18000)]);
    // A fault in the middle of an uncommitted range commits one unit from its page.
    assert_eq!(t.commit_once_for_page_fault(0x13800), vec![r(0x13000, 0x14000)]);
    assert_eq!(t.commit_once_for_page_fault(0x11000), Vec::<VMRange>::new());
    let rest = t.commit_whole();
    assert_eq!(rest, vec![r(0x10000, 0x11000), r(0x13000, 0x16000), r(0x17000, 0x18000)]);
    assert!(t.is_fully_committed());
    assert_eq!(t.get_ranges(true), vec![r(0x10000, 0x18000)]);
    assert_eq!(t.commit_whole(), Vec::<VMRange>::new());
}

#[test]
fn tracker_split_keeps_status() {
    let mut t = PageTracker::new_vma_tracker(&r(0x10000, 0x18000), &EPCMemType::UserRegion);
    t.commit_pages_common(0x12000, 0x2000);
    t.split_for_new_range(&r(0x12000, 0x14000));
    assert_eq!(*t.range(), r(0x12000, 0x14000));
    assert!(t.is_fully_committed());
    let reserved = PageTracker::new_vma_tracker(&r(0x10000, 0x12000), &EPCMemType::Reserved);
    assert!(reserved.is_fully_committed());
}

#[test]
fn global_tracker_feeds_area_tracker() {
    assert_eq!(PageTracker::new_global_tracker(0x1001).err(), Some(Errno::EINVAL));
    let mut g = PageTracker::new_global_tracker(0).unwrap();
    assert_eq!(*g.range(), r(0, PAGE_CHUNK_UNIT));
    g.commit_pages_common(0x3000, 0x2000);
    let mut v = PageTracker::new_vma_tracker(&r(0x2000, 0x6000), &EPCMemType::UserRegion);
    g.set_committed_pages_for_vma_tracker(&mut v);
    assert_eq!(v.get_ranges(true), vec![r(0x3000, 0x5000)]);
    assert!(!v.is_fully_committed());
}

#[test]
fn page_chunks_record_commits() {
    let mut m = PageChunkManager::new(&r(0, 0x1000_0000));
    assert!(!m.is_committed(0x3ff123));
    let mut v = PageTracker::new_vma_tracker(&r(0x3ff000, 0x402000), &EPCMemType::UserRegion);
    assert_eq!(m.get_committed_pages_from_global_tracker(&mut v), Ok(()));
    assert_eq!(v.get_ranges(true), Vec::<VMRange>::new());
    m.set_committed_pages_for_global_tracker(0x3ff000, 0x2000);
    assert!(m.is_committed(0x3ff123));
    assert!(m.is_committed(0x400fff));
    assert!(!m.is_committed(0x401000));
    assert!(!m.is_committed(0x800000));
    let mut v2 = PageTracker::new_vma_tracker(&r(0x3fe000, 0x401000), &EPCMemType::UserRegion);
    m.get_committed_pages_from_global_tracker(&mut v2).unwrap();
    assert_eq!(v2.get_ranges(true), vec![r(0x3ff000, 0x401000)]);
    assert!(!v2.is_fully_committed());
    // Committing a whole page chunk makes every page of it read as committed.
    m.set_committed_pages_for_global_tracker(0x400000, 0x400000);
    assert!(m.is_committed(0x7ff000));
    let mut v3 = PageTracker::new_vma_tracker(&r(0x400000, 0x402000), &EPCMemType::UserRegion);
    m.get_committed_pages_from_global_tracker(&mut v3).unwrap();
    assert!(v3.is_fully_committed());
}
