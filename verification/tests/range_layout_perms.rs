use occlum::vm_layout::VMLayout;
use occlum::vm_perms::{VMPerms, VM_PERM_DEFAULT, VM_PERM_EXEC, VM_PERM_GROWSDOWN, VM_PERM_READ, VM_PERM_WRITE};
use occlum::vm_range::{align_down, align_up, VMRange, PAGE_SIZE};
use occlum::Errno;

fn r(start: usize, end: usize) -> VMRange {
    VMRange { start, end }
}

#[test]
fn align_up_and_down_values() {
    assert_eq!(align_up(0, 4096), 0);
    assert_eq!(align_up(1, 4096), 4096);
    assert_eq!(align_up(4096, 4096), 4096);
    assert_eq!(align_up(4097, 16), 4112);
    assert_eq!(align_down(4097, 4096), 4096);
    assert_eq!(align_down(4095, 4096), 0);
    assert_eq!(align_down(8192, 4096), 8192);
}

#[test]
fn range_new_checks_alignment_and_order() {
    assert_eq!(VMRange::new(0x1000, 0x3000), Ok(r(0x1000, 0x3000)));
    assert_eq!(VMRange::new(0x1001, 0x3000), Err(Errno::EINVAL));
    assert_eq!(VMRange::new(0x1000, 0x3001), Err(Errno::EINVAL));
    assert_eq!(VMRange::new(0x3000, 0x1000), Err(Errno::EINVAL));
    assert_eq!(VMRange::new_empty(0x2000), Ok(r(0x2000, 0x2000)));
    assert_eq!(VMRange::new_empty(0x2001), Err(Errno::EINVAL));
    assert_eq!(VMRange::new_with_size(0x2000, 0x1000), Ok(r(0x2000, 0x3000)));
    assert_eq!(VMRange::new_with_size(0x2000, 0x10), Err(Errno::EINVAL));
}

#[test]
fn range_queries() {
    let a = r(0x1000, 0x4000);
    assert_eq!(a.size(), 0x3000);
    assert!(a.contains(0x1000));
    assert!(!a.contains(0x4000));
    assert!(a.is_superset_of(&r(0x2000, 0x3000)));
    assert!(!a.is_superset_of(&r(0x2000, 0x5000)));
    assert!(a.overlap_with(&r(0x3000, 0x5000)));
    assert!(!a.overlap_with(&r(0x4000, 0x5000)));
    assert!(a.is_contiguous_with(&r(0x4000, 0x5000)));
    assert!(a.is_contiguous_with(&r(0x0, 0x1000)));
    assert!(!a.is_contiguous_with(&r(0x5000, 0x6000)));
    assert!(r(0x1000, 0x1000).empty());
}

#[test]
fn range_subtract_gives_outer_parts() {
    let a = r(0x1000, 0x5000);
    assert_eq!(a.subtract(&r(0x2000, 0x3000)), vec![r(0x1000, 0x2000), r(0x3000, 0x5000)]);
    assert_eq!(a.subtract(&r(0x0, 0x2000)), vec![r(0x2000, 0x5000)]);
    assert_eq!(a.subtract(&r(0x4000, 0x9000)), vec![r(0x1000, 0x4000)]);
    assert_eq!(a.subtract(&r(0x0, 0x9000)), Vec::<VMRange>::new());
    assert_eq!(a.subtract(&r(0x8000, 0x9000)), vec![r(0x1000, 0x5000)]);
}

#[test]
fn range_intersect() {
    let a = r(0x1000, 0x5000);
    assert_eq!(a.intersect(&r(0x3000, 0x8000)), Some(r(0x3000, 0x5000)));
    assert_eq!(a.intersect(&r(0x5000, 0x8000)), Some(r(0x5000, 0x5000)));
    assert_eq!(a.intersect(&r(0x6000, 0x8000)), None);
}

#[test]
fn range_setters() {
    let mut a = r(0x1000, 0x2000);
    a.resize(0x3000);
    assert_eq!(a, r(0x1000, 0x4000));
    a.set_start(0x2000);
    a.set_end(0x6000);
    assert_eq!(a, r(0x2000, 0x6000));
}

#[test]
fn layout_add_and_extend() {
    let mut l = VMLayout::new_empty();
    assert_eq!(l.get_size(), 0);
    assert_eq!(l.get_align(), PAGE_SIZE);
    let code = VMLayout::new(0x1234, 16).unwrap();
    l.add(&code);
    assert_eq!(l.get_size(), 0x1234);
    assert_eq!(l.get_align(), PAGE_SIZE);
    let heap = VMLayout::new(0x1000, 0x2000).unwrap();
    l.add(&heap);
    assert_eq!(l.get_size(), 0x2000 + 0x1000);
    assert_eq!(l.get_align(), 0x2000);
    let mut m = VMLayout::new(0x100, 16).unwrap();
    m.extend(&VMLayout::new(0x300, 0x100).unwrap());
    assert_eq!(m.get_size(), 0x300);
    assert_eq!(m.get_align(), 0x100);
    assert_eq!(VMLayout::new(0x100, 3), Err(Errno::EINVAL));
}

#[test]
fn layout_extend_twice_is_once() {
    let n = VMLayout::new(0x1234, 0x1000).unwrap();
    let mut once = VMLayout::new(0x100, 16).unwrap();
    once.extend(&n);
    assert_eq!(once.get_size(), 0x2000);
    assert_eq!(once.get_align(), 0x1000);
    let mut twice = once;
    twice.extend(&n);
    assert_eq!(twice, once);
}

#[test]
fn range_with_layout_is_page_rounded() {
    let l = VMLayout::new(0x1800, 0x2000).unwrap();
    let v = VMRange::new_with_layout(&l, 0x1001);
    assert_eq!(v, r(0x2000, 0x4000));
}

#[test]
fn perms_from_bits_implies_read() {
    assert_eq!(VMPerms::from_u32(0).unwrap().bits(), 0);
    assert_eq!(VMPerms::from_u32(VM_PERM_WRITE).unwrap().bits(), VM_PERM_WRITE | VM_PERM_READ);
    assert_eq!(VMPerms::from_u32(VM_PERM_EXEC | VM_PERM_GROWSDOWN).unwrap().bits(), VM_PERM_EXEC | VM_PERM_GROWSDOWN | VM_PERM_READ);
    assert_eq!(VMPerms::from_u32(0x8), Err(Errno::EINVAL));
}

#[test]
fn perms_bit_operations() {
    let mut p = VMPerms::rw();
    assert!(p.is_default());
    assert_eq!(p.bits(), VM_PERM_DEFAULT);
    assert!(p.can_read() && p.can_write() && !p.can_execute());
    p.insert(VMPerms::exec());
    assert!(p.contains(VMPerms::all()));
    p.remove(VMPerms::write());
    assert_eq!(p.bits(), VM_PERM_READ | VM_PERM_EXEC);
    assert_eq!(p.display(), "r-x");
    assert_eq!(VMPerms::none().display(), "---");
    assert_eq!(VMPerms::default().bits(), VM_PERM_DEFAULT);
}
