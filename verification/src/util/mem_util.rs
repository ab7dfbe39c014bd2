//! Checks that memory handed in by a user process lies inside its user space.
use vstd::prelude::*;
use crate::errno::Errno;
use crate::vm_range::VMRange;

verus! {

/// Whether the `len` bytes at `addr` lie inside `user_range`.
pub open spec fn inside_spec(user_range: VMRange, addr: int, len: int) -> bool {
    addr >= user_range.start && addr < user_range.end && user_range.end - addr >= len
}

/// Whether the `len` bytes at `addr` lie inside the user space `user_range`.
pub fn is_inside_user_space(user_range: &VMRange, addr: usize, len: usize) -> (r: bool)
    ensures
        r == inside_spec(*user_range, addr as int, len as int),
{
    let ur_start = user_range.start();
    let ur_end = user_range.end();
    addr >= ur_start && addr < ur_end && ur_end - addr >= len
}

/// An object of `size` bytes at `addr` must lie in the user space.
pub fn check_ptr(user_range: &VMRange, addr: usize, size: usize) -> (r: Result<(), Errno>)
    ensures
        r is Ok <==> inside_spec(*user_range, addr as int, size as int),
        r is Err ==> r == Err::<(), Errno>(Errno::EFAULT),
{
    if !is_inside_user_space(user_range, addr, size) {
        return Err(Errno::EFAULT);
    }
    Ok(())
}

/// The user space is both readable and writable, so a mutable object is checked the same way.
pub fn check_mut_ptr(user_range: &VMRange, addr: usize, size: usize) -> (r: Result<(), Errno>)
    ensures
        r is Ok <==> inside_spec(*user_range, addr as int, size as int),
        r is Err ==> r == Err::<(), Errno>(Errno::EFAULT),
{
    check_ptr(user_range, addr, size)
}

/// An array of `count` objects of `size` bytes at `addr` must lie in the user space; a length
/// that overflows is refused with `EINVAL`.
pub fn check_array(user_range: &VMRange, addr: usize, count: usize, size: usize) -> (r: Result<(), Errno>)
    ensures
        count * size > usize::MAX ==> r == Err::<(), Errno>(Errno::EINVAL),
        count * size <= usize::MAX ==> (r is Ok <==> inside_spec(*user_range, addr as int, count * size)),
        count * size <= usize::MAX && r is Err ==> r == Err::<(), Errno>(Errno::EFAULT),
{
    let checked_len = match count.checked_mul(size) {
        Some(l) => l,
        None => return Err(Errno::EINVAL),
    };
    if !is_inside_user_space(user_range, addr, checked_len) {
        return Err(Errno::EFAULT);
    }
    Ok(())
}

/// A mutable array is checked the same way as a readonly one.
pub fn check_mut_array(user_range: &VMRange, addr: usize, count: usize, size: usize) -> (r: Result<(), Errno>)
    ensures
        count * size > usize::MAX ==> r == Err::<(), Errno>(Errno::EINVAL),
        count * size <= usize::MAX ==> (r is Ok <==> inside_spec(*user_range, addr as int, count * size)),
        count * size <= usize::MAX && r is Err ==> r == Err::<(), Errno>(Errno::EFAULT),
{
    check_array(user_range, addr, count, size)
}

} // verus!
