//! The bump allocation of slices from a fixed-size untrusted buffer.
use vstd::prelude::*;
use crate::errno::Errno;

verus! {

/// Claim `new_slice_len` bytes of a buffer of `buf_size` bytes whose next free position is
/// `buf_pos`: the slice starts at `buf_pos` and the next free position moves past it, when the
/// buffer has room; otherwise `ENOMEM` and nothing moves.
pub fn claim_slice(buf_pos: usize, new_slice_len: usize, buf_size: usize) -> (r: Result<(usize, usize), Errno>)
    ensures
        buf_pos + new_slice_len <= buf_size ==> r == Ok::<(usize, usize), Errno>((buf_pos, (buf_pos + new_slice_len) as usize)),
        buf_pos + new_slice_len > buf_size ==> r == Err::<(usize, usize), Errno>(Errno::ENOMEM),
{
    match buf_pos.checked_add(new_slice_len) {
        Some(new_pos) => {
            if new_pos <= buf_size {
                Ok((buf_pos, new_pos))
            } else {
                Err(Errno::ENOMEM)
            }
        },
        None => Err(Errno::ENOMEM),
    }
}

} // verus!
