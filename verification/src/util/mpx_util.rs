//! Memory protection extensions: the bound registers and the checks before setting them.
use vstd::prelude::*;
use crate::errno::Errno;

verus! {

/// A bound register.
#[derive(Clone, Copy, Debug, PartialEq, Eq, Structural)]
pub enum MpxReg {
    BND0,
    BND1,
    BND2,
    BND3,
}

/// Check a bound of `size` bytes from `base` before it is set in a register: its upper bound
/// must not overflow.
pub fn mpx_bndmk(bndreg: MpxReg, base: usize, size: usize) -> (r: Result<(MpxReg, usize, usize), Errno>)
    ensures
        base + size > usize::MAX ==> r == Err::<(MpxReg, usize, usize), Errno>(Errno::ERANGE),
        base + size <= usize::MAX ==> r == Ok::<(MpxReg, usize, usize), Errno>((bndreg, base, size)),
{
    if base.checked_add(size).is_none() {
        return Err(Errno::ERANGE);
    }
    Ok((bndreg, base, size))
}

} // verus!
