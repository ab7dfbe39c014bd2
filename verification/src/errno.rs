use vstd::prelude::*;

verus! {

/// The error numbers that the library reports.
#[derive(Clone, Copy, Debug, PartialEq, Eq, Structural)]
pub enum Errno {
    EINVAL,
    ENOMEM,
    EFAULT,
    EAGAIN,
    EBUSY,
    EACCES,
    ESRCH,
    EPIPE,
    ENOSYS,
    EBADF,
    EPERM,
    ECANCELED,
    ERANGE,
}

} // verus!
