//! Linux error numbers, taken from `axerrno`.

use vstd::prelude::*;

verus! {

/// The Linux errors that the system calls here report.
#[derive(Clone, Copy, Debug, PartialEq, Eq, Structural)]
pub enum Errno {
    /// Bad file number.
    EBADF,
    /// Out of memory.
    ENOMEM,
    /// Invalid system call number.
    ENOSYS,
}

impl Errno {
    /// The error's number in Linux's `errno.h`.
    pub open spec fn code_spec(self) -> i32 {
        match self {
            Errno::EBADF => 9,
            Errno::ENOMEM => 12,
            Errno::ENOSYS => 38,
        }
    }
}

/// The numbers of the errors, as in Linux's `errno.h`: `EBADF` 9, `ENOMEM` 12, `ENOSYS` 38.
pub proof fn lemma_errno_numbers()
    ensures
        Errno::EBADF.code_spec() == 9,
        Errno::ENOMEM.code_spec() == 12,
        Errno::ENOSYS.code_spec() == 38,
{
}

/// `axerrno::LinuxError::code` of the matching `LinuxError` variant. The claim: it returns
/// the variant's number in Linux's `errno.h` (the enum is generated from that file with
/// the numbers as discriminants, and `code` returns the discriminant).
#[verifier::external_body]
fn linux_error_code(e: Errno) -> (r: i32)
    ensures
        r == e.code_spec(),
{
    let err = match e {
        Errno::EBADF => axerrno::LinuxError::EBADF,
        Errno::ENOMEM => axerrno::LinuxError::ENOMEM,
        Errno::ENOSYS => axerrno::LinuxError::ENOSYS,
    };
    err.code()
}

/// The value a system call returns to report `e`: the negated error number.
pub fn syscall_error(e: Errno) -> (r: isize)
    ensures
        r == -(e.code_spec() as int),
{
    let code: i32 = linux_error_code(e);
    -(code as isize)
}

} // verus!
