//! The system call numbers that the kernel serves, and the dispatch decision.

use vstd::prelude::*;
use crate::errno::{Errno, syscall_error};

verus! {

/// `ioctl`.
pub const SYS_IOCTL: usize = 29;
/// `openat`.
pub const SYS_OPENAT: usize = 56;
/// `close`.
pub const SYS_CLOSE: usize = 57;
/// `read`.
pub const SYS_READ: usize = 63;
/// `write`.
pub const SYS_WRITE: usize = 64;
/// `writev`.
pub const SYS_WRITEV: usize = 66;
/// `exit`.
pub const SYS_EXIT: usize = 93;
/// `exit_group`.
pub const SYS_EXIT_GROUP: usize = 94;
/// `set_tid_address`.
pub const SYS_SET_TID_ADDRESS: usize = 96;
/// `mmap`.
pub const SYS_MMAP: usize = 222;

/// The directory descriptor that stands for the current working directory.
pub const AT_FDCWD: i32 = -100;

/// The system calls served, and the rest.
#[derive(Clone, Copy, Debug, PartialEq, Eq, Structural)]
pub enum Syscall {
    Ioctl,
    Openat,
    Close,
    Read,
    Write,
    Writev,
    Exit,
    ExitGroup,
    SetTidAddress,
    Mmap,
    /// A number that is not served.
    Unimplemented,
}

/// The system call with number `num`.
pub open spec fn syscall_of(num: usize) -> Syscall {
    if num == SYS_IOCTL {
        Syscall::Ioctl
    } else if num == SYS_SET_TID_ADDRESS {
        Syscall::SetTidAddress
    } else if num == SYS_OPENAT {
        Syscall::Openat
    } else if num == SYS_CLOSE {
        Syscall::Close
    } else if num == SYS_READ {
        Syscall::Read
    } else if num == SYS_WRITE {
        Syscall::Write
    } else if num == SYS_WRITEV {
        Syscall::Writev
    } else if num == SYS_EXIT_GROUP {
        Syscall::ExitGroup
    } else if num == SYS_EXIT {
        Syscall::Exit
    } else if num == SYS_MMAP {
        Syscall::Mmap
    } else {
        Syscall::Unimplemented
    }
}

/// Which system call the trap handler serves for number `num`.
pub fn classify_syscall(num: usize) -> (r: Syscall)
    ensures
        r == syscall_of(num),
{
    match num {
        SYS_IOCTL => Syscall::Ioctl,
        SYS_SET_TID_ADDRESS => Syscall::SetTidAddress,
        SYS_OPENAT => Syscall::Openat,
        SYS_CLOSE => Syscall::Close,
        SYS_READ => Syscall::Read,
        SYS_WRITE => Syscall::Write,
        SYS_WRITEV => Syscall::Writev,
        SYS_EXIT_GROUP => Syscall::ExitGroup,
        SYS_EXIT => Syscall::Exit,
        SYS_MMAP => Syscall::Mmap,
        _ => Syscall::Unimplemented,
    }
}

/// The number of each system call served, and every other number unserved: `ioctl` 29,
/// `openat` 56, `close` 57, `read` 63, `write` 64, `writev` 66, `exit` 93, `exit_group` 94,
/// `set_tid_address` 96, `mmap` 222.
pub proof fn lemma_syscall_numbers(num: usize)
    ensures
        (syscall_of(num) == Syscall::Ioctl) == (num == 29),
        (syscall_of(num) == Syscall::Openat) == (num == 56),
        (syscall_of(num) == Syscall::Close) == (num == 57),
        (syscall_of(num) == Syscall::Read) == (num == 63),
        (syscall_of(num) == Syscall::Write) == (num == 64),
        (syscall_of(num) == Syscall::Writev) == (num == 66),
        (syscall_of(num) == Syscall::Exit) == (num == 93),
        (syscall_of(num) == Syscall::ExitGroup) == (num == 94),
        (syscall_of(num) == Syscall::SetTidAddress) == (num == 96),
        (syscall_of(num) == Syscall::Mmap) == (num == 222),
        (syscall_of(num) == Syscall::Unimplemented) == !(num == 29 || num == 56 || num == 57
            || num == 63 || num == 64 || num == 66 || num == 93 || num == 94 || num == 96 || num
            == 222),
{
}

/// What the trap handler returns for a number it does not serve: `-ENOSYS`.
pub fn unimplemented_syscall() -> (r: isize)
    ensures
        r == -(Errno::ENOSYS.code_spec() as int),
{
    syscall_error(Errno::ENOSYS)
}

/// Whether `openat` accepts the directory descriptor: only the current working directory.
pub fn openat_dirfd_supported(dfd: i32) -> (r: bool)
    ensures
        r == (dfd == AT_FDCWD),
{
    dfd == AT_FDCWD
}

} // verus!
