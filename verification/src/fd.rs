//! File-descriptor operations the wire format needs, done by `nix`.
//!
//! The calls into the kernel stand behind small wrappers; what the library
//! decides between them (when to fall back to a plain duplicate, which flags
//! to set, which descriptor to close again) is in verified step functions.

use vstd::prelude::*;

verus! {

#[verifier::external_type_specification]
#[verifier::external_body]
pub struct ExErrno(nix::errno::Errno);

/// `Errno` is a plain `Copy` enum: its clone is the same value.
pub assume_specification[ <nix::errno::Errno as Clone>::clone ](e: &nix::errno::Errno) -> (r:
    nix::errno::Errno)
    ensures
        r == *e,
;

/// The close-on-exec bit of the descriptor flags (`FD_CLOEXEC`).
pub const FD_CLOEXEC: i32 = 1;

/// `nix::fcntl::fcntl(fd, F_DUPFD_CLOEXEC(0))`: asks the kernel for a copy of
/// `fd` with the close-on-exec flag set. `nix` turns the kernel's `-1` into an
/// error, so a success is never `-1`; which descriptor comes back depends on
/// the state of the process and is not stated.
#[verifier::external_body]
fn fcntl_dupfd_cloexec(fd: i32) -> (r: Result<i32, nix::errno::Errno>)
    ensures
        r matches Ok(n) ==> n != -1,
{
    nix::fcntl::fcntl(fd, nix::fcntl::FcntlArg::F_DUPFD_CLOEXEC(0))
}

/// `nix::fcntl::fcntl(fd, F_DUPFD(0))`: asks the kernel for a copy of `fd`.
/// A success is never `-1` (`nix` makes `-1` an error); which descriptor comes
/// back is not stated.
#[verifier::external_body]
fn fcntl_dupfd(fd: i32) -> (r: Result<i32, nix::errno::Errno>)
    ensures
        r matches Ok(n) ==> n != -1,
{
    nix::fcntl::fcntl(fd, nix::fcntl::FcntlArg::F_DUPFD(0))
}

/// `nix::fcntl::fcntl(fd, F_GETFD)`: reads the descriptor flags of `fd`. A
/// success is never `-1`; the flags themselves are the kernel's and are not
/// stated.
#[verifier::external_body]
fn fcntl_getfd(fd: i32) -> (r: Result<i32, nix::errno::Errno>)
    ensures
        r matches Ok(n) ==> n != -1,
{
    nix::fcntl::fcntl(fd, nix::fcntl::FcntlArg::F_GETFD)
}

/// `nix::fcntl::fcntl(fd, F_SETFD(flags))`: sets the descriptor flags of `fd`.
/// `flags` is no flag or `FD_CLOEXEC`, both known to `nix`'s `FdFlag`, so the
/// conversion keeps every bit. A success is never `-1`; whether the kernel
/// accepts the call is not stated.
#[verifier::external_body]
fn fcntl_setfd(fd: i32, flags: i32) -> (r: Result<i32, nix::errno::Errno>)
    requires
        flags == 0 || flags == FD_CLOEXEC,
    ensures
        r matches Ok(n) ==> n != -1,
{
    nix::fcntl::fcntl(fd, nix::fcntl::FcntlArg::F_SETFD(nix::fcntl::FdFlag::from_bits_truncate(flags)))
}

/// Tells the variant `EINVAL` of `nix`'s `Errno` apart from the others (the
/// error a kernel gives for a `fcntl` command it does not know). The error
/// value is opaque here, so nothing is stated of the answer.
#[verifier::external_body]
fn errno_is_einval(e: &nix::errno::Errno) -> bool {
    *e == nix::errno::Errno::EINVAL
}

/// The error `nix::errno::Errno::EINVAL`, given for descriptor flags that hold
/// bits `nix` does not know.
#[verifier::external_body]
fn einval() -> nix::errno::Errno {
    nix::errno::Errno::EINVAL
}

/// `nix::unistd::close(fd)`, its outcome ignored: there is nothing to do if a
/// descriptor cannot be closed.
#[verifier::external_body]
pub(crate) fn close_fd(fd: i32) {
    let _ = nix::unistd::close(fd);
}

/// What is done after asking for a close-on-exec copy.
pub enum DupStep {
    /// The answer is final.
    Done(Result<i32, nix::errno::Errno>),
    /// The kernel did not know the command: make a plain copy of this
    /// descriptor and set the flag on it.
    DupPlain(i32),
}

/// The step after asking for a close-on-exec copy of `fd`: a copy is the
/// result; `EINVAL` leads to a plain copy of `fd`; any other error is the
/// result.
pub open spec fn dup_step(fd: i32, r: Result<i32, nix::errno::Errno>, einval: bool) -> DupStep {
    match r {
        Ok(n) => DupStep::Done(Ok(n)),
        Err(e) => if einval {
            DupStep::DupPlain(fd)
        } else {
            DupStep::Done(Err(e))
        },
    }
}

/// Decide what follows the close-on-exec copy request on `fd`, given its
/// outcome `r` and whether its error is `EINVAL`.
pub fn after_dupfd_cloexec(fd: i32, r: Result<i32, nix::errno::Errno>, einval: bool) -> (s: DupStep)
    ensures
        s == dup_step(fd, r, einval),
{
    match r {
        Ok(n) => DupStep::Done(Ok(n)),
        Err(e) => if einval {
            DupStep::DupPlain(fd)
        } else {
            DupStep::Done(Err(e))
        },
    }
}

/// What is done after reading the descriptor flags.
pub enum CloexecStep {
    /// Write these flags back.
    SetFlags(i32),
    /// Reading failed with this error.
    Fail(nix::errno::Errno),
    /// The flags hold bits other than close-on-exec.
    UnknownFlags,
}

/// The step after reading the flags of a descriptor: known flags (none, or
/// close-on-exec) are written back with close-on-exec added; other bits stop
/// the work; an error is the result.
pub open spec fn getfd_step(r: Result<i32, nix::errno::Errno>) -> CloexecStep {
    match r {
        Ok(flags) => if flags & !FD_CLOEXEC == 0 {
            CloexecStep::SetFlags(flags | FD_CLOEXEC)
        } else {
            CloexecStep::UnknownFlags
        },
        Err(e) => CloexecStep::Fail(e),
    }
}

/// Decide what follows reading the descriptor flags, given the outcome `r`.
pub fn after_getfd(r: Result<i32, nix::errno::Errno>) -> (s: CloexecStep)
    ensures
        s == getfd_step(r),
        s matches CloexecStep::SetFlags(f) ==> f == FD_CLOEXEC,
{
    match r {
        Ok(flags) => {
            proof {
                assert((flags & !1i32 == 0) <==> (flags == 0 || flags == 1)) by (bit_vector);
                assert((flags == 0 || flags == 1) ==> flags | 1i32 == 1) by (bit_vector);
            }
            if flags == 0 || flags == FD_CLOEXEC {
                CloexecStep::SetFlags(flags | FD_CLOEXEC)
            } else {
                CloexecStep::UnknownFlags
            }
        },
        Err(e) => CloexecStep::Fail(e),
    }
}

/// The step after setting close-on-exec on the copy `newfd`: on success the
/// copy is the result; on failure the copy is to be closed and the error is
/// the result.
pub open spec fn set_step(newfd: i32, r: Result<i32, nix::errno::Errno>) -> (
    Option<i32>,
    Result<i32, nix::errno::Errno>,
) {
    match r {
        Ok(_) => (None, Ok(newfd)),
        Err(e) => (Some(newfd), Err(e)),
    }
}

/// Decide what follows setting close-on-exec on the copy `newfd`, given the
/// outcome `r`: the descriptor to close, if any, and the result.
pub fn after_set_cloexec(newfd: i32, r: Result<i32, nix::errno::Errno>) -> (out: (
    Option<i32>,
    Result<i32, nix::errno::Errno>,
))
    ensures
        out == set_step(newfd, r),
{
    match r {
        Ok(_) => (None, Ok(newfd)),
        Err(e) => (Some(newfd), Err(e)),
    }
}

/// Set the CLOEXEC flag of `fd`, keeping its other flags.
///
/// The flags are read, and written back with close-on-exec added; flags with
/// bits `nix` does not know give `EINVAL`. What the kernel answers is not
/// known here; a success is never `-1`.
pub fn set_cloexec(fd: i32) -> (r: Result<i32, nix::errno::Errno>)
    ensures
        r matches Ok(n) ==> n != -1,
{
    match after_getfd(fcntl_getfd(fd)) {
        CloexecStep::SetFlags(flags) => fcntl_setfd(fd, flags),
        CloexecStep::Fail(e) => Err(e),
        CloexecStep::UnknownFlags => Err(einval()),
    }
}

/// Duplicate a file descriptor and set the CLOEXEC flag on the copy.
///
/// Kernels that do not know `F_DUPFD_CLOEXEC` answer `EINVAL`; the copy is
/// then made with `F_DUPFD` and the flag set afterwards, the copy being closed
/// again if that fails.
///
/// The outcome is the kernel's; the steps `after_dupfd_cloexec`,
/// `after_getfd` and `after_set_cloexec` decide between the calls. A success
/// is never `-1`.
pub fn dup_fd_cloexec(fd: i32) -> (r: Result<i32, nix::errno::Errno>)
    ensures
        r matches Ok(n) ==> n != -1,
{
    let first = fcntl_dupfd_cloexec(fd);
    let einval = match &first {
        Ok(_) => false,
        Err(e) => errno_is_einval(e),
    };
    match after_dupfd_cloexec(fd, first, einval) {
        DupStep::Done(r) => r,
        DupStep::DupPlain(src) => {
            match fcntl_dupfd(src) {
                Err(e) => Err(e),
                Ok(newfd) => {
                    let (to_close, r) = after_set_cloexec(newfd, set_cloexec(newfd));
                    match to_close {
                        Some(c) => close_fd(c),
                        None => {},
                    }
                    r
                },
            }
        },
    }
}

} // verus!
