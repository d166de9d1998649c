use wayland_commons::backend::{InvalidId, NoWaylandLib};
use nix::errno::Errno;
use wayland_commons::fd::{
    after_dupfd_cloexec, after_getfd, after_set_cloexec, dup_fd_cloexec, set_cloexec, CloexecStep, DupStep,
    FD_CLOEXEC,
};

#[test]
fn backend_error_messages() {
    assert_eq!(InvalidId.message(), "Invalid ObjectId");
    assert_eq!(NoWaylandLib.message(), "could not load libwayland-client.so");
}

#[test]
fn dup_gives_a_new_descriptor() {
    let fd = dup_fd_cloexec(2).unwrap();
    assert!(fd > 2);
    let flags = nix::fcntl::fcntl(fd, nix::fcntl::FcntlArg::F_GETFD).unwrap();
    assert!(flags & nix::libc::FD_CLOEXEC != 0);
    nix::unistd::close(fd).unwrap();
    assert!(dup_fd_cloexec(-1).is_err());
}

#[test]
fn dup_step_keeps_a_copy() {
    let s = after_dupfd_cloexec(4, Ok(9), false);
    assert!(matches!(s, DupStep::Done(Ok(9))));
}

#[test]
fn dup_step_falls_back_on_einval() {
    let s = after_dupfd_cloexec(4, Err(Errno::EINVAL), true);
    assert!(matches!(s, DupStep::DupPlain(4)));
}

#[test]
fn dup_step_gives_other_errors() {
    let s = after_dupfd_cloexec(4, Err(Errno::EBADF), false);
    assert!(matches!(s, DupStep::Done(Err(Errno::EBADF))));
}

#[test]
fn getfd_step_adds_cloexec() {
    assert!(matches!(after_getfd(Ok(0)), CloexecStep::SetFlags(1)));
    assert!(matches!(after_getfd(Ok(FD_CLOEXEC)), CloexecStep::SetFlags(1)));
    assert!(matches!(after_getfd(Ok(2)), CloexecStep::UnknownFlags));
    assert!(matches!(after_getfd(Ok(3)), CloexecStep::UnknownFlags));
    assert!(matches!(after_getfd(Err(Errno::EBADF)), CloexecStep::Fail(Errno::EBADF)));
}

#[test]
fn set_step_closes_on_failure() {
    assert_eq!(after_set_cloexec(7, Ok(0)), (None, Ok(7)));
    assert_eq!(after_set_cloexec(7, Err(Errno::EBADF)), (Some(7), Err(Errno::EBADF)));
}

#[test]
fn set_cloexec_sets_the_flag() {
    let fd = nix::fcntl::fcntl(2, nix::fcntl::FcntlArg::F_DUPFD(0)).unwrap();
    assert!(set_cloexec(fd).is_ok());
    let flags = nix::fcntl::fcntl(fd, nix::fcntl::FcntlArg::F_GETFD).unwrap();
    assert!(flags & nix::libc::FD_CLOEXEC != 0);
    nix::unistd::close(fd).unwrap();
    assert_eq!(set_cloexec(-1), Err(Errno::EBADF));
}
