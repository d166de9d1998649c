use wayland_commons::syscalls::{
    after_flush, after_memfd, after_shm_open, read_outcome_kept, ErrorKind, FlushStep, MemfdStep, ShmOpenStep,
};

#[test]
fn flush_outcomes() {
    assert_eq!(after_flush(Ok(())), FlushStep::Flushed);
    assert_eq!(after_flush(Err(ErrorKind::WouldBlock)), FlushStep::WaitWritable);
    // a closed connection is still read, for the protocol error it may carry
    assert_eq!(after_flush(Err(ErrorKind::BrokenPipe)), FlushStep::ReadAnyway);
    assert_eq!(after_flush(Err(ErrorKind::Interrupted)), FlushStep::Fail);
    assert_eq!(after_flush(Err(ErrorKind::Other)), FlushStep::Fail);
}

#[test]
fn read_outcomes() {
    assert!(read_outcome_kept(Ok(())));
    assert!(read_outcome_kept(Err(ErrorKind::WouldBlock)));
    assert!(!read_outcome_kept(Err(ErrorKind::BrokenPipe)));
    assert!(!read_outcome_kept(Err(ErrorKind::Other)));
}

#[test]
fn memfd_outcomes() {
    assert_eq!(after_memfd(Ok(5)), MemfdStep::Done(5));
    assert_eq!(after_memfd(Err(ErrorKind::Interrupted)), MemfdStep::Retry);
    assert_eq!(after_memfd(Err(ErrorKind::NotSupported)), MemfdStep::FallBack);
    assert_eq!(after_memfd(Err(ErrorKind::Exists)), MemfdStep::Fail);
}

#[test]
fn shm_open_outcomes() {
    assert_eq!(after_shm_open(Ok(6)), ShmOpenStep::Unlink(6));
    assert_eq!(after_shm_open(Err(ErrorKind::Exists)), ShmOpenStep::NewName);
    assert_eq!(after_shm_open(Err(ErrorKind::Interrupted)), ShmOpenStep::Retry);
    assert_eq!(after_shm_open(Err(ErrorKind::NotSupported)), ShmOpenStep::Fail);
}
