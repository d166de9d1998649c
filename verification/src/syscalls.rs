//! What is done after a system call, in the blocking dispatch of a
//! connection and in the creation of the shared memory of cursor images:
//! retry, wait, fall back, go on, or give up with the call's error.
//!
//! The calls themselves (flushing and polling the socket, `memfd_create`,
//! `shm_open`) are made by the caller, which hands over the kind of error
//! each one gave.

use vstd::prelude::*;

verus! {

/// The kinds of system errors these decisions tell apart.
#[derive(Debug, Clone, Copy, PartialEq, Eq, Structural)]
pub enum ErrorKind {
    /// `EINTR`: the call was interrupted by a signal.
    Interrupted,
    /// `EAGAIN`: the call would have blocked.
    WouldBlock,
    /// `EPIPE`: the other end of the socket is closed.
    BrokenPipe,
    /// `ENOSYS`: the system does not have the call.
    NotSupported,
    /// `EEXIST`: the name is taken.
    Exists,
    /// Any other error.
    Other,
}

/// What follows an attempt to flush the outgoing messages.
#[derive(Debug, Clone, Copy, PartialEq, Eq, Structural)]
pub enum FlushStep {
    /// All was sent: wait for incoming events.
    Flushed,
    /// The socket is full: wait until it can be written, then flush again.
    WaitWritable,
    /// The server closed the connection: still read, to get the protocol
    /// error it may have sent.
    ReadAnyway,
    /// Give up with the error.
    Fail,
}

/// The step after flushing, given its outcome.
pub open spec fn flush_step(r: Result<(), ErrorKind>) -> FlushStep {
    match r {
        Ok(()) => FlushStep::Flushed,
        Err(ErrorKind::WouldBlock) => FlushStep::WaitWritable,
        Err(ErrorKind::BrokenPipe) => FlushStep::ReadAnyway,
        Err(_) => FlushStep::Fail,
    }
}

/// Decide what follows a flush of the connection, given its outcome.
pub fn after_flush(r: Result<(), ErrorKind>) -> (s: FlushStep)
    ensures
        s == flush_step(r),
{
    match r {
        Ok(()) => FlushStep::Flushed,
        Err(ErrorKind::WouldBlock) => FlushStep::WaitWritable,
        Err(ErrorKind::BrokenPipe) => FlushStep::ReadAnyway,
        Err(_) => FlushStep::Fail,
    }
}

/// Whether a blocking dispatch answers with the outcome of dispatching the
/// events, after reading gave `r`: yes when the read succeeded, or would
/// have blocked (another reader took the events first); otherwise it
/// answers with the read's error.
pub fn read_outcome_kept(r: Result<(), ErrorKind>) -> (keep: bool)
    ensures
        keep == (r is Ok || r == Err::<(), ErrorKind>(ErrorKind::WouldBlock)),
{
    match r {
        Ok(()) => true,
        Err(ErrorKind::WouldBlock) => true,
        Err(_) => false,
    }
}

/// What follows an attempt to create an anonymous memory file.
#[derive(Debug, Clone, Copy, PartialEq, Eq, Structural)]
pub enum MemfdStep {
    /// The file of this descriptor is the result.
    Done(i32),
    /// Interrupted: try again.
    Retry,
    /// The system has no such call: use a named shared memory object.
    FallBack,
    /// Give up with the error.
    Fail,
}

/// The step after `memfd_create`, given its outcome.
pub open spec fn memfd_step(r: Result<i32, ErrorKind>) -> MemfdStep {
    match r {
        Ok(fd) => MemfdStep::Done(fd),
        Err(ErrorKind::Interrupted) => MemfdStep::Retry,
        Err(ErrorKind::NotSupported) => MemfdStep::FallBack,
        Err(_) => MemfdStep::Fail,
    }
}

/// Decide what follows `memfd_create`, given its outcome.
pub fn after_memfd(r: Result<i32, ErrorKind>) -> (s: MemfdStep)
    ensures
        s == memfd_step(r),
{
    match r {
        Ok(fd) => MemfdStep::Done(fd),
        Err(ErrorKind::Interrupted) => MemfdStep::Retry,
        Err(ErrorKind::NotSupported) => MemfdStep::FallBack,
        Err(_) => MemfdStep::Fail,
    }
}

/// What follows an attempt to open a new named shared memory object.
#[derive(Debug, Clone, Copy, PartialEq, Eq, Structural)]
pub enum ShmOpenStep {
    /// The object of this descriptor was made: unlink its name, and it is
    /// the result (or, if that fails, close it and give up).
    Unlink(i32),
    /// The name is taken: try again under a new name.
    NewName,
    /// Interrupted: try again with the same name.
    Retry,
    /// Give up with the error.
    Fail,
}

/// The step after `shm_open`, given its outcome.
pub open spec fn shm_open_step(r: Result<i32, ErrorKind>) -> ShmOpenStep {
    match r {
        Ok(fd) => ShmOpenStep::Unlink(fd),
        Err(ErrorKind::Exists) => ShmOpenStep::NewName,
        Err(ErrorKind::Interrupted) => ShmOpenStep::Retry,
        Err(_) => ShmOpenStep::Fail,
    }
}

/// Decide what follows `shm_open`, given its outcome.
pub fn after_shm_open(r: Result<i32, ErrorKind>) -> (s: ShmOpenStep)
    ensures
        s == shm_open_step(r),
{
    match r {
        Ok(fd) => ShmOpenStep::Unlink(fd),
        Err(ErrorKind::Exists) => ShmOpenStep::NewName,
        Err(ErrorKind::Interrupted) => ShmOpenStep::Retry,
        Err(_) => ShmOpenStep::Fail,
    }
}

} // verus!
