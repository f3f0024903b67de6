//! Failures, as the errors that a file system answers with.

use vstd::prelude::*;

verus! {

/// `std::io::ErrorKind`, with its variants.
#[verifier::external_type_specification]
pub struct ExErrorKind(std::io::ErrorKind);

/// An error of the file system, named as the error numbers of the system
/// are.
#[derive(Clone, Copy, Debug, PartialEq, Eq, Hash, Structural)]
pub enum Errno {
    /// No such entry.
    ENOENT,
    /// Permission denied.
    EACCES,
    /// Connection refused.
    ECONNREFUSED,
    /// Connection reset.
    ECONNRESET,
    /// Connection aborted.
    ECONNABORTED,
    /// Not connected.
    ENOTCONN,
    /// Address in use.
    EADDRINUSE,
    /// Address not available.
    EADDRNOTAVAIL,
    /// Broken pipe.
    EPIPE,
    /// The entry exists.
    EEXIST,
    /// Try again.
    EAGAIN,
    /// Invalid argument.
    EINVAL,
    /// Timed out.
    ETIMEDOUT,
    /// Interrupted.
    EINTR,
    /// Input or output failed.
    EIO,
    /// Not a directory.
    ENOTDIR,
    /// A lock could not be taken.
    EDEADLK,
}

/// The error that stands for a kind of I/O failure.
pub open spec fn error_of(kind: std::io::ErrorKind) -> Errno {
    match kind {
        std::io::ErrorKind::NotFound => Errno::ENOENT,
        std::io::ErrorKind::PermissionDenied => Errno::EACCES,
        std::io::ErrorKind::ConnectionRefused => Errno::ECONNREFUSED,
        std::io::ErrorKind::ConnectionReset => Errno::ECONNRESET,
        std::io::ErrorKind::ConnectionAborted => Errno::ECONNABORTED,
        std::io::ErrorKind::NotConnected => Errno::ENOTCONN,
        std::io::ErrorKind::AddrInUse => Errno::EADDRINUSE,
        std::io::ErrorKind::AddrNotAvailable => Errno::EADDRNOTAVAIL,
        std::io::ErrorKind::BrokenPipe => Errno::EPIPE,
        std::io::ErrorKind::AlreadyExists => Errno::EEXIST,
        std::io::ErrorKind::WouldBlock => Errno::EAGAIN,
        std::io::ErrorKind::InvalidInput => Errno::EINVAL,
        std::io::ErrorKind::InvalidData => Errno::EINVAL,
        std::io::ErrorKind::TimedOut => Errno::ETIMEDOUT,
        std::io::ErrorKind::Interrupted => Errno::EINTR,
        _ => Errno::EIO,
    }
}

/// Maps a kind of I/O failure to the error that the file system answers
/// with.
pub fn map_error(kind: std::io::ErrorKind) -> (r: Errno)
    ensures
        r == error_of(kind),
{
    match kind {
        std::io::ErrorKind::NotFound => Errno::ENOENT,
        std::io::ErrorKind::PermissionDenied => Errno::EACCES,
        std::io::ErrorKind::ConnectionRefused => Errno::ECONNREFUSED,
        std::io::ErrorKind::ConnectionReset => Errno::ECONNRESET,
        std::io::ErrorKind::ConnectionAborted => Errno::ECONNABORTED,
        std::io::ErrorKind::NotConnected => Errno::ENOTCONN,
        std::io::ErrorKind::AddrInUse => Errno::EADDRINUSE,
        std::io::ErrorKind::AddrNotAvailable => Errno::EADDRNOTAVAIL,
        std::io::ErrorKind::BrokenPipe => Errno::EPIPE,
        std::io::ErrorKind::AlreadyExists => Errno::EEXIST,
        std::io::ErrorKind::WouldBlock => Errno::EAGAIN,
        std::io::ErrorKind::InvalidInput => Errno::EINVAL,
        std::io::ErrorKind::InvalidData => Errno::EINVAL,
        std::io::ErrorKind::TimedOut => Errno::ETIMEDOUT,
        std::io::ErrorKind::Interrupted => Errno::EINTR,
        _ => Errno::EIO,
    }
}

} // verus!
