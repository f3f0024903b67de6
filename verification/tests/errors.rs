use medifs::errors::{map_error, Errno};
use std::io::ErrorKind;

#[test]
fn io_errors_map_to_error_numbers() {
    assert_eq!(Errno::ENOENT, map_error(ErrorKind::NotFound));
    assert_eq!(Errno::EACCES, map_error(ErrorKind::PermissionDenied));
    assert_eq!(Errno::ECONNREFUSED, map_error(ErrorKind::ConnectionRefused));
    assert_eq!(Errno::ECONNRESET, map_error(ErrorKind::ConnectionReset));
    assert_eq!(Errno::ECONNABORTED, map_error(ErrorKind::ConnectionAborted));
    assert_eq!(Errno::ENOTCONN, map_error(ErrorKind::NotConnected));
    assert_eq!(Errno::EADDRINUSE, map_error(ErrorKind::AddrInUse));
    assert_eq!(Errno::EADDRNOTAVAIL, map_error(ErrorKind::AddrNotAvailable));
    assert_eq!(Errno::EPIPE, map_error(ErrorKind::BrokenPipe));
    assert_eq!(Errno::EEXIST, map_error(ErrorKind::AlreadyExists));
    assert_eq!(Errno::EAGAIN, map_error(ErrorKind::WouldBlock));
    assert_eq!(Errno::EINVAL, map_error(ErrorKind::InvalidInput));
    assert_eq!(Errno::EINVAL, map_error(ErrorKind::InvalidData));
    assert_eq!(Errno::ETIMEDOUT, map_error(ErrorKind::TimedOut));
    assert_eq!(Errno::EINTR, map_error(ErrorKind::Interrupted));
    assert_eq!(Errno::EIO, map_error(ErrorKind::Other));
    assert_eq!(Errno::EIO, map_error(ErrorKind::UnexpectedEof));
    assert_eq!(Errno::EIO, map_error(ErrorKind::WriteZero));
}
