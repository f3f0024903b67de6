//! The directory that the file system is mounted on.

use vstd::prelude::*;

verus! {

/// A directory that the file system can be mounted on: one that is there,
/// can be read and is empty.
#[derive(Clone, Debug, PartialEq, Eq)]
pub struct MountPoint(pub String);

/// Why a path is no mount point.
#[derive(Clone, Copy, Debug, PartialEq, Eq, Structural)]
pub enum MountPointError {
    NotADirectory,
    NotEmpty,
    Unreadable,
}

/// What is wrong with a path that is to be a mount point, given whether it
/// is a directory and how many entries it holds (`None`: it cannot be
/// read); `None` where nothing is wrong.
pub open spec fn mount_point_fault(is_dir: bool, entries: Option<usize>) -> Option<
    MountPointError,
> {
    if !is_dir {
        Some(MountPointError::NotADirectory)
    } else {
        match entries {
            Some(count) => if count == 0 {
                None
            } else {
                Some(MountPointError::NotEmpty)
            },
            None => Some(MountPointError::Unreadable),
        }
    }
}

/// What is said of a path that is no mount point.
pub open spec fn fault_text(fault: MountPointError, source: Seq<char>) -> Seq<char> {
    match fault {
        MountPointError::NotADirectory => source + " is not a directory"@,
        MountPointError::NotEmpty => source + " is not an empty directory"@,
        MountPointError::Unreadable => "failed to read "@ + source,
    }
}

impl MountPointError {
    /// What is said of `source` for this fault.
    pub fn message(&self, source: &str) -> (r: String)
        ensures
            r@ == fault_text(*self, source@),
    {
        match self {
            MountPointError::NotADirectory => String::from_str(source).concat(
                " is not a directory",
            ),
            MountPointError::NotEmpty => String::from_str(source).concat(
                " is not an empty directory",
            ),
            MountPointError::Unreadable => String::from_str("failed to read ").concat(source),
        }
    }
}

impl MountPoint {
    /// The mount point at a path, given whether the path is a directory
    /// and how many entries it holds (`None`: it cannot be read); or what
    /// is said of the path where it is no mount point.
    pub fn from_str(source: &str, is_dir: bool, entries: Option<usize>) -> (r: Result<
        MountPoint,
        String,
    >)
        ensures
            r is Ok == mount_point_fault(is_dir, entries) is None,
            r is Ok ==> r.unwrap().0@ == source@,
            r is Err ==> r.unwrap_err()@ == fault_text(
                mount_point_fault(is_dir, entries).unwrap(),
                source@,
            ),
    {
        if !is_dir {
            Err(MountPointError::NotADirectory.message(source))
        } else if let Some(count) = entries {
            if count == 0 {
                Ok(MountPoint(String::from_str(source)))
            } else {
                Err(MountPointError::NotEmpty.message(source))
            }
        } else {
            Err(MountPointError::Unreadable.message(source))
        }
    }

    /// The path of the mount point.
    pub fn as_str(&self) -> (r: &str)
        ensures
            r@ == self.0@,
    {
        self.0.as_str()
    }
}

} // verus!
