use medifs::mount_point::{MountPoint, MountPointError};

#[test]
fn mount_point_must_be_an_empty_readable_directory() {
    assert_eq!(Ok(MountPoint(String::from("/mnt"))), MountPoint::from_str("/mnt", true, Some(0)));
    assert_eq!("/mnt", MountPoint::from_str("/mnt", true, Some(0)).unwrap().as_str());
    assert_eq!(
        Err(String::from("/mnt is not a directory")),
        MountPoint::from_str("/mnt", false, Some(0)),
    );
    assert_eq!(
        Err(String::from("/mnt is not a directory")),
        MountPoint::from_str("/mnt", false, None),
    );
    assert_eq!(
        Err(String::from("/mnt is not an empty directory")),
        MountPoint::from_str("/mnt", true, Some(3)),
    );
    assert_eq!(
        Err(String::from("failed to read /mnt")),
        MountPoint::from_str("/mnt", true, None),
    );
}

#[test]
fn mount_point_errors_have_their_messages() {
    assert_eq!("x is not a directory", MountPointError::NotADirectory.message("x"));
    assert_eq!("x is not an empty directory", MountPointError::NotEmpty.message("x"));
    assert_eq!("failed to read x", MountPointError::Unreadable.message("x"));
}
