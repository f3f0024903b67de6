use medifs::cache::Cache;
use medifs::errors::Errno;
use medifs::fs::{
    attributes, getattr, listing, lookup, open, opendir, opened, read, readdir, readlink, source,
    DirectoryEntry, FileAttr, FileType, ForUser, TTL_SECONDS,
};
use medifs::item::Item;
use medifs::tag::Tag;
use medifs::time::{Timespec, Timestamp};
use std::io::ErrorKind;

fn item(name: &str, year: i32, month: i32, day: i32) -> Item {
    Item::new(name, Timestamp::from((year, month, day)), Vec::new())
}

fn attr(kind: FileType, perm: u16, size: u64, time: i64) -> FileAttr {
    let t = Timespec::new(time, 0);
    FileAttr {
        size,
        blocks: 0,
        atime: t,
        mtime: t,
        ctime: t,
        crtime: t,
        kind,
        perm,
        nlink: 1,
        uid: 0,
        gid: 0,
        rdev: 0,
        flags: 0,
    }
}

/// Tests that getattr returns the expected data.
#[test]
fn test_getattr() {
    let data = "hello world";
    let mut cache = Cache::new("All".into(), "Tagged".into());
    let target = cache.add(item("test.jpg", 2000, 1, 1)).unwrap();

    assert_eq!(
        Err(Errno::ENOENT),
        getattr(&cache, "invalid/path", 1, 2, Ok(data.len() as u64)),
    );
    let (_, found) = getattr(&cache, &target, 1, 2, Ok(data.len() as u64)).unwrap();
    assert_eq!(0o444, found.perm & 0o777);
    assert_eq!(data.len() as u64, found.size);
}

/// Tests that a listing holds the entries of a day.
#[test]
fn test_readdir() {
    let mut cache = Cache::new("All".into(), "Tagged".into());
    let paths: Vec<String> = vec![
        item("test1.jpg", 2000, 1, 1),
        item("test2.jpg", 2000, 1, 1),
        item("test3.jpg", 2000, 1, 2),
    ]
    .into_iter()
    .map(|i| cache.add(i).unwrap())
    .collect();
    let parent = |path: &str| path[..path.rfind('/').unwrap()].to_string();

    assert_eq!(Err(Errno::ENOENT), readdir(&cache, "invalid/path"));
    assert_eq!(Err(Errno::ENOTDIR), readdir(&cache, &paths[0]));
    assert_eq!(2, readdir(&cache, &parent(&paths[0])).unwrap().len());
    assert_eq!(1, readdir(&cache, &parent(&paths[2])).unwrap().len());
}

/// Tests that the file to read is the source file of the item.
#[test]
fn test_read() {
    let mut cache = Cache::new("All".into(), "Tagged".into());
    let target = cache.add(item("source/test.jpg", 2000, 1, 1)).unwrap();

    assert_eq!(Err(Errno::ENOENT), open(&cache, "invalid/path"));
    assert_eq!(Ok(String::from("source/test.jpg")), open(&cache, &target));
    let mut buffer = b"hello world".to_vec();
    buffer.resize(64, 0);
    assert_eq!(Ok(b"hello world".to_vec()), read(buffer, Ok(11)));
}

#[test]
fn attributes_of_each_kind_of_entry() {
    let mut cache = Cache::new("All".into(), "Tagged".into());
    let mut tagged = item("test.jpg", 2000, 1, 1);
    tagged.tags.push(Tag::new("t"));
    let path = cache.add(tagged).unwrap();
    let ttl = Timespec::new(0x7FFFFFFF, 0);
    assert_eq!(i32::MAX as i64, TTL_SECONDS);

    let directory = lookup(&cache, "All/2000").unwrap();
    assert_eq!(
        Ok((ttl, attr(FileType::Directory, 0o555, 0, 946684800))),
        attributes(directory, Ok(99)),
    );
    assert_eq!(
        Ok((ttl, attr(FileType::Directory, 0o555, 0, 946684800))),
        attributes(directory, Err(ErrorKind::NotFound)),
    );
    let found = lookup(&cache, &path).unwrap();
    assert_eq!(
        Ok((ttl, attr(FileType::RegularFile, 0o444, 99, 946684800))),
        attributes(found, Ok(99)),
    );
    assert_eq!(Err(Errno::EACCES), attributes(found, Err(ErrorKind::PermissionDenied)));
    assert_eq!(Err(Errno::EIO), attributes(found, Err(ErrorKind::Other)));
    let link = lookup(&cache, "Tagged/t/2000-01-01 00:00.jpeg").unwrap();
    assert_eq!(
        Ok((ttl, attr(FileType::Symlink, 0o555, 0, 946684800))),
        attributes(link, Ok(99)),
    );
    let empty = Cache::new("All".into(), "Tagged".into());
    assert_eq!(
        Ok((ttl, attr(FileType::Directory, 0o555, 0, 0))),
        attributes(lookup(&empty, "/").unwrap(), Ok(0)),
    );
}

#[test]
fn getattr_gives_the_entry_to_the_user_who_asks() {
    let mut cache = Cache::new("All".into(), "Tagged".into());
    let path = cache.add(item("test.jpg", 2000, 1, 1)).unwrap();
    let mut expected = attr(FileType::RegularFile, 0o444, 11, 946684800);
    expected.uid = 1000;
    expected.gid = 100;
    assert_eq!(
        Ok((Timespec::new(0x7FFFFFFF, 0), expected)),
        getattr(&cache, &path, 1000, 100, Ok(11)),
    );
    assert_eq!(Err(Errno::ENOENT), getattr(&cache, "All/2001", 1000, 100, Ok(11)));
    assert_eq!(
        Err(Errno::ENOENT),
        getattr(&cache, &path, 1000, 100, Err(ErrorKind::NotFound)),
    );
    assert_eq!(
        expected,
        attr(FileType::RegularFile, 0o444, 11, 946684800).for_user(1000, 100),
    );
}

#[test]
fn source_names_the_file_of_an_item_only() {
    let mut cache = Cache::new("All".into(), "Tagged".into());
    let path = cache.add(item("dir/test.jpg", 2000, 1, 1)).unwrap();
    assert_eq!(Ok(Some(String::from("dir/test.jpg"))), source(&cache, &path));
    assert_eq!(Ok(None), source(&cache, "All"));
    assert_eq!(Err(Errno::ENOENT), source(&cache, "None"));
}

#[test]
fn opendir_wants_a_directory() {
    let mut cache = Cache::new("All".into(), "Tagged".into());
    let path = cache.add(item("test.jpg", 2000, 1, 1)).unwrap();
    assert_eq!(Ok((0, 0)), opendir(&cache, "/"));
    assert_eq!(Ok((0, 0)), opendir(&cache, "/All/2000/01/01"));
    assert_eq!(Err(Errno::ENOTDIR), opendir(&cache, &path));
    assert_eq!(Err(Errno::ENOENT), opendir(&cache, "/All/2000/01/02"));
    assert_eq!(Err(Errno::ENOENT), opendir(&cache, "/All/.."));
}

#[test]
fn readdir_names_each_entry_with_its_kind() {
    let mut cache = Cache::new("All".into(), "Tagged".into());
    let mut tagged = item("test.jpg", 2000, 1, 1);
    tagged.tags.push(Tag::new("t"));
    cache.add(tagged).unwrap();
    cache.add_item("Tagged/t", item("odd.png", 2000, 1, 1)).unwrap();
    cache.assert_exists("Tagged/t/sub");
    let entry = |name: &str, kind| DirectoryEntry { name: String::from(name), kind };
    assert_eq!(
        Ok(vec![
            entry("2000-01-01 00:00.jpeg", FileType::Symlink),
            entry("2000-01-01 00:00.png", FileType::RegularFile),
            entry("sub", FileType::Directory),
        ]),
        readdir(&cache, "Tagged/t"),
    );
    assert_eq!(Ok(Vec::new()), listing(lookup(&cache, "Tagged/t/sub").unwrap()));
    assert_eq!(
        Err(Errno::ENOTDIR),
        listing(lookup(&cache, "Tagged/t/2000-01-01 00:00.jpeg").unwrap()),
    );
}

#[test]
fn readlink_gives_the_target_of_a_link() {
    let mut cache = Cache::new("All".into(), "Tagged".into());
    let mut tagged = item("test.jpg", 2000, 1, 1);
    tagged.tags.push(Tag::new("ä/b"));
    let path = cache.add(tagged).unwrap();
    assert_eq!(
        Ok("../../../All/2000/01/01/2000-01-01 00:00.jpeg".as_bytes().to_vec()),
        readlink(&cache, "Tagged/ä/b/2000-01-01 00:00.jpeg"),
    );
    assert_eq!(Err(Errno::EINVAL), readlink(&cache, &path));
    assert_eq!(Err(Errno::EINVAL), readlink(&cache, "Tagged"));
    assert_eq!(Err(Errno::ENOENT), readlink(&cache, "Tagged/c"));
}

#[test]
fn open_wants_an_item() {
    let mut cache = Cache::new("All".into(), "Tagged".into());
    let mut tagged = item("test.jpg", 2000, 1, 1);
    tagged.tags.push(Tag::new("t"));
    cache.add(tagged).unwrap();
    assert_eq!(Err(Errno::EINVAL), open(&cache, "All"));
    assert_eq!(Err(Errno::EINVAL), open(&cache, "Tagged/t/2000-01-01 00:00.jpeg"));
    assert_eq!(Ok((7, 0o100)), opened(Ok(7), 0o100));
    assert_eq!(Err(Errno::EACCES), opened(Err(ErrorKind::PermissionDenied), 0o100));
}

#[test]
fn read_keeps_the_bytes_that_were_read() {
    assert_eq!(Ok(vec![1, 2]), read(vec![1, 2, 3], Ok(2)));
    assert_eq!(Ok(Vec::new()), read(vec![1, 2, 3], Ok(0)));
    assert_eq!(Ok(vec![1, 2, 3]), read(vec![1, 2, 3], Ok(3)));
    assert_eq!(Ok(vec![1, 2, 3, 0, 0]), read(vec![1, 2, 3], Ok(5)));
    assert_eq!(Err(Errno::EINTR), read(vec![1, 2, 3], Err(ErrorKind::Interrupted)));
}
