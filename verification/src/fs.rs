//! The answers to the requests of a file system: attributes, listings,
//! link targets, and which file to open.

use vstd::prelude::*;
use crate::cache::{lemma_directory_view, views_of, Cache, Entry, Node};
use crate::errors::{error_of, map_error, Errno};
use crate::path::steps_of;
use crate::time::Timespec;

verus! {

/// The kind of a file.
#[derive(Clone, Copy, Debug, PartialEq, Eq, Hash, Structural)]
pub enum FileType {
    Directory,
    RegularFile,
    Symlink,
}

/// The attributes of a file.
#[derive(Clone, Copy, Debug, PartialEq, Eq, Structural)]
pub struct FileAttr {
    pub size: u64,
    pub blocks: u64,
    pub atime: Timespec,
    pub mtime: Timespec,
    pub ctime: Timespec,
    pub crtime: Timespec,
    pub kind: FileType,
    pub perm: u16,
    pub nlink: u32,
    pub uid: u32,
    pub gid: u32,
    pub rdev: u32,
    pub flags: u32,
}

/// An entry of a listing.
#[derive(Clone, Debug, PartialEq, Eq)]
pub struct DirectoryEntry {
    pub name: String,
    pub kind: FileType,
}

/// Something whose owner can be changed.
pub trait ForUser: Sized {
    spec fn owned_by(self, uid: u32, gid: u32) -> Self;

    /// This, owned by a user and a group.
    fn for_user(self, uid: u32, gid: u32) -> (r: Self)
        ensures
            r == self.owned_by(uid, gid),
    ;
}

impl ForUser for FileAttr {
    open spec fn owned_by(self, uid: u32, gid: u32) -> FileAttr {
        FileAttr { uid, gid, ..self }
    }

    fn for_user(self, uid: u32, gid: u32) -> (r: FileAttr) {
        FileAttr { uid, gid, ..self }
    }
}

/// How long attributes stay good, in seconds: as long as can be said.
pub const TTL_SECONDS: i64 = 0x7FFF_FFFF;

/// The kind of file that an entry is shown as.
pub open spec fn kind_of(node: Node) -> FileType {
    match node {
        Node::Directory(_) => FileType::Directory,
        Node::Item(_) => FileType::RegularFile,
        Node::Link(_, _) => FileType::Symlink,
    }
}

/// The attributes of an entry whose size is `size`: all its times are the
/// timestamp of the entry, an item can be read and nothing else, a
/// directory and a link can be read and entered, and nobody owns it yet.
pub open spec fn attributes_of(node: Node, size: u64) -> FileAttr {
    FileAttr {
        size,
        blocks: 0,
        atime: node.timestamp(),
        mtime: node.timestamp(),
        ctime: node.timestamp(),
        crtime: node.timestamp(),
        kind: kind_of(node),
        perm: if node is Item {
            0o444
        } else {
            0o555
        },
        nlink: 1,
        uid: 0,
        gid: 0,
        rdev: 0,
        flags: 0,
    }
}

/// The answer to a request for the attributes of an entry. `source_len` is
/// what reading the length of the source file gave; it counts for an item
/// only, whose size it is, and whose failure it is where it failed. A
/// directory and a link have size 0.
pub open spec fn attributes_answer(
    node: Node,
    source_len: Result<u64, std::io::ErrorKind>,
) -> Result<(Timespec, FileAttr), Errno> {
    let ttl = Timespec { sec: TTL_SECONDS, nsec: 0 };
    match node {
        Node::Item(_) => match source_len {
            Ok(size) => Ok((ttl, attributes_of(node, size))),
            Err(kind) => Err(error_of(kind)),
        },
        _ => Ok((ttl, attributes_of(node, 0))),
    }
}

fn kind(entry: &Entry) -> (r: FileType)
    ensures
        r == kind_of(entry@),
{
    match entry {
        Entry::Directory(_) => FileType::Directory,
        Entry::Item(_) => FileType::RegularFile,
        Entry::Link(_, _) => FileType::Symlink,
    }
}

/// The attributes of an entry, with how long they stay good.
pub fn attributes(entry: &Entry, source_len: Result<u64, std::io::ErrorKind>) -> (r: Result<
    (Timespec, FileAttr),
    Errno,
>)
    ensures
        r == attributes_answer(entry@, source_len),
{
    let ttl = Timespec::new(TTL_SECONDS, 0);
    let timestamp = entry.timestamp();
    match entry {
        Entry::Directory(_) => Ok(
            (
                ttl,
                FileAttr {
                    size: 0,
                    blocks: 0,
                    atime: timestamp,
                    mtime: timestamp,
                    ctime: timestamp,
                    crtime: timestamp,
                    kind: FileType::Directory,
                    perm: 0o555,
                    nlink: 1,
                    uid: 0,
                    gid: 0,
                    rdev: 0,
                    flags: 0,
                },
            ),
        ),
        Entry::Item(_) => match source_len {
            Ok(size) => Ok(
                (
                    ttl,
                    FileAttr {
                        size,
                        blocks: 0,
                        atime: timestamp,
                        mtime: timestamp,
                        ctime: timestamp,
                        crtime: timestamp,
                        kind: FileType::RegularFile,
                        perm: 0o444,
                        nlink: 1,
                        uid: 0,
                        gid: 0,
                        rdev: 0,
                        flags: 0,
                    },
                ),
            ),
            Err(kind) => Err(map_error(kind)),
        },
        Entry::Link(_, _) => Ok(
            (
                ttl,
                FileAttr {
                    size: 0,
                    blocks: 0,
                    atime: timestamp,
                    mtime: timestamp,
                    ctime: timestamp,
                    crtime: timestamp,
                    kind: FileType::Symlink,
                    perm: 0o555,
                    nlink: 1,
                    uid: 0,
                    gid: 0,
                    rdev: 0,
                    flags: 0,
                },
            ),
        ),
    }
}

/// Whether a listing names the entries of a directory, each with its kind,
/// in their order.
pub open spec fn lists(listing: Seq<DirectoryEntry>, children: Seq<(Seq<char>, Node)>) -> bool {
    &&& listing.len() == children.len()
    &&& forall|i: int|
        0 <= i < listing.len() ==> {
            &&& (#[trigger] listing[i]).name@ == children[i].0
            &&& listing[i].kind == kind_of(children[i].1)
        }
}

/// The listing of an entry: one name and kind for each entry of a
/// directory, and `ENOTDIR` for an entry that is none.
pub fn listing(entry: &Entry) -> (r: Result<Vec<DirectoryEntry>, Errno>)
    ensures
        r is Ok == entry@ is Directory,
        r is Ok ==> lists(r.unwrap()@, entry@.entries()),
        r is Err ==> r.unwrap_err() == Errno::ENOTDIR,
{
    match entry {
        Entry::Directory(children) => {
            proof {
                lemma_directory_view(*entry);
            }
            let mut all: Vec<DirectoryEntry> = Vec::new();
            let mut i: usize = 0;
            while i < children.len()
                invariant
                    i <= children.len(),
                    all.len() == i,
                    forall|j: int|
                        0 <= j < i ==> {
                            &&& (#[trigger] all@[j]).name@ == views_of(children@)[j].0
                            &&& all@[j].kind == kind_of(views_of(children@)[j].1)
                        },
                decreases children.len() - i,
            {
                all.push(
                    DirectoryEntry { name: children[i].name.clone(), kind: kind(&children[i].entry) },
                );
                i += 1;
            }
            Ok(all)
        },
        _ => Err(Errno::ENOTDIR),
    }
}

/// The entry that a path leads to, or `ENOENT`.
pub fn lookup<'a>(cache: &'a Cache, path: &str) -> (r: Result<&'a Entry, Errno>)
    ensures
        r is Ok == cache@.root.resolve(steps_of(path@)) is Some,
        r is Ok ==> r.unwrap()@ == cache@.root.resolve(steps_of(path@)).unwrap(),
        r is Err ==> r.unwrap_err() == Errno::ENOENT,
{
    match cache.lookup(path) {
        Some(entry) => Ok(entry),
        None => Err(Errno::ENOENT),
    }
}

/// The answer to a request for what stands at a path: what `for_entry`
/// gives for the entry that the path leads to, or `ENOENT` where it leads
/// to none.
pub open spec fn answer_at<T>(
    cache: crate::cache::CacheView,
    path: Seq<char>,
    for_entry: spec_fn(Node) -> Result<T, Errno>,
) -> Result<T, Errno> {
    match cache.root.resolve(steps_of(path)) {
        Some(node) => for_entry(node),
        None => Err(Errno::ENOENT),
    }
}

/// The attributes of what stands at a path, owned by the user who asks.
/// `source_len` is what reading the length of the source file gave, which
/// counts where an item stands at the path.
pub fn getattr(
    cache: &Cache,
    path: &str,
    uid: u32,
    gid: u32,
    source_len: Result<u64, std::io::ErrorKind>,
) -> (r: Result<(Timespec, FileAttr), Errno>)
    ensures
        r == answer_at(
            cache@,
            path@,
            |node: Node|
                match attributes_answer(node, source_len) {
                    Ok((ttl, attr)) => Ok((ttl, attr.owned_by(uid, gid))),
                    Err(e) => Err(e),
                },
        ),
{
    match lookup(cache, path) {
        Err(e) => Err(e),
        Ok(entry) => match attributes(entry, source_len) {
            Ok((ttl, attr)) => Ok((ttl, attr.for_user(uid, gid))),
            Err(e) => Err(e),
        },
    }
}

/// The source file of the item at a path, or `None` for a directory or a
/// link: the file whose length `getattr` asks for.
pub fn source(cache: &Cache, path: &str) -> (r: Result<Option<String>, Errno>)
    ensures
        match cache@.root.resolve(steps_of(path@)) {
            Some(Node::Item(item)) => r is Ok && r.unwrap() is Some && r.unwrap().unwrap()@
                == item.path,
            Some(_) => r == Ok::<Option<String>, Errno>(None),
            None => r == Err::<Option<String>, Errno>(Errno::ENOENT),
        },
{
    match lookup(cache, path) {
        Err(e) => Err(e),
        Ok(Entry::Item(item)) => Ok(Some(item.path.clone())),
        Ok(_) => Ok(None),
    }
}

/// Opens the directory at a path: the handle `(0, 0)`, or `ENOTDIR` where
/// no directory stands there.
pub fn opendir(cache: &Cache, path: &str) -> (r: Result<(u64, u32), Errno>)
    ensures
        r == answer_at(
            cache@,
            path@,
            |node: Node|
                if node is Directory {
                    Ok((0u64, 0u32))
                } else {
                    Err(Errno::ENOTDIR)
                },
        ),
{
    match lookup(cache, path) {
        Err(e) => Err(e),
        Ok(Entry::Directory(_)) => Ok((0, 0)),
        Ok(_) => Err(Errno::ENOTDIR),
    }
}

/// The listing of the directory at a path.
pub fn readdir(cache: &Cache, path: &str) -> (r: Result<Vec<DirectoryEntry>, Errno>)
    ensures
        match cache@.root.resolve(steps_of(path@)) {
            Some(Node::Directory(children)) => r is Ok && lists(r.unwrap()@, children),
            Some(_) => r == Err::<Vec<DirectoryEntry>, Errno>(Errno::ENOTDIR),
            None => r == Err::<Vec<DirectoryEntry>, Errno>(Errno::ENOENT),
        },
{
    match lookup(cache, path) {
        Err(e) => Err(e),
        Ok(entry) => listing(entry),
    }
}

/// The target of the link at a path, as bytes, or `EINVAL` where no link
/// stands there.
pub fn readlink(cache: &Cache, path: &str) -> (r: Result<Vec<u8>, Errno>)
    ensures
        match cache@.root.resolve(steps_of(path@)) {
            Some(Node::Link(_, target)) => r is Ok && r.unwrap()@
                == vstd::utf8::encode_utf8(target),
            Some(_) => r == Err::<Vec<u8>, Errno>(Errno::EINVAL),
            None => r == Err::<Vec<u8>, Errno>(Errno::ENOENT),
        },
{
    match lookup(cache, path) {
        Err(e) => Err(e),
        Ok(Entry::Link(_, target)) => Ok(target.as_str().as_bytes_vec()),
        Ok(_) => Err(Errno::EINVAL),
    }
}

/// The source file to open for the item at a path, or `EINVAL` where no
/// item stands there.
pub fn open(cache: &Cache, path: &str) -> (r: Result<String, Errno>)
    ensures
        match cache@.root.resolve(steps_of(path@)) {
            Some(Node::Item(item)) => r is Ok && r.unwrap()@ == item.path,
            Some(_) => r == Err::<String, Errno>(Errno::EINVAL),
            None => r == Err::<String, Errno>(Errno::ENOENT),
        },
{
    match lookup(cache, path) {
        Err(e) => Err(e),
        Ok(Entry::Item(item)) => Ok(item.path.clone()),
        Ok(_) => Err(Errno::EINVAL),
    }
}

/// The answer to a request to open, once the source file was opened: its
/// descriptor as the handle, with the flags of the request, or the error
/// of the failure.
pub fn opened(outcome: Result<u64, std::io::ErrorKind>, flags: u32) -> (r: Result<
    (u64, u32),
    Errno,
>)
    ensures
        r == match outcome {
            Ok(handle) => Ok::<(u64, u32), Errno>((handle, flags)),
            Err(kind) => Err::<(u64, u32), Errno>(error_of(kind)),
        },
{
    match outcome {
        Ok(handle) => Ok((handle, flags)),
        Err(kind) => Err(map_error(kind)),
    }
}

/// The answer to a request to read, once the source file was read into
/// `buffer`: the bytes that were read, which are the first `n` of the
/// buffer, or the error of the failure.
pub fn read(buffer: Vec<u8>, outcome: Result<usize, std::io::ErrorKind>) -> (r: Result<
    Vec<u8>,
    Errno,
>)
    ensures
        match outcome {
            Ok(n) => r is Ok && r.unwrap()@ == if n <= buffer@.len() {
                buffer@.take(n as int)
            } else {
                buffer@ + Seq::new((n - buffer@.len()) as nat, |i: int| 0u8)
            },
            Err(kind) => r == Err::<Vec<u8>, Errno>(error_of(kind)),
        },
{
    match outcome {
        Ok(n) => {
            let mut buffer = buffer;
            let ghost before = buffer@;
            buffer.resize(n, 0u8);
            proof {
                if n <= before.len() {
                    assert(buffer@ =~= before.take(n as int));
                } else {
                    assert(buffer@.subrange(0, before.len() as int) == before);
                    assert forall|i: int| 0 <= i < before.len() implies buffer@[i] == before[i] by {
                        assert(buffer@.subrange(0, before.len() as int)[i] == buffer@[i]);
                    }
                    assert(buffer@ =~= before + Seq::new(
                        (n - before.len()) as nat,
                        |i: int| 0u8,
                    ));
                }
            }
            Ok(buffer)
        },
        Err(kind) => Err(map_error(kind)),
    }
}

} // verus!
