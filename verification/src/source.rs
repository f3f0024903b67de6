//! Sources of items: what is made of the files that a scan found, and when
//! a scan is due.

use vstd::prelude::*;
use crate::cache::{item_views, lemma_add_all_failed, Cache};
use crate::item::{tag_set, tag_views, unique_tags, Item, ItemView};
use crate::media::{guessed_media_type, top_level, MediaType};
use crate::tag::{is_tag_text, Tag, SEPARATOR};
use crate::text::{clone_strings, distinct, lemma_distinct, split_on};
use crate::time::{parse_timestamp, timestamp_in, Timespec, Timestamp};

verus! {

/// A source of media files.
pub trait Source {
    /// Loads all items of this source into the cache.
    fn start(&mut self);

    /// Looks whether what lies behind this source has changed, and loads
    /// its items again where it has.
    fn notify(&mut self);
}

/// A file that a scan found: its path, and when it was modified.
#[derive(Debug)]
pub struct ScannedFile {
    pub path: String,
    pub modified: Timestamp,
}

/// Makes an item of a file.
pub trait FileSystemItemGenerator {
    /// The item that is made of a file.
    spec fn item_of(&self, file: ScannedFile) -> ItemView;

    fn item(&self, file: &ScannedFile) -> (r: Item)
        ensures
            r@ == self.item_of(*file),
    ;
}

/// Whether the name of a file says that it is an image.
pub open spec fn is_image(path: Seq<char>) -> bool {
    top_level(guessed_media_type(path)) == "image"@
}

/// The images among files, in their order.
pub open spec fn images_of(files: Seq<ScannedFile>) -> Seq<ScannedFile> {
    files.filter(|file: ScannedFile| is_image(file.path@))
}

/// The items that a generator makes of files, in their order.
pub open spec fn items_of<G: FileSystemItemGenerator>(
    generator: G,
    files: Seq<ScannedFile>,
) -> Seq<ItemView> {
    Seq::new(files.len(), |i: int| generator.item_of(files[i]))
}

/// Keeps the files whose names say that they are images.
pub fn images(files: Vec<ScannedFile>) -> (r: Vec<ScannedFile>)
    ensures
        r@ == images_of(files@),
{
    let ghost all = files@;
    let ghost keep = |file: ScannedFile| is_image(file.path@);
    let mut kept: Vec<ScannedFile> = Vec::new();
    proof {
        assert(all.take(0) =~= Seq::empty());
        assert(Seq::<ScannedFile>::empty().filter(keep) =~= Seq::empty()) by {
            reveal(Seq::filter);
        }
    }
    for file in it: files
        invariant
            it.seq() == all,
            keep == |file: ScannedFile| is_image(file.path@),
            kept@ == all.take(it.index() as int).filter(keep),
    {
        let ghost i = it.index() as int;
        proof {
            assert(all.take(i + 1).drop_last() =~= all.take(i));
            assert(all.take(i + 1).last() == file);
            reveal(Seq::filter);
        }
        if MediaType::guess(file.path.as_str()).is_image() {
            kept.push(file);
        }
    }
    assert(all.take(all.len() as int) =~= all);
    kept
}

/// Replaces what a cache holds by the items that a generator makes of the
/// images among files. The first item that cannot be added comes back, and
/// none after it is added.
pub fn populate<G: FileSystemItemGenerator>(
    generator: &G,
    cache: &mut Cache,
    files: Vec<ScannedFile>,
) -> (r: Result<(), Option<Item>>)
    ensures
        ({
            let items = items_of(*generator, images_of(files@));
            let (after, failed) = old(cache)@.cleared().add_all(items, items.len());
            &&& final(cache)@ == after
            &&& r is Ok == failed is None
            &&& r is Err ==> r.unwrap_err() is Some && r.unwrap_err().unwrap()@
                == items[failed.unwrap()]
        }),
{
    let chosen = images(files);
    let mut items: Vec<Item> = Vec::new();
    let mut i: usize = 0;
    while i < chosen.len()
        invariant
            i <= chosen.len(),
            items.len() == i,
            forall|j: int| 0 <= j < i ==> (#[trigger] items@[j])@ == generator.item_of(chosen@[j]),
        decreases chosen.len() - i,
    {
        items.push(generator.item(&chosen[i]));
        i += 1;
    }
    proof {
        assert(item_views(items@) =~= items_of(*generator, chosen@));
        lemma_add_all_failed(cache@.cleared(), item_views(items@), items@.len());
    }
    cache.replace_all(items)
}

/// What a scan decides when the directory it watches was last modified at
/// `modified`, or that time could not be read (`None`), and the last scan
/// saw `last_seen`: the time to remember, and whether to scan. A scan is
/// due where none was made yet, or the directory was modified since.
pub open spec fn notified(last_seen: Option<Timespec>, modified: Option<Timespec>) -> (
    Option<Timespec>,
    bool,
) {
    match modified {
        None => (last_seen, false),
        Some(time) => if last_seen is None || !time.at_most(last_seen.unwrap()) {
            (Some(time), true)
        } else {
            (last_seen, false)
        },
    }
}

/// A source that reads a directory: the directory, and when it was last
/// seen to be modified.
#[derive(Debug)]
pub struct FileSystemBase {
    pub root: String,
    pub timestamp: Option<Timespec>,
}

impl FileSystemBase {
    /// A source that has not scanned yet.
    pub fn new(root: String) -> (r: FileSystemBase)
        ensures
            r.root == root,
            r.timestamp is None,
    {
        FileSystemBase { root, timestamp: None }
    }

    /// Takes note of when the directory was last modified, and tells
    /// whether a scan is due.
    pub fn notify(&mut self, modified: Option<Timespec>) -> (scan: bool)
        ensures
            final(self).root == old(self).root,
            (final(self).timestamp, scan) == notified(old(self).timestamp, modified),
    {
        match modified {
            None => false,
            Some(time) => {
                let due = match self.timestamp {
                    None => true,
                    Some(seen) => seen.earlier_than(&time),
                };
                if due {
                    self.timestamp = Some(time);
                }
                due
            },
        }
    }

    /// The first look at the directory, which is one like any other.
    pub fn start(&mut self, modified: Option<Timespec>) -> (scan: bool)
        ensures
            final(self).root == old(self).root,
            (final(self).timestamp, scan) == notified(old(self).timestamp, modified),
    {
        self.notify(modified)
    }
}

/// After a look at the directory, another look that finds it modified at
/// the same time asks for no scan and changes nothing.
pub proof fn lemma_notify_twice(last_seen: Option<Timespec>, modified: Option<Timespec>)
    ensures
        notified(notified(last_seen, modified).0, modified) == (
            notified(last_seen, modified).0,
            false,
        ),
{
}

/// A source whose items are the images of a directory, each with the time
/// at which its file was modified.
#[derive(Debug)]
pub struct DirectorySource {
    pub base: FileSystemBase,
}

impl DirectorySource {
    pub fn new(root: String) -> (r: DirectorySource)
        ensures
            r.base.root == root,
            r.base.timestamp is None,
    {
        DirectorySource { base: FileSystemBase::new(root) }
    }
}

/// The item of a file that has only its path and the time at which it was
/// modified.
pub open spec fn plain_item(file: ScannedFile) -> ItemView {
    ItemView {
        path: file.path@,
        timestamp: file.modified,
        tags: Seq::empty(),
        media_type: guessed_media_type(file.path@),
    }
}

fn plain_item_of(file: &ScannedFile) -> (r: Item)
    ensures
        r@ == plain_item(*file),
{
    let tags: Vec<Tag> = Vec::new();
    assert(tag_views(tags@) =~= Seq::empty());
    assert(distinct(Seq::<Seq<Seq<char>>>::empty()) =~= Seq::empty());
    Item::new(file.path.as_str(), file.modified, tags)
}

impl FileSystemItemGenerator for DirectorySource {
    open spec fn item_of(&self, file: ScannedFile) -> ItemView {
        plain_item(file)
    }

    fn item(&self, file: &ScannedFile) -> (r: Item) {
        plain_item_of(file)
    }
}

/// The field of the metadata that holds when a picture was taken.
pub const EXIF_TIMESTAMP_TAG_NAME: &'static str = "Exif.Photo.DateTimeOriginal";

/// The format of that field.
pub const EXIF_TIMESTAMP_TAG_FORMAT: &'static str = "%Y:%m:%d %H:%M:%S";

/// The field of the metadata that holds the keywords of a picture.
pub const IPTC_KEYWORDS_TAG_NAME: &'static str = "Iptc.Application2.Keywords";

/// What was read of the metadata of a file: when the picture was taken, as
/// text, and its keywords; either is `None` where it could not be read.
#[derive(Debug)]
pub struct RawMeta {
    pub taken: Option<String>,
    pub keywords: Option<Vec<String>>,
}

/// What is known of a file.
#[derive(Debug)]
pub enum ItemMeta {
    /// The file holds no metadata that could be read.
    Missing,
    /// A timestamp and tags.
    Present(Timestamp, Vec<Tag>),
}

/// The tag that a keyword stands for: the tag that it reads as, or, where
/// it reads as none, the tag whose one part is the keyword.
pub open spec fn tag_of_keyword(keyword: Seq<char>) -> Seq<Seq<char>> {
    if is_tag_text(keyword) {
        split_on(keyword, SEPARATOR)
    } else {
        seq![keyword]
    }
}

/// The tag of each keyword, in the order of the keywords.
pub open spec fn keyword_tags(keywords: Seq<String>) -> Seq<Seq<Seq<char>>> {
    Seq::new(keywords.len(), |i: int| tag_of_keyword(keywords[i]@))
}

/// The tags that keywords stand for, each once, in the order in which they
/// first come; none where the keywords could not be read.
pub open spec fn tags_of_keywords(keywords: Option<Seq<String>>) -> Seq<Seq<Seq<char>>> {
    match keywords {
        Some(all) => distinct(keyword_tags(all)),
        None => Seq::empty(),
    }
}

/// No tag occurs twice among the tags that keywords stand for.
pub proof fn lemma_tags_of_keywords(keywords: Option<Seq<String>>)
    ensures
        tags_of_keywords(keywords).no_duplicates(),
{
    if keywords is Some {
        lemma_distinct(keyword_tags(keywords.unwrap()));
    }
}

/// The timestamp of a picture: when it was taken, where that could be read
/// and fits the format, or else when its file was modified.
pub open spec fn timestamp_of_picture(taken: Option<Seq<char>>, modified: Timestamp) -> Timestamp {
    match taken {
        Some(text) => match timestamp_in(text, EXIF_TIMESTAMP_TAG_FORMAT@) {
            Some(timestamp) => timestamp,
            None => modified,
        },
        None => modified,
    }
}

fn clone_tags(tags: &Vec<Tag>) -> (r: Vec<Tag>)
    ensures
        tag_views(r@) == tag_views(tags@),
{
    let mut r: Vec<Tag> = Vec::new();
    let mut i: usize = 0;
    while i < tags.len()
        invariant
            i <= tags.len(),
            r.len() == i,
            forall|j: int| 0 <= j < i ==> (#[trigger] r@[j])@ == tags@[j]@,
        decreases tags.len() - i,
    {
        r.push(Tag { parts: clone_strings(&tags[i].parts) });
        i += 1;
    }
    assert(tag_views(r@) =~= tag_views(tags@));
    r
}

impl ItemMeta {
    /// The item that this makes of a file: with the timestamp and the tags
    /// that are known of it, or, where none are, with the time at which the
    /// file was modified.
    pub open spec fn item_of(self, file: ScannedFile) -> ItemView {
        match self {
            ItemMeta::Missing => plain_item(file),
            ItemMeta::Present(timestamp, tags) => ItemView {
                path: file.path@,
                timestamp,
                tags: tag_set(tag_views(tags@)),
                media_type: guessed_media_type(file.path@),
            },
        }
    }

    /// The item that this makes of a file.
    pub fn item(&self, file: &ScannedFile) -> (r: Item)
        ensures
            r@ == self.item_of(*file),
    {
        match self {
            ItemMeta::Missing => plain_item_of(file),
            ItemMeta::Present(timestamp, tags) => Item::new(
                file.path.as_str(),
                *timestamp,
                clone_tags(tags),
            ),
        }
    }

    /// The timestamp of a picture.
    pub fn timestamp(taken: &Option<String>, modified: Timestamp) -> (r: Timestamp)
        ensures
            r == timestamp_of_picture(
                match taken {
                    Some(text) => Some(text@),
                    None => None,
                },
                modified,
            ),
    {
        match taken {
            Some(text) => match parse_timestamp(text.as_str(), EXIF_TIMESTAMP_TAG_FORMAT) {
                Some(timestamp) => timestamp,
                None => modified,
            },
            None => modified,
        }
    }

    /// The tags of a picture, each once.
    pub fn tags(keywords: &Option<Vec<String>>) -> (r: Vec<Tag>)
        ensures
            tag_views(r@) == tags_of_keywords(
                match keywords {
                    Some(all) => Some(all@),
                    None => None,
                },
            ),
            tag_views(r@).no_duplicates(),
    {
        let mut found: Vec<Tag> = Vec::new();
        match keywords {
            None => {
                assert(tag_views(found@) =~= Seq::empty());
                assert(distinct(Seq::<Seq<Seq<char>>>::empty()) =~= Seq::empty());
            },
            Some(all) => {
                let mut i: usize = 0;
                while i < all.len()
                    invariant
                        i <= all.len(),
                        found.len() == i,
                        forall|j: int|
                            0 <= j < i ==> (#[trigger] found@[j])@ == tag_of_keyword(all@[j]@),
                    decreases all.len() - i,
                {
                    let tag = match Tag::from_str(all[i].as_str()) {
                        Ok(tag) => tag,
                        Err(_) => {
                            let mut parts: Vec<String> = Vec::new();
                            parts.push(all[i].clone());
                            let tag = Tag { parts };
                            assert(tag@ =~= seq![all@[i as int]@]);
                            tag
                        },
                    };
                    found.push(tag);
                    i += 1;
                }
                assert(tag_views(found@) =~= keyword_tags(all@));
            },
        }
        let r = unique_tags(found);
        proof {
            if keywords is None {
                assert(tag_views(r@) =~= Seq::empty());
            }
        }
        r
    }

    /// What is known of a file whose metadata was read, or could not be
    /// opened (`None`).
    pub fn from_raw(raw: &Option<RawMeta>, modified: Timestamp) -> (r: ItemMeta)
        ensures
            raw is None ==> r is Missing,
            raw is Some ==> r is Present && r->Present_0 == timestamp_of_picture(
                match raw.unwrap().taken {
                    Some(text) => Some(text@),
                    None => None,
                },
                modified,
            ) && tag_views(r->Present_1@) == tags_of_keywords(
                match raw.unwrap().keywords {
                    Some(all) => Some(all@),
                    None => None,
                },
            ),
    {
        match raw {
            None => ItemMeta::Missing,
            Some(read) => ItemMeta::Present(
                ItemMeta::timestamp(&read.taken, modified),
                ItemMeta::tags(&read.keywords),
            ),
        }
    }
}

/// What is known of a file, under the path of the file.
#[derive(Debug)]
pub struct Known {
    pub path: String,
    pub meta: ItemMeta,
}

/// A source whose items are the images of a directory, each with the time
/// and the keywords that its metadata holds. What was read of a file is
/// kept, and not read again.
#[derive(Debug)]
pub struct TagsSource {
    pub base: FileSystemBase,
    pub tags: Vec<Known>,
}

/// The place of the first of the known files with a path, or their number
/// where none has it.
pub open spec fn known_at(known: Seq<Known>, path: Seq<char>) -> int
    decreases known.len(),
{
    if known.len() == 0 {
        0
    } else if known[0].path@ == path {
        0
    } else {
        1 + known_at(known.drop_first(), path)
    }
}

/// No file before the first known one with a path has the path, and the
/// file at that place has it.
pub proof fn lemma_known_at(known: Seq<Known>, path: Seq<char>)
    ensures
        0 <= known_at(known, path) <= known.len(),
        forall|j: int| 0 <= j < known_at(known, path) ==> known[j].path@ != path,
        known_at(known, path) < known.len() ==> known[known_at(known, path)].path@ == path,
    decreases known.len(),
{
    if known.len() > 0 && known[0].path@ != path {
        let rest = known.drop_first();
        lemma_known_at(rest, path);
        assert forall|j: int| 0 <= j < known_at(known, path) implies known[j].path@ != path by {
            if j > 0 {
                assert(known[j] == rest[j - 1]);
            }
        }
        if known_at(known, path) < known.len() {
            assert(known[known_at(known, path)] == rest[known_at(rest, path)]);
        }
    }
}

impl TagsSource {
    pub fn new(root: String) -> (r: TagsSource)
        ensures
            r.base.root == root,
            r.base.timestamp is None,
            r.tags@.len() == 0,
    {
        TagsSource { base: FileSystemBase::new(root), tags: Vec::new() }
    }

    fn find(&self, path: &str) -> (r: usize)
        ensures
            r == known_at(self.tags@, path@),
            r <= self.tags@.len(),
            r < self.tags@.len() ==> self.tags@[r as int].path@ == path@,
    {
        let mut i: usize = 0;
        while i < self.tags.len()
            invariant
                i <= self.tags.len(),
                forall|j: int| 0 <= j < i ==> self.tags@[j].path@ != path@,
            decreases self.tags.len() - i,
        {
            if crate::text::same_text(self.tags[i].path.as_str(), path) {
                proof {
                    lemma_known_at(self.tags@, path@);
                }
                return i;
            }
            i += 1;
        }
        proof {
            lemma_known_at(self.tags@, path@);
        }
        i
    }

    /// What is known of the file at a path.
    pub fn known(&self, path: &str) -> (r: Option<&ItemMeta>)
        ensures
            r is Some == (known_at(self.tags@, path@) < self.tags@.len()),
            r is Some ==> *r.unwrap() == self.tags@[known_at(self.tags@, path@)].meta,
    {
        let i = self.find(path);
        if i < self.tags.len() {
            Some(&self.tags[i].meta)
        } else {
            None
        }
    }

    /// Keeps what was read of the file at a path, unless something is known
    /// of it already.
    pub fn remember(&mut self, path: &str, meta: ItemMeta)
        ensures
            final(self).base == old(self).base,
            known_at(old(self).tags@, path@) < old(self).tags@.len() ==> final(self).tags@
                == old(self).tags@,
            known_at(old(self).tags@, path@) == old(self).tags@.len() ==> final(self).tags@.len()
                == old(self).tags@.len() + 1 && final(self).tags@.drop_last() == old(self).tags@
                && final(self).tags@.last().path@ == path@ && final(self).tags@.last().meta
                == meta,
    {
        let i = self.find(path);
        if i == self.tags.len() {
            self.tags.push(Known { path: String::from_str(path), meta });
            assert(self.tags@.drop_last() =~= old(self).tags@);
        }
    }
}

impl FileSystemItemGenerator for TagsSource {
    /// The item that what is known of the file makes of it; where nothing
    /// is known, the item has only its path and the time at which the file
    /// was modified.
    open spec fn item_of(&self, file: ScannedFile) -> ItemView {
        let i = known_at(self.tags@, file.path@);
        if i < self.tags@.len() {
            self.tags@[i].meta.item_of(file)
        } else {
            plain_item(file)
        }
    }

    fn item(&self, file: &ScannedFile) -> (r: Item) {
        match self.known(file.path.as_str()) {
            Some(meta) => meta.item(file),
            None => plain_item_of(file),
        }
    }
}

} // verus!
