//! Media items: a source file with its timestamp, tags and media type.

use vstd::prelude::*;
use vstd::std_specs::cmp::PartialEqSpecImpl;
use crate::media::{extension_for, guessed_media_type, known_extensions, MediaType};
use crate::path::{FileBase, FileExtension};
use crate::tag::Tag;
use crate::text::{clone_strings, distinct, lemma_distinct};
use crate::time::Timestamp;

verus! {

/// A media item.
#[derive(Clone, Debug, Eq)]
pub struct Item {
    /// The path of the source file.
    pub path: String,
    /// When the item was made.
    pub timestamp: Timestamp,
    /// The tags applied to the item.
    pub tags: Vec<Tag>,
    /// The media type, guessed from the name of the source file.
    pub media_type: MediaType,
}

/// What an item holds, as values of specifications.
pub struct ItemView {
    pub path: Seq<char>,
    pub timestamp: Timestamp,
    pub tags: Seq<Seq<Seq<char>>>,
    pub media_type: Seq<char>,
}

/// The views of a sequence of tags.
pub open spec fn tag_views(tags: Seq<Tag>) -> Seq<Seq<Seq<char>>> {
    Seq::new(tags.len(), |i: int| tags[i]@)
}

impl View for Item {
    type V = ItemView;

    open spec fn view(&self) -> ItemView {
        ItemView {
            path: self.path@,
            timestamp: self.timestamp,
            tags: tag_views(self.tags@),
            media_type: self.media_type@,
        }
    }
}

/// The tags of an item are a set: a tag that is given more than once
/// counts once, where it first comes.
pub open spec fn tag_set(tags: Seq<Seq<Seq<char>>>) -> Seq<Seq<Seq<char>>> {
    distinct(tags)
}

fn holds_tag(tags: &Vec<Tag>, tag: &Tag) -> (r: bool)
    ensures
        r == tag_views(tags@).contains(tag@),
{
    let mut i: usize = 0;
    while i < tags.len()
        invariant
            i <= tags.len(),
            forall|j: int| 0 <= j < i ==> tag_views(tags@)[j] != tag@,
        decreases tags.len() - i,
    {
        if tags[i].same_as(tag) {
            assert(tag_views(tags@)[i as int] == tag@);
            return true;
        }
        i += 1;
    }
    false
}

/// The tags, each once, in the order in which they first come.
pub fn unique_tags(tags: Vec<Tag>) -> (r: Vec<Tag>)
    ensures
        tag_views(r@) == tag_set(tag_views(tags@)),
        tag_views(r@).no_duplicates(),
{
    let ghost all = tag_views(tags@);
    let ghost given = tags@;
    let mut r: Vec<Tag> = Vec::new();
    proof {
        assert(all.take(0) =~= Seq::empty());
        assert(tag_views(r@) =~= Seq::empty());
    }
    for tag in it: tags
        invariant
            it.seq() == given,
            all == tag_views(given),
            tag_views(r@) == distinct(all.take(it.index() as int)),
    {
        proof {
            let now = all.take(it.index() + 1);
            assert(now.drop_last() =~= all.take(it.index() as int));
            assert(now.last() == tag@);
        }
        if !holds_tag(&r, &tag) {
            let ghost before = tag_views(r@);
            r.push(tag);
            assert(tag_views(r@) =~= before.push(tag@));
        }
    }
    proof {
        assert(all.take(all.len() as int) =~= all);
        lemma_distinct(all);
    }
    r
}

impl ItemView {
    /// The extension that the item is shown with.
    pub open spec fn extension(self) -> Seq<char> {
        extension_for(self.media_type, known_extensions(self.media_type))
    }
}

impl Item {
    /// An item whose media type is guessed from the name of its source file.
    /// Of its tags, each counts once.
    pub fn new(path: &str, timestamp: Timestamp, tags: Vec<Tag>) -> (r: Item)
        ensures
            r@ == (ItemView {
                path: path@,
                timestamp,
                tags: tag_set(tag_views(tags@)),
                media_type: guessed_media_type(path@),
            }),
            r@.tags.no_duplicates(),
    {
        Item::with_media_type(path, timestamp, tags, MediaType::guess(path))
    }

    /// An item of a given media type. Of its tags, each counts once.
    pub fn with_media_type(
        path: &str,
        timestamp: Timestamp,
        tags: Vec<Tag>,
        media_type: MediaType,
    ) -> (r: Item)
        ensures
            r@ == (ItemView {
                path: path@,
                timestamp,
                tags: tag_set(tag_views(tags@)),
                media_type: media_type@,
            }),
            r@.tags.no_duplicates(),
    {
        Item { path: String::from_str(path), timestamp, tags: unique_tags(tags), media_type }
    }

    /// A copy of the item.
    pub fn duplicate(&self) -> (r: Item)
        ensures
            r@ == self@,
    {
        let mut tags: Vec<Tag> = Vec::new();
        let mut i: usize = 0;
        while i < self.tags.len()
            invariant
                i <= self.tags.len(),
                tags.len() == i,
                forall|j: int| 0 <= j < i ==> (#[trigger] tags@[j])@ == self.tags@[j]@,
            decreases self.tags.len() - i,
        {
            tags.push(Tag { parts: clone_strings(&self.tags[i].parts) });
            i += 1;
        }
        assert(tag_views(tags@) =~= tag_views(self.tags@));
        Item {
            path: self.path.clone(),
            timestamp: self.timestamp,
            tags,
            media_type: MediaType { text: self.media_type.text.clone() },
        }
    }

    /// The text that stands for the item: that of its timestamp.
    pub fn to_string(&self) -> (r: String)
        ensures
            r@ == self.timestamp.text(),
    {
        self.timestamp.to_string()
    }
}

impl FileBase for Item {
    open spec fn base_text(&self) -> Seq<char> {
        self.timestamp.text()
    }

    fn file_base(&self) -> (r: String) {
        self.timestamp.to_string()
    }
}

impl FileExtension for Item {
    open spec fn extension_text(&self) -> Seq<char> {
        self@.extension()
    }

    fn file_extension(&self) -> (r: String) {
        self.media_type.file_extension()
    }
}

impl PartialEq for Item {
    /// Two items are the same item where their source paths are the same.
    fn eq(&self, other: &Item) -> (r: bool) {
        self.path == other.path
    }
}

impl PartialEqSpecImpl for Item {
    open spec fn obeys_eq_spec() -> bool {
        true
    }

    open spec fn eq_spec(&self, other: &Item) -> bool {
        self.path@ == other.path@
    }
}

} // verus!
