//! Tags: labels whose parts, separated by `/`, lead from a root to a leaf.

use vstd::prelude::*;
use crate::text::{clone_strings, join, push_char, split, split_on, views};

verus! {

/// The character between the parts of a tag.
pub const SEPARATOR: char = '/';

/// A tag: its parts, from the root down.
#[derive(Clone, Debug, Eq, Hash, PartialEq)]
pub struct Tag {
    pub parts: Vec<String>,
}

impl View for Tag {
    type V = Seq<Seq<char>>;

    open spec fn view(&self) -> Seq<Seq<char>> {
        views(self.parts@)
    }
}

/// Whether a text can be read as a tag: it is not empty, and neither starts
/// nor ends with the separator.
pub open spec fn is_tag_text(s: Seq<char>) -> bool {
    s.len() > 0 && s.first() != SEPARATOR && s.last() != SEPARATOR
}

impl Tag {
    /// The tag whose parts are the pieces of `path` between separators.
    pub fn new(path: &str) -> (r: Tag)
        ensures
            r@ == split_on(path@, SEPARATOR),
    {
        Tag { parts: split(path, SEPARATOR) }
    }

    /// The tag below this one that the pieces of `name` lead to.
    pub fn leaf(&self, name: &str) -> (r: Tag)
        ensures
            r@ == self@ + split_on(name@, SEPARATOR),
    {
        let mut parts = clone_strings(&self.parts);
        let mut more = split(name, SEPARATOR);
        let ghost added = more@;
        parts.append(&mut more);
        assert(views(parts@) =~= views(self.parts@) + views(added));
        Tag { parts }
    }

    /// Whether this tag has no parent.
    pub fn is_root(&self) -> (r: bool)
        ensures
            r == (self@.len() < 2),
    {
        self.parts.len() < 2
    }

    /// Whether `other` lies below this tag: it has more parts, and this
    /// tag's parts are its first ones.
    pub fn is_parent_of(&self, other: &Tag) -> (r: bool)
        ensures
            r == (other@.len() > self@.len() && other@.take(self@.len() as int) == self@),
    {
        if other.parts.len() <= self.parts.len() {
            return false;
        }
        let mut i: usize = 0;
        while i < self.parts.len()
            invariant
                i <= self.parts.len() < other.parts.len(),
                forall|j: int| 0 <= j < i ==> self@[j] == other@[j],
            decreases self.parts.len() - i,
        {
            if self.parts[i] != other.parts[i] {
                assert(other@.take(self@.len() as int)[i as int] != self@[i as int]);
                return false;
            }
            i += 1;
        }
        assert(other@.take(self@.len() as int) =~= self@);
        true
    }

    /// Whether this tag and another have the same parts.
    pub fn same_as(&self, other: &Tag) -> (r: bool)
        ensures
            r == (self@ == other@),
    {
        if self.parts.len() != other.parts.len() {
            assert(self@.len() != other@.len());
            return false;
        }
        let mut i: usize = 0;
        while i < self.parts.len()
            invariant
                i <= self.parts.len(),
                self.parts.len() == other.parts.len(),
                forall|j: int| 0 <= j < i ==> self@[j] == other@[j],
            decreases self.parts.len() - i,
        {
            if self.parts[i] != other.parts[i] {
                assert(self@[i as int] != other@[i as int]);
                return false;
            }
            i += 1;
        }
        assert(self@ =~= other@);
        true
    }

    /// The last part.
    pub fn name(&self) -> (r: Option<&String>)
        ensures
            r is Some == (self@.len() > 0),
            r is Some ==> *r.unwrap() == self.parts@.last(),
    {
        let n = self.parts.len();
        if n == 0 {
            None
        } else {
            Some(&self.parts[n - 1])
        }
    }

    /// The parts joined by the separator.
    pub fn to_string(&self) -> (r: String)
        ensures
            r@ == join(self@, SEPARATOR),
    {
        let mut s = String::new();
        let mut i: usize = 0;
        while i < self.parts.len()
            invariant
                i <= self.parts.len(),
                s@ == join(self@.take(i as int), SEPARATOR),
            decreases self.parts.len() - i,
        {
            if i > 0 {
                push_char(&mut s, SEPARATOR);
            }
            s.append(self.parts[i].as_str());
            proof {
                let now = self@.take(i + 1);
                assert(now.drop_last() =~= self@.take(i as int));
                assert(now.last() == self.parts@[i as int]@);
                if i == 0 {
                    assert(s@ =~= now[0]);
                }
            }
            i += 1;
        }
        assert(self@.take(self.parts.len() as int) =~= self@);
        s
    }

    /// Reads a tag from a text. A text that is empty, or that starts or ends
    /// with the separator, is no tag.
    pub fn from_str(s: &str) -> (r: Result<Tag, ()>)
        ensures
            r is Ok == is_tag_text(s@),
            r is Ok ==> r.unwrap()@ == split_on(s@, SEPARATOR),
    {
        let n = s.unicode_len();
        if n == 0 || s.get_char(0) == SEPARATOR || s.get_char(n - 1) == SEPARATOR {
            Err(())
        } else {
            Ok(Tag::new(s))
        }
    }
}

impl std::str::FromStr for Tag {
    type Err = ();

    /// Reads a tag from a text. A text that is empty, or that starts or ends
    /// with the separator, is no tag.
    fn from_str(s: &str) -> (r: Result<Tag, ()>)
        ensures
            r is Ok == is_tag_text(s@),
            r is Ok ==> r.unwrap()@ == split_on(s@, SEPARATOR),
    {
        Tag::from_str(s)
    }
}

/// A tag read from the text that `to_string` gives for it is the tag again,
/// as long as it has a part and no part holds the separator.
pub proof fn lemma_tag_text_round_trip(parts: Seq<Seq<char>>)
    requires
        parts.len() >= 1,
        forall|i: int| 0 <= i < parts.len() ==> !parts[i].contains(SEPARATOR),
    ensures
        split_on(join(parts, SEPARATOR), SEPARATOR) == parts,
{
    crate::text::lemma_split_join(parts, SEPARATOR);
}

/// The text of a tag that was read from a text is that text.
pub proof fn lemma_tag_parse_round_trip(s: Seq<char>)
    ensures
        join(split_on(s, SEPARATOR), SEPARATOR) == s,
{
    crate::text::lemma_join_split(s, SEPARATOR);
}

} // verus!
