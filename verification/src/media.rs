//! Media types: guessed from a file's name, and turned back into the
//! extension that a file of that type is shown with.

use vstd::prelude::*;
use crate::text::{same_text, split, split_on, views};

verus! {

/// The media type that `mime_guess` gives for a path, as text.
pub uninterp spec fn guessed_media_type(path: Seq<char>) -> Seq<char>;

/// The file extensions that `mime_guess` lists for a media type, or `None`
/// where the text is no media type or the type is unknown.
pub uninterp spec fn known_extensions(media_type: Seq<char>) -> Option<Seq<Seq<char>>>;

/// `mime_guess::guess_mime_type`: the media type for the extension of
/// `path`, or `application/octet-stream` where there is no extension or it
/// is unknown. The file itself is not read.
#[verifier::external_body]
fn guess_mime_type(path: &str) -> (media_type: String)
    ensures
        media_type@ == guessed_media_type(path@),
{
    #[allow(deprecated)]
    let guess = mime_guess::guess_mime_type(path);
    guess.to_string()
}

/// `mime_guess::get_mime_extensions`, for the media type that `media_type`
/// parses to: the extensions listed for it.
#[verifier::external_body]
fn get_mime_extensions(media_type: &str) -> (extensions: Option<Vec<String>>)
    ensures
        extensions is Some == known_extensions(media_type@) is Some,
        extensions is Some ==> views(extensions.unwrap()@) == known_extensions(
            media_type@,
        ).unwrap(),
{
    let parsed: mime::Mime = media_type.parse().ok()?;
    let extensions = mime_guess::get_mime_extensions(&parsed)?;
    Some(extensions.iter().map(|e| e.to_string()).collect())
}

/// A media type, such as `image/jpeg`.
#[derive(Clone, Debug, PartialEq, Eq, Hash)]
pub struct MediaType {
    pub text: String,
}

impl View for MediaType {
    type V = Seq<char>;

    open spec fn view(&self) -> Seq<char> {
        self.text@
    }
}

/// The part of a media type before the first `/`.
pub open spec fn top_level(media_type: Seq<char>) -> Seq<char> {
    split_on(media_type, '/').first()
}

/// The extension that a file of a media type is shown with, given the
/// extensions known for the type: JPEG and PNG have theirs, another type
/// takes the first one known, and `bin` where none is known or the first
/// holds a slash, which no name of a file can hold.
pub open spec fn extension_for(media_type: Seq<char>, known: Option<Seq<Seq<char>>>) -> Seq<
    char,
> {
    if media_type == "image/jpeg"@ {
        "jpeg"@
    } else if media_type == "image/png"@ {
        "png"@
    } else if known is Some && known.unwrap().len() > 0 && !known.unwrap().first().contains('/') {
        known.unwrap().first()
    } else {
        "bin"@
    }
}

/// The extension that a file is shown with holds no slash.
pub proof fn lemma_extension_without_slash(media_type: Seq<char>, known: Option<Seq<Seq<char>>>)
    ensures
        !extension_for(media_type, known).contains('/'),
{
    reveal_strlit("jpeg");
    reveal_strlit("png");
    reveal_strlit("bin");
    let e = extension_for(media_type, known);
    if e.contains('/') {
        let i = choose|i: int| 0 <= i < e.len() && e[i] == '/';
        assert(e[i] == '/');
    }
}

fn holds_slash(s: &str) -> (r: bool)
    ensures
        r == s@.contains('/'),
{
    let n = s.unicode_len();
    let mut i: usize = 0;
    while i < n
        invariant
            i <= n,
            n == s@.len(),
            forall|j: int| 0 <= j < i ==> s@[j] != '/',
        decreases n - i,
    {
        if s.get_char(i) == '/' {
            return true;
        }
        i += 1;
    }
    false
}

impl MediaType {
    pub fn new(text: &str) -> (r: MediaType)
        ensures
            r@ == text@,
    {
        MediaType { text: String::from_str(text) }
    }

    /// The media type that the name of a file suggests.
    pub fn guess(path: &str) -> (r: MediaType)
        ensures
            r@ == guessed_media_type(path@),
    {
        MediaType { text: guess_mime_type(path) }
    }

    /// Whether the part before the first `/` is `image`.
    pub fn is_image(&self) -> (r: bool)
        ensures
            r == (top_level(self@) == "image"@),
    {
        let parts = split(self.text.as_str(), '/');
        proof {
            crate::text::lemma_split_nonempty(self@, '/');
        }
        same_text(parts[0].as_str(), "image")
    }

    /// The extension for this type, given the extensions known for it.
    pub fn extension_among(&self, known: Option<Vec<String>>) -> (r: String)
        ensures
            r@ == extension_for(
                self@,
                match known {
                    Some(v) => Some(views(v@)),
                    None => None,
                },
            ),
    {
        if same_text(self.text.as_str(), "image/jpeg") {
            String::from_str("jpeg")
        } else if same_text(self.text.as_str(), "image/png") {
            String::from_str("png")
        } else {
            match known {
                Some(v) if v.len() > 0 && !holds_slash(v[0].as_str()) => v[0].clone(),
                _ => String::from_str("bin"),
            }
        }
    }

    /// The extension that a file of this type is shown with.
    pub fn file_extension(&self) -> (r: String)
        ensures
            r@ == extension_for(self@, known_extensions(self@)),
    {
        if same_text(self.text.as_str(), "image/jpeg") || same_text(
            self.text.as_str(),
            "image/png",
        ) {
            self.extension_among(None)
        } else {
            self.extension_among(get_mime_extensions(self.text.as_str()))
        }
    }
}

impl crate::path::FileExtension for MediaType {
    open spec fn extension_text(&self) -> Seq<char> {
        extension_for(self@, known_extensions(self@))
    }

    fn file_extension(&self) -> (r: String) {
        MediaType::file_extension(self)
    }
}

} // verus!
