//! Names and paths: the name under which an entry is shown, and the
//! components that a path is walked by.

use vstd::prelude::*;
use crate::text::{decimal, push_char, push_decimal_nat, same_text, split, split_on, views};

verus! {

/// Something that gives the part of a file name before the extension.
pub trait FileBase {
    spec fn base_text(&self) -> Seq<char>;

    fn file_base(&self) -> (r: String)
        ensures
            r@ == self.base_text(),
    ;
}

/// Something that gives the extension of a file name.
pub trait FileExtension {
    spec fn extension_text(&self) -> Seq<char>;

    fn file_extension(&self) -> (r: String)
        ensures
            r@ == self.extension_text(),
    ;
}

impl FileBase for String {
    open spec fn base_text(&self) -> Seq<char> {
        self@
    }

    fn file_base(&self) -> (r: String) {
        self.clone()
    }
}

/// What is put between base and extension for an index: nothing for 0, else
/// a space and the index in parentheses.
pub open spec fn index_suffix(index: nat) -> Seq<char> {
    if index == 0 {
        Seq::empty()
    } else {
        seq![' ', '('] + decimal(index as int) + seq![')']
    }
}

/// The file name for a base, an extension and an index.
pub open spec fn name_text(base: Seq<char>, extension: Seq<char>, index: nat) -> Seq<char> {
    base + index_suffix(index) + seq!['.'] + extension
}

/// Names for one base and one extension at two indices differ.
pub proof fn lemma_name_text_injective(base: Seq<char>, extension: Seq<char>, j: nat, k: nat)
    requires
        name_text(base, extension, j) == name_text(base, extension, k),
    ensures
        j == k,
{
    let a = name_text(base, extension, j);
    let b = name_text(base, extension, k);
    let sj = index_suffix(j);
    let sk = index_suffix(k);
    crate::text::lemma_decimal_nat_len(j);
    crate::text::lemma_decimal_nat_len(k);
    assert(a.len() == base.len() + sj.len() + 1 + extension.len());
    assert(b.len() == base.len() + sk.len() + 1 + extension.len());
    assert(sj.len() == sk.len());
    if j != 0 {
        assert(k != 0);
        let dj = decimal(j as int);
        let dk = decimal(k as int);
        assert(dj.len() == dk.len());
        assert forall|i: int| 0 <= i < dj.len() implies dj[i] == dk[i] by {
            assert(a[base.len() + 2 + i] == dj[i]);
            assert(b[base.len() + 2 + i] == dk[i]);
        }
        assert(dj =~= dk);
        crate::text::lemma_decimal_nat_injective(j, k);
    }
}

/// The file name for a base, an extension and an index: base and extension
/// joined by a dot, with ` (index)` after the base unless the index is 0.
pub fn name<B: FileBase, E: FileExtension>(base: &B, ext: &E, index: usize) -> (r: String)
    ensures
        r@ == name_text(base.base_text(), ext.extension_text(), index as nat),
{
    let mut s = base.file_base();
    if index > 0 {
        push_char(&mut s, ' ');
        push_char(&mut s, '(');
        push_decimal_nat(&mut s, index as u64);
        push_char(&mut s, ')');
    }
    push_char(&mut s, '.');
    let e = ext.file_extension();
    s.append(e.as_str());
    assert(s@ =~= name_text(base.base_text(), ext.extension_text(), index as nat));
    s
}

/// One step of a path.
#[derive(Clone, Debug, PartialEq, Eq)]
pub enum Component {
    /// The root, for a path that starts with `/`.
    RootDir,
    /// `.` at the start of a path.
    CurDir,
    /// `..`
    ParentDir,
    /// A name.
    Normal(String),
}

/// One step of a path, as a value of specifications.
pub enum Step {
    RootDir,
    CurDir,
    ParentDir,
    Normal(Seq<char>),
}

impl View for Component {
    type V = Step;

    open spec fn view(&self) -> Step {
        match self {
            Component::RootDir => Step::RootDir,
            Component::CurDir => Step::CurDir,
            Component::ParentDir => Step::ParentDir,
            Component::Normal(name) => Step::Normal(name@),
        }
    }
}

/// The views of a sequence of components.
pub open spec fn steps(v: Seq<Component>) -> Seq<Step> {
    Seq::new(v.len(), |i: int| v[i]@)
}

/// The steps that the pieces of a path between slashes stand for. An empty
/// piece is no step, so that slashes may repeat and may end a path. A piece
/// `.` is a step only where it is the first piece.
pub open spec fn steps_of_pieces(pieces: Seq<Seq<char>>) -> Seq<Step>
    decreases pieces.len(),
{
    if pieces.len() == 0 {
        Seq::empty()
    } else {
        let before = steps_of_pieces(pieces.drop_last());
        let piece = pieces.last();
        if piece.len() == 0 {
            before
        } else if piece == seq!['.'] {
            if pieces.len() == 1 {
                before.push(Step::CurDir)
            } else {
                before
            }
        } else if piece == seq!['.', '.'] {
            before.push(Step::ParentDir)
        } else {
            before.push(Step::Normal(piece))
        }
    }
}

/// The steps of a path: the root, if the path starts with a slash, then the
/// steps of its pieces.
pub open spec fn steps_of(path: Seq<char>) -> Seq<Step> {
    if path.len() > 0 && path[0] == '/' {
        seq![Step::RootDir] + steps_of_pieces(split_on(path, '/'))
    } else {
        steps_of_pieces(split_on(path, '/'))
    }
}

/// Whether a text can be the name of an entry that a path leads to: it is
/// not empty, holds no slash, and is neither `.` nor `..`.
pub open spec fn is_plain_name(name: Seq<char>) -> bool {
    &&& name.len() > 0
    &&& !name.contains('/')
    &&& name != seq!['.']
    &&& name != seq!['.', '.']
}

/// The components of a path.
pub fn components(path: &str) -> (r: Vec<Component>)
    ensures
        steps(r@) == steps_of(path@),
{
    let pieces = split(path, '/');
    let mut r: Vec<Component> = Vec::new();
    if path.unicode_len() > 0 && path.get_char(0) == '/' {
        r.push(Component::RootDir);
    }
    let ghost lead = steps(r@);
    let mut i: usize = 0;
    while i < pieces.len()
        invariant
            i <= pieces.len(),
            steps(r@) == lead + steps_of_pieces(views(pieces@).take(i as int)),
        decreases pieces.len() - i,
    {
        let piece = pieces[i].as_str();
        let ghost before = steps(r@);
        proof {
            reveal_strlit(".");
            reveal_strlit("..");
            assert("."@ =~= seq!['.']);
            assert(".."@ =~= seq!['.', '.']);
            let now = views(pieces@).take(i + 1);
            assert(now.drop_last() =~= views(pieces@).take(i as int));
            assert(now.last() == piece@);
        }
        if piece.unicode_len() == 0 {
        } else if same_text(piece, ".") {
            if i == 0 {
                r.push(Component::CurDir);
                assert(steps(r@) =~= before.push(Step::CurDir));
            }
        } else if same_text(piece, "..") {
            r.push(Component::ParentDir);
            assert(steps(r@) =~= before.push(Step::ParentDir));
        } else {
            r.push(Component::Normal(pieces[i].clone()));
            assert(steps(r@) =~= before.push(Step::Normal(piece@)));
        }
        assert(steps(r@) =~= lead + steps_of_pieces(views(pieces@).take(i + 1)));
        i += 1;
    }
    assert(views(pieces@).take(pieces.len() as int) =~= views(pieces@));
    assert(lead =~= if path@.len() > 0 && path@[0] == '/' {
        seq![Step::RootDir]
    } else {
        Seq::empty()
    });
    assert(steps(r@) =~= steps_of(path@));
    r
}

/// The final step of a path, where that is a name.
pub open spec fn file_name_of(path: Seq<char>) -> Option<Seq<char>> {
    let all = steps_of(path);
    if all.len() > 0 && all.last() is Normal {
        Some(all.last()->Normal_0)
    } else {
        None
    }
}

/// The place of the last dot in a name, or -1 where it has none.
pub open spec fn last_dot(name: Seq<char>) -> int
    decreases name.len(),
{
    if name.len() == 0 {
        -1
    } else if name.last() == '.' {
        name.len() - 1
    } else {
        last_dot(name.drop_last())
    }
}

/// The file name of a path without its extension: what stands before the
/// last dot, or the whole name where it has no dot but a first character.
pub open spec fn file_stem_of(path: Seq<char>) -> Option<Seq<char>> {
    match file_name_of(path) {
        None => None,
        Some(name) => if last_dot(name) <= 0 {
            Some(name)
        } else {
            Some(name.take(last_dot(name)))
        },
    }
}

/// The extension of the file name of a path: what follows the last dot,
/// unless that dot is the first character.
pub open spec fn extension_of(path: Seq<char>) -> Option<Seq<char>> {
    match file_name_of(path) {
        None => None,
        Some(name) => if last_dot(name) <= 0 {
            None
        } else {
            Some(name.skip(last_dot(name) + 1))
        },
    }
}

fn file_name(path: &str) -> (r: Option<String>)
    ensures
        r is Some == file_name_of(path@) is Some,
        r is Some ==> r.unwrap()@ == file_name_of(path@).unwrap(),
{
    let all = components(path);
    let n = all.len();
    if n == 0 {
        return None;
    }
    assert(steps(all@).last() == all@[n - 1]@);
    match &all[n - 1] {
        Component::Normal(name) => Some(name.clone()),
        _ => None,
    }
}

fn find_last_dot(name: &str) -> (r: Option<usize>)
    ensures
        r is Some == (last_dot(name@) >= 0),
        r is Some ==> r.unwrap() == last_dot(name@),
        last_dot(name@) < name@.len(),
{
    let mut i = name.unicode_len();
    proof {
        assert(name@.take(i as int) =~= name@);
    }
    while i > 0
        invariant
            i <= name@.len(),
            last_dot(name@) == last_dot(name@.take(i as int)),
        decreases i,
    {
        proof {
            assert(name@.take(i as int).drop_last() =~= name@.take(i - 1));
        }
        if name.get_char(i - 1) == '.' {
            return Some(i - 1);
        }
        i -= 1;
    }
    None
}

/// The file name of a path without its extension.
pub fn file_stem(path: &str) -> (r: Option<String>)
    ensures
        r is Some == file_stem_of(path@) is Some,
        r is Some ==> r.unwrap()@ == file_stem_of(path@).unwrap(),
{
    match file_name(path) {
        None => None,
        Some(name) => match find_last_dot(name.as_str()) {
            Some(dot) if dot > 0 => {
                let stem = name.as_str().substring_char(0, dot);
                assert(stem@ =~= name@.take(dot as int));
                Some(String::from_str(stem))
            },
            _ => Some(name),
        },
    }
}

/// The extension of the file name of a path.
pub fn extension(path: &str) -> (r: Option<String>)
    ensures
        r is Some == extension_of(path@) is Some,
        r is Some ==> r.unwrap()@ == extension_of(path@).unwrap(),
{
    match file_name(path) {
        None => None,
        Some(name) => match find_last_dot(name.as_str()) {
            Some(dot) if dot > 0 => {
                let n = name.as_str().unicode_len();
                let ext = name.as_str().substring_char(dot + 1, n);
                assert(ext@ =~= name@.skip(dot + 1));
                Some(String::from_str(ext))
            },
            _ => None,
        },
    }
}

/// A path as text, which names itself by its file stem and its extension.
#[derive(Clone, Debug, PartialEq, Eq, Hash)]
pub struct Path(pub String);

impl View for Path {
    type V = Seq<char>;

    open spec fn view(&self) -> Seq<char> {
        self.0@
    }
}

impl Path {
    pub fn new(text: &str) -> (r: Path)
        ensures
            r@ == text@,
    {
        Path(String::from_str(text))
    }

    pub fn as_str(&self) -> (r: &str)
        ensures
            r@ == self@,
    {
        self.0.as_str()
    }
}

impl FileBase for Path {
    /// The file stem, or `bin` for a path without a file name.
    open spec fn base_text(&self) -> Seq<char> {
        match file_stem_of(self@) {
            Some(stem) => stem,
            None => "bin"@,
        }
    }

    fn file_base(&self) -> (r: String) {
        match file_stem(self.0.as_str()) {
            Some(stem) => stem,
            None => String::from_str("bin"),
        }
    }
}

impl FileExtension for Path {
    /// The extension, or `bin` for a path without one.
    open spec fn extension_text(&self) -> Seq<char> {
        match extension_of(self@) {
            Some(ext) => ext,
            None => "bin"@,
        }
    }

    fn file_extension(&self) -> (r: String) {
        match extension(self.0.as_str()) {
            Some(ext) => ext,
            None => String::from_str("bin"),
        }
    }
}

/// A plain name after a path and a slash is one more step after the steps
/// of the path. (The path may be empty: then the slash makes a root.)
pub proof fn lemma_steps_of_child(path: Seq<char>, name: Seq<char>)
    requires
        is_plain_name(name),
    ensures
        path.len() > 0 ==> steps_of(path + seq!['/'] + name) == steps_of(path).push(
            Step::Normal(name),
        ),
        path.len() == 0 ==> steps_of(path + seq!['/'] + name) == seq![
            Step::RootDir,
            Step::Normal(name),
        ],
{
    let slashed = path + seq!['/'];
    let whole = slashed + name;
    assert(slashed.drop_last() =~= path);
    assert(split_on(slashed, '/') == split_on(path, '/').push(Seq::empty()));
    crate::text::lemma_split_piece(slashed, name, '/');
    crate::text::lemma_split_nonempty(path, '/');
    let pieces = split_on(path, '/');
    assert(Seq::<char>::empty() + name =~= name);
    assert(pieces.push(Seq::empty()).drop_last() =~= pieces);
    assert(split_on(whole, '/') == pieces.push(name));
    assert(pieces.push(name).drop_last() =~= pieces);
    assert(steps_of_pieces(pieces.push(name)) == steps_of_pieces(pieces).push(Step::Normal(name)));
    if path.len() == 0 {
        assert(pieces =~= seq![Seq::<char>::empty()]);
        assert(pieces.drop_last() =~= Seq::<Seq<char>>::empty());
        assert(steps_of_pieces(pieces.drop_last()) =~= Seq::<Step>::empty());
        assert(steps_of_pieces(pieces) =~= Seq::<Step>::empty());
        assert(whole[0] == '/');
        assert(steps_of(whole) =~= seq![Step::RootDir, Step::Normal(name)]);
    } else {
        assert(whole[0] == path[0]);
        assert(steps_of(whole) =~= steps_of(path).push(Step::Normal(name)));
    }
}

} // verus!
