//! The directory tree that paths are looked up in.

use vstd::prelude::*;
use crate::cache_laws::{lemma_add_extends, lemma_add_then_lookup, lemma_added_extends,
    lemma_ensured_extends};
use crate::item::{Item, ItemView};
use crate::tag::{Tag, SEPARATOR};
use crate::text::{decimal, decimal_padded, join, push_char, push_decimal, push_decimal_padded};
use crate::time::Timestamp;
use crate::path::{components, extension_of, file_stem_of, name, name_text, steps, steps_of,
    Component, FileBase, FileExtension, Path, Step};
use crate::time::Timespec;

verus! {

/// An entry of the tree.
#[derive(Debug, PartialEq)]
pub enum Entry {
    /// A directory, with the entries in it.
    Directory(Vec<Child>),
    /// A media item.
    Item(Item),
    /// A link to an item: its timestamp, and the path that leads from the
    /// directory of the link to the item.
    Link(Timespec, String),
}

/// An entry of a directory, under its name.
#[derive(Debug, PartialEq)]
pub struct Child {
    pub name: String,
    pub entry: Entry,
}

/// An entry of the tree, as a value of specifications.
pub enum Node {
    Directory(Seq<(Seq<char>, Node)>),
    Item(ItemView),
    Link(Timespec, Seq<char>),
}

/// The first `n` entries of a directory, as values of specifications.
pub open spec fn child_views(children: Seq<Child>, n: nat) -> Seq<(Seq<char>, Node)>
    decreases children, n,
{
    if n == 0 || n > children.len() {
        Seq::empty()
    } else {
        child_views(children, (n - 1) as nat).push(
            (children[n - 1].name@, children[n - 1].entry.view()),
        )
    }
}

impl View for Entry {
    type V = Node;

    open spec fn view(&self) -> Node
        decreases self,
    {
        match self {
            Entry::Directory(children) => Node::Directory(child_views(children@, children@.len())),
            Entry::Item(item) => Node::Item(item@),
            Entry::Link(timestamp, target) => Node::Link(*timestamp, target@),
        }
    }
}

/// The entries of a directory, as values of specifications.
pub open spec fn views_of(children: Seq<Child>) -> Seq<(Seq<char>, Node)> {
    Seq::new(children.len(), |i: int| (children[i].name@, children[i].entry@))
}

/// The first `n` entries of a directory have the views of those entries.
pub proof fn lemma_child_views(children: Seq<Child>, n: nat)
    requires
        n <= children.len(),
    ensures
        child_views(children, n) == views_of(children.take(n as int)),
    decreases n,
{
    if n > 0 {
        lemma_child_views(children, (n - 1) as nat);
        let prev = child_views(children, (n - 1) as nat);
        let last = (children[n - 1].name@, children[n - 1].entry.view());
        assert(child_views(children, n) == prev.push(last));
        assert(prev.push(last) =~= views_of(children.take(n as int)));
    } else {
        assert(child_views(children, n) =~= views_of(children.take(n as int)));
    }
}

/// The view of a directory holds the views of its entries, in order.
pub proof fn lemma_directory_view(entry: Entry)
    requires
        entry is Directory,
    ensures
        entry@ == Node::Directory(views_of(entry->Directory_0@)),
{
    let children = entry->Directory_0@;
    lemma_child_views(children, children.len());
    assert(children.take(children.len() as int) =~= children);
}

/// The place of the first entry under a name, or the number of entries
/// where none has the name.
pub open spec fn position(children: Seq<(Seq<char>, Node)>, name: Seq<char>) -> int
    decreases children.len(),
{
    if children.len() == 0 {
        0
    } else if children[0].0 == name {
        0
    } else {
        1 + position(children.drop_first(), name)
    }
}

/// No entry before the first one under a name has the name, and the entry
/// at that place has it.
pub proof fn lemma_position(children: Seq<(Seq<char>, Node)>, name: Seq<char>)
    ensures
        0 <= position(children, name) <= children.len(),
        forall|j: int| 0 <= j < position(children, name) ==> children[j].0 != name,
        position(children, name) < children.len() ==> children[position(children, name)].0
            == name,
    decreases children.len(),
{
    if children.len() > 0 && children[0].0 != name {
        let rest = children.drop_first();
        lemma_position(rest, name);
        assert forall|j: int| 0 <= j < position(children, name) implies children[j].0
            != name by {
            if j > 0 {
                assert(children[j] == rest[j - 1]);
            }
        }
        if position(children, name) < children.len() {
            assert(children[position(children, name)] == rest[position(rest, name)]);
        }
    }
}

/// The latest timestamp among the first `n` entries of a directory.
pub open spec fn latest(children: Seq<(Seq<char>, Node)>, n: nat) -> Timespec
    decreases children, n,
{
    if n == 0 || n > children.len() {
        Timespec::zero()
    } else if n == 1 {
        children[0].1.timestamp()
    } else {
        latest(children, (n - 1) as nat).later(children[n - 1].1.timestamp())
    }
}

/// Whether the name of an item or a link at an index is not taken in a
/// directory.
pub open spec fn is_free(children: Seq<(Seq<char>, Node)>, leaf: Node, index: nat) -> bool {
    position(children, leaf.leaf_name(index)) == children.len()
}

/// Whether an index is the first at which the name of an item or a link is
/// free in a directory.
pub open spec fn is_first_free(children: Seq<(Seq<char>, Node)>, leaf: Node, index: nat) -> bool {
    &&& is_free(children, leaf, index)
    &&& forall|j: nat| j < index ==> !is_free(children, leaf, j)
}

/// The first index at which the name of an item or a link is free in a
/// directory.
pub open spec fn free_index(children: Seq<(Seq<char>, Node)>, leaf: Node) -> nat {
    choose|k: nat| is_first_free(children, leaf, k)
}

/// The places in a directory that hold a name of an item or a link at an
/// index from `from` on.
pub open spec fn taken(children: Seq<(Seq<char>, Node)>, leaf: Node, from: nat) -> Set<int> {
    Set::new(
        |p: int|
            0 <= p < children.len() && exists|k: nat|
                k >= from && children[p].0 == #[trigger] leaf.leaf_name(k),
    )
}

proof fn lemma_taken_bounded(children: Seq<(Seq<char>, Node)>, leaf: Node, from: nat)
    ensures
        taken(children, leaf, from).finite(),
        taken(children, leaf, from).len() <= children.len(),
{
    let range = vstd::set_lib::set_int_range(0, children.len() as int);
    vstd::set_lib::lemma_int_range(0, children.len() as int);
    assert(taken(children, leaf, from).subset_of(range));
    vstd::set_lib::lemma_len_subset(taken(children, leaf, from), range);
}

proof fn lemma_taken_shrinks(children: Seq<(Seq<char>, Node)>, leaf: Node, index: nat, p: int)
    requires
        !(leaf is Directory),
        0 <= p < children.len(),
        children[p].0 == leaf.leaf_name(index),
    ensures
        taken(children, leaf, index + 1).len() < taken(children, leaf, index).len(),
{
    let before = taken(children, leaf, index);
    let after = taken(children, leaf, index + 1);
    lemma_taken_bounded(children, leaf, index);
    lemma_taken_bounded(children, leaf, index + 1);
    assert(before.contains(p));
    assert forall|q: int| after.contains(q) implies before.remove(p).contains(q) by {
        let k = choose|k: nat| k >= index + 1 && children[q].0 == #[trigger] leaf.leaf_name(k);
        assert(before.contains(q));
        if q == p {
            lemma_leaf_name_injective(leaf, index, k);
        }
    }
    assert(after.subset_of(before.remove(p)));
    vstd::set_lib::lemma_len_subset(after, before.remove(p));
}

/// The names of an item or a link at two indices differ.
pub proof fn lemma_leaf_name_injective(leaf: Node, j: nat, k: nat)
    requires
        !(leaf is Directory),
        leaf.leaf_name(j) == leaf.leaf_name(k),
    ensures
        j == k,
{
    match leaf {
        Node::Item(item) => {
            crate::path::lemma_name_text_injective(item.timestamp.text(), item.extension(), j, k);
        },
        Node::Link(_, target) => {
            crate::path::lemma_name_text_injective(
                match file_stem_of(target) {
                    Some(stem) => stem,
                    None => "bin"@,
                },
                match extension_of(target) {
                    Some(ext) => ext,
                    None => "bin"@,
                },
                j,
                k,
            );
        },
        Node::Directory(_) => {},
    }
}

/// Some index is the first at which the name of an item or a link is free.
pub proof fn lemma_first_free_exists(children: Seq<(Seq<char>, Node)>, leaf: Node)
    requires
        !(leaf is Directory),
    ensures
        is_first_free(children, leaf, free_index(children, leaf)),
{
    lemma_taken_bounded(children, leaf, 0);
    lemma_first_free_from(children, leaf, 0);
}

proof fn lemma_first_free_from(children: Seq<(Seq<char>, Node)>, leaf: Node, index: nat)
    requires
        !(leaf is Directory),
        forall|j: nat| j < index ==> !is_free(children, leaf, j),
    ensures
        exists|k: nat| is_first_free(children, leaf, k),
    decreases taken(children, leaf, index).len(),
{
    if is_free(children, leaf, index) {
        assert(is_first_free(children, leaf, index));
    } else {
        let p = position(children, leaf.leaf_name(index));
        lemma_position(children, leaf.leaf_name(index));
        lemma_taken_shrinks(children, leaf, index, p);
        lemma_first_free_from(children, leaf, index + 1);
    }
}

/// There is one first free index, and it is the one `free_index` names.
pub proof fn lemma_free_index(children: Seq<(Seq<char>, Node)>, leaf: Node, index: nat)
    requires
        is_first_free(children, leaf, index),
    ensures
        free_index(children, leaf) == index,
{
    let k = free_index(children, leaf);
    assert(is_first_free(children, leaf, k));
    if k < index {
        assert(!is_free(children, leaf, k));
    }
    if index < k {
        assert(!is_free(children, leaf, index));
    }
}

impl Node {
    /// The entries of a directory; none for another entry.
    pub open spec fn entries(self) -> Seq<(Seq<char>, Node)> {
        match self {
            Node::Directory(children) => children,
            _ => Seq::empty(),
        }
    }

    /// The entry of a directory under a name.
    pub open spec fn child(self, name: Seq<char>) -> Option<Node> {
        let i = position(self.entries(), name);
        if i < self.entries().len() {
            Some(self.entries()[i].1)
        } else {
            None
        }
    }

    /// The entry that a path leads to from this one. The root and `.` stay
    /// where they are; a name goes into a directory; `..` leads nowhere.
    pub open spec fn resolve(self, path: Seq<Step>) -> Option<Node>
        decreases path.len(),
    {
        if path.len() == 0 {
            Some(self)
        } else {
            match path.first() {
                Step::RootDir | Step::CurDir => self.resolve(path.drop_first()),
                Step::ParentDir => None,
                Step::Normal(name) => match self.child(name) {
                    Some(below) => below.resolve(path.drop_first()),
                    None => None,
                },
            }
        }
    }

    /// The timestamp of an entry: its own for an item or a link, and for a
    /// directory the latest of its entries', or the epoch where it is empty.
    pub open spec fn timestamp(self) -> Timespec
        decreases self,
    {
        match self {
            Node::Directory(children) => latest(children, children.len()),
            Node::Item(item) => item.timestamp.timespec(),
            Node::Link(timestamp, _) => timestamp,
        }
    }

    /// The name of an item or a link at an index.
    pub open spec fn leaf_name(self, index: nat) -> Seq<char> {
        match self {
            Node::Item(item) => name_text(item.timestamp.text(), item.extension(), index),
            Node::Link(_, target) => name_text(
                match file_stem_of(target) {
                    Some(stem) => stem,
                    None => "bin"@,
                },
                match extension_of(target) {
                    Some(ext) => ext,
                    None => "bin"@,
                },
                index,
            ),
            Node::Directory(_) => Seq::empty(),
        }
    }

    /// The tree with the directories that a path names made where they were
    /// missing, as far as the path can be walked: it ends at `..` and at an
    /// entry that is no directory.
    pub open spec fn ensured(self, path: Seq<Step>) -> Node
        decreases path.len(),
    {
        if path.len() == 0 {
            self
        } else {
            match path.first() {
                Step::RootDir | Step::CurDir => self.ensured(path.drop_first()),
                Step::ParentDir => self,
                Step::Normal(name) => match self {
                    Node::Directory(children) => {
                        let i = position(children, name);
                        if i < children.len() {
                            Node::Directory(
                                children.update(
                                    i,
                                    (children[i].0, children[i].1.ensured(path.drop_first())),
                                ),
                            )
                        } else {
                            Node::Directory(
                                children.push(
                                    (
                                        name,
                                        Node::Directory(Seq::empty()).ensured(path.drop_first()),
                                    ),
                                ),
                            )
                        }
                    },
                    _ => self,
                },
            }
        }
    }

    /// The tree with an item or a link put into the directory that a path
    /// leads to, under the first name of the item or link that is free
    /// there, and that name; `None` where the path does not lead to a
    /// directory.
    pub open spec fn inserted(self, path: Seq<Step>, leaf: Node) -> Option<(Node, Seq<char>)>
        decreases path.len(),
    {
        if path.len() == 0 {
            match self {
                Node::Directory(children) => {
                    let name = leaf.leaf_name(free_index(children, leaf));
                    Some((Node::Directory(children.push((name, leaf))), name))
                },
                _ => None,
            }
        } else {
            match path.first() {
                Step::RootDir | Step::CurDir => self.inserted(path.drop_first(), leaf),
                Step::ParentDir => None,
                Step::Normal(name) => {
                    let children = self.entries();
                    let i = position(children, name);
                    if i < children.len() {
                        match children[i].1.inserted(path.drop_first(), leaf) {
                            Some((below, given)) => Some(
                                (Node::Directory(children.update(i, (children[i].0, below))), given),
                            ),
                            None => None,
                        }
                    } else {
                        None
                    }
                },
            }
        }
    }

    /// Whether no directory below or at this entry holds a name twice.
    pub open spec fn names_unique(self) -> bool
        decreases self,
    {
        match self {
            Node::Directory(children) => {
                &&& forall|i: int, j: int|
                    0 <= i < j < children.len() ==> children[i].0 != children[j].0
                &&& forall|i: int|
                    0 <= i < children.len() ==> (#[trigger] children[i]).1.names_unique()
            },
            _ => true,
        }
    }
}

fn find(children: &Vec<Child>, name: &str) -> (r: usize)
    ensures
        r == position(views_of(children@), name@),
        r <= children.len(),
{
    let mut i: usize = 0;
    while i < children.len()
        invariant
            i <= children.len(),
            forall|j: int| 0 <= j < i ==> views_of(children@)[j].0 != name@,
        decreases children.len() - i,
    {
        if crate::text::same_text(children[i].name.as_str(), name) {
            proof {
                assert(views_of(children@)[i as int].0 == name@);
                lemma_position(views_of(children@), name@);
            }
            return i;
        }
        i += 1;
    }
    proof {
        lemma_position(views_of(children@), name@);
    }
    i
}

impl Entry {
    /// The timestamp of this entry: its own for an item or a link, and for
    /// a directory the latest of its entries', or the epoch where it is
    /// empty.
    pub fn timestamp(&self) -> (r: Timespec)
        ensures
            r == self@.timestamp(),
        decreases self,
    {
        match self {
            Entry::Directory(children) => {
                proof {
                    lemma_directory_view(*self);
                }
                let mut r = Timespec::new(0, 0);
                let mut i: usize = 0;
                while i < children.len()
                    invariant
                        i <= children.len(),
                        self == Entry::Directory(*children),
                        r == latest(views_of(children@), i as nat),
                    decreases children.len() - i,
                {
                    proof {
                        vstd::std_specs::vec::axiom_vec_index_decreases(*children, i as int);
                        assert(decreases_to!(*self => self->Directory_0));
                    }
                    let t = children[i].entry.timestamp();
                    if i == 0 {
                        r = t;
                    } else {
                        r = r.max(t);
                    }
                    i += 1;
                }
                r
            },
            Entry::Item(item) => item.timestamp.to_timespec(),
            Entry::Link(timestamp, _) => *timestamp,
        }
    }

    /// The name of an item or a link at an index.
    pub fn name(&self, index: usize) -> (r: String)
        requires
            !(self is Directory),
        ensures
            r@ == self@.leaf_name(index as nat),
    {
        match self {
            Entry::Item(item) => name(item, item, index),
            Entry::Link(_, target) => {
                let path = Path::new(target.as_str());
                name(&path, &path, index)
            },
            Entry::Directory(_) => String::new(),
        }
    }

    /// Empties a directory; an item or a link stays as it is.
    pub fn clear(&mut self)
        ensures
            *old(self) is Directory ==> final(self)@ == Node::Directory(Seq::empty()),
            !(*old(self) is Directory) ==> *final(self) == *old(self),
    {
        match self {
            Entry::Directory(children) => {
                children.clear();
                proof {
                    lemma_directory_view(*final(self));
                    assert(views_of(final(children)@) =~= Seq::empty());
                }
            },
            _ => {},
        }
    }
}

/// The steps of a path from its `from`-th on.
pub open spec fn steps_from(path: Seq<Component>, from: int) -> Seq<Step> {
    steps(path).skip(from)
}

/// Puts an item or a link into a directory, under the first of its names
/// that is free there, and returns the path of the new entry: that of the
/// directory, a slash, and the name.
pub fn add_with_index(directory: &str, tree: &mut Vec<Child>, entry: Entry) -> (r: String)
    requires
        !(entry is Directory),
    ensures
        final(tree)@.len() == old(tree)@.len() + 1,
        final(tree)@.drop_last() == old(tree)@,
        final(tree)@.last().entry == entry,
        final(tree)@.last().name@ == entry@.leaf_name(
            free_index(views_of(old(tree)@), entry@),
        ),
        r@ == directory@ + seq!['/'] + final(tree)@.last().name@,
{
    let ghost kids = views_of(tree@);
    let ghost leaf = entry@;
    let mut index: usize = 0;
    proof {
        lemma_taken_bounded(kids, leaf, 0);
    }
    loop
        invariant
            tree@ == old(tree)@,
            kids == views_of(tree@),
            leaf == entry@,
            !(entry is Directory),
            forall|j: nat| j < index ==> !is_free(kids, leaf, j),
            index + taken(kids, leaf, index as nat).len() <= kids.len(),
        decreases taken(kids, leaf, index as nat).len(),
    {
        let candidate = entry.name(index);
        let p = find(tree, candidate.as_str());
        if p == tree.len() {
            proof {
                assert(is_first_free(kids, leaf, index as nat));
                lemma_free_index(kids, leaf, index as nat);
            }
            let mut path = String::from_str(directory);
            crate::text::push_char(&mut path, '/');
            path.append(candidate.as_str());
            tree.push(Child { name: candidate, entry });
            assert(tree@.drop_last() =~= old(tree)@);
            return path;
        }
        proof {
            lemma_position(kids, candidate@);
            lemma_taken_shrinks(kids, leaf, index as nat, p as int);
            assert(!is_free(kids, leaf, index as nat));
        }
        index += 1;
    }
}

impl Entry {
    /// Makes the directories that a path names, from its `from`-th step on,
    /// where they are missing.
    fn ensure(&mut self, path: &Vec<Component>, from: usize)
        requires
            from <= path.len(),
        ensures
            final(self)@ == old(self)@.ensured(steps_from(path@, from as int)),
        decreases path.len() - from,
    {
        if from == path.len() {
            return;
        }
        let ghost rest = steps_from(path@, from + 1);
        proof {
            assert(steps_from(path@, from as int).drop_first() =~= rest);
            assert(steps_from(path@, from as int).first() == path@[from as int]@);
        }
        match &path[from] {
            Component::RootDir | Component::CurDir => self.ensure(path, from + 1),
            Component::ParentDir => {},
            Component::Normal(name) => match self {
                Entry::Directory(children) => {
                    proof {
                        lemma_directory_view(*old(self));
                    }
                    let ghost before = children@;
                    let i = find(children, name.as_str());
                    if i == children.len() {
                        let fresh = Entry::Directory(Vec::new());
                        proof {
                            lemma_directory_view(fresh);
                            assert(views_of(Seq::<Child>::empty()) =~= Seq::empty());
                        }
                        children.push(Child { name: name.clone(), entry: fresh });
                    }
                    let ghost middle = children@;
                    proof {
                        lemma_position(views_of(before), name@);
                    }
                    let child = &mut children[i];
                    child.entry.ensure(path, from + 1);
                    proof {
                        lemma_directory_view(*final(self));
                        let after = final(children)@;
                        assert(after == middle.update(i as int, after[i as int]));
                        assert(after[i as int].name == middle[i as int].name);
                        assert(after[i as int].entry@ == middle[i as int].entry@.ensured(rest));
                        let expected = old(self)@.ensured(steps_from(path@, from as int));
                        assert(views_of(after) =~= expected->Directory_0);
                    }
                },
                _ => {},
            },
        }
    }

    /// Puts an item or a link into the directory that a path leads to, from
    /// its `from`-th step on, and returns the path of the new entry; where
    /// the path does not lead to a directory, hands the item or link back.
    fn insert(&mut self, path: &Vec<Component>, from: usize, directory: &str, leaf: Entry) -> (r:
        Result<String, Entry>)
        requires
            from <= path.len(),
            !(leaf is Directory),
        ensures
            r is Ok == old(self)@.inserted(steps_from(path@, from as int), leaf@) is Some,
            r is Ok ==> {
                let (tree, name) = old(self)@.inserted(
                    steps_from(path@, from as int),
                    leaf@,
                ).unwrap();
                &&& final(self)@ == tree
                &&& r.unwrap()@ == directory@ + seq!['/'] + name
            },
            r is Err ==> r.unwrap_err() == leaf && final(self)@ == old(self)@,
        decreases path.len() - from,
    {
        if from == path.len() {
            return match self {
                Entry::Directory(children) => {
                    proof {
                        lemma_directory_view(*old(self));
                    }
                    let r = add_with_index(directory, children, leaf);
                    proof {
                        lemma_directory_view(*final(self));
                        let after = final(children)@;
                        let before = old(self)->Directory_0@;
                        assert(after.drop_last() == before);
                        assert(views_of(after) =~= views_of(before).push(
                            (after.last().name@, leaf@),
                        ));
                    }
                    Ok(r)
                },
                _ => Err(leaf),
            };
        }
        let ghost rest = steps_from(path@, from + 1);
        proof {
            assert(steps_from(path@, from as int).drop_first() =~= rest);
            assert(steps_from(path@, from as int).first() == path@[from as int]@);
        }
        match &path[from] {
            Component::RootDir | Component::CurDir => self.insert(path, from + 1, directory, leaf),
            Component::ParentDir => Err(leaf),
            Component::Normal(name) => match self {
                Entry::Directory(children) => {
                    proof {
                        lemma_directory_view(*old(self));
                    }
                    let ghost before = children@;
                    let i = find(children, name.as_str());
                    if i == children.len() {
                        return Err(leaf);
                    }
                    let child = &mut children[i];
                    let r = child.entry.insert(path, from + 1, directory, leaf);
                    proof {
                        lemma_directory_view(*final(self));
                        let after = final(children)@;
                        assert(after == before.update(i as int, after[i as int]));
                        assert(after[i as int].name == before[i as int].name);
                        if r is Ok {
                            let expected = old(self)@.inserted(
                                steps_from(path@, from as int),
                                leaf@,
                            ).unwrap().0;
                            assert(views_of(after) =~= expected->Directory_0);
                        } else {
                            assert(views_of(after) =~= views_of(before));
                        }
                    }
                    r
                },
                _ => {
                    assert(self@.entries() =~= Seq::empty());
                    Err(leaf)
                },
            },
        }
    }
}

/// The tree after an item or a link is added in a directory, and the path
/// of the new entry. The directories on the way are made where they are
/// missing; where the way is barred, they stay and nothing else is added.
pub open spec fn added(root: Node, directory: Seq<char>, leaf: Node) -> (Node, Option<Seq<char>>) {
    let path = steps_of(directory);
    let tree = root.ensured(path);
    match tree.inserted(path, leaf) {
        Some((with_leaf, name)) => (with_leaf, Some(directory + seq!['/'] + name)),
        None => (tree, None),
    }
}

/// The directory of a day: the root of the timestamps, the year, the month
/// and the day, joined by slashes.
pub open spec fn day_directory(root: Seq<char>, timestamp: Timestamp) -> Seq<char> {
    root + seq!['/'] + decimal(timestamp.year as int) + seq!['/'] + decimal_padded(
        timestamp.month as int,
    ) + seq!['/'] + decimal_padded(timestamp.day as int)
}

/// The directory of a tag: the root of the tags and the parts of the tag,
/// joined by slashes.
pub open spec fn tag_directory(root: Seq<char>, tag: Seq<Seq<char>>) -> Seq<char> {
    root + seq!['/'] + join(tag, SEPARATOR)
}

/// `../`, `n` times.
pub open spec fn ups(n: nat) -> Seq<char>
    decreases n,
{
    if n == 0 {
        Seq::empty()
    } else {
        ups((n - 1) as nat) + seq!['.', '.', '/']
    }
}

/// The path from a directory to an item: one `..` for each step of the
/// directory's path, then the path of the item.
pub open spec fn link_target(directory: Seq<char>, item_path: Seq<char>) -> Seq<char> {
    ups(steps_of(directory).len()) + item_path
}

/// The tree after a link to an item is added for each of the first `n` of
/// its tags. A tag whose directory cannot be had gets no link.
pub open spec fn linked(
    root: Node,
    tagged_root: Seq<char>,
    tags: Seq<Seq<Seq<char>>>,
    n: nat,
    item_path: Seq<char>,
    timestamp: Timespec,
) -> Node
    decreases n,
{
    if n == 0 || n > tags.len() {
        root
    } else {
        let before = linked(root, tagged_root, tags, (n - 1) as nat, item_path, timestamp);
        let directory = tag_directory(tagged_root, tags[n - 1]);
        added(before, directory, Node::Link(timestamp, link_target(directory, item_path))).0
    }
}

/// What a cache holds, as values of specifications.
pub struct CacheView {
    pub root: Node,
    pub timestamp_root: Seq<char>,
    pub tagged_root: Seq<char>,
}

impl CacheView {
    /// The cache after an item is added, and the path of the item: it goes
    /// into the directory of its day, and a link to it into the directory
    /// of each of its tags. `None` where the directory of the day cannot be
    /// had.
    pub open spec fn add(self, item: ItemView) -> (CacheView, Option<Seq<char>>) {
        let (tree, path) = added(
            self.root,
            day_directory(self.timestamp_root, item.timestamp),
            Node::Item(item),
        );
        match path {
            Some(p) => (
                CacheView {
                    root: linked(
                        tree,
                        self.tagged_root,
                        item.tags,
                        item.tags.len(),
                        p,
                        item.timestamp.timespec(),
                    ),
                    ..self
                },
                path,
            ),
            None => (CacheView { root: tree, ..self }, None),
        }
    }

    /// The cache after the first `n` items are added in order, up to and
    /// with the first that cannot be added, and the place of that one.
    pub open spec fn add_all(self, items: Seq<ItemView>, n: nat) -> (CacheView, Option<int>)
        decreases n,
    {
        if n == 0 || n > items.len() {
            (self, None)
        } else {
            let (before, failed) = self.add_all(items, (n - 1) as nat);
            if failed is Some {
                (before, failed)
            } else {
                let (after, path) = before.add(items[n - 1]);
                (after, if path is None { Some(n - 1) } else { None })
            }
        }
    }

    /// The cache with its root emptied.
    pub open spec fn cleared(self) -> CacheView {
        CacheView {
            root: if self.root is Directory {
                Node::Directory(Seq::empty())
            } else {
                self.root
            },
            ..self
        }
    }
}

/// The item that could not be added is one of those that were to be added.
pub proof fn lemma_add_all_failed(cache: CacheView, items: Seq<ItemView>, n: nat)
    ensures
        cache.add_all(items, n).1 is Some ==> 0 <= cache.add_all(items, n).1.unwrap() < n
            && cache.add_all(items, n).1.unwrap() < items.len(),
    decreases n,
{
    if n > 0 && n <= items.len() {
        lemma_add_all_failed(cache, items, (n - 1) as nat);
    }
}

/// The views of a sequence of items.
pub open spec fn item_views(items: Seq<Item>) -> Seq<ItemView> {
    Seq::new(items.len(), |i: int| items[i]@)
}

/// The tree of entries, with the names of its two top directories: that of
/// the items by day, and that of the links by tag.
pub struct Cache {
    root: Entry,
    timestamp_root: String,
    tagged_root: String,
}

impl View for Cache {
    type V = CacheView;

    closed spec fn view(&self) -> CacheView {
        CacheView {
            root: self.root@,
            timestamp_root: self.timestamp_root@,
            tagged_root: self.tagged_root@,
        }
    }
}

fn day_directory_of(root: &str, timestamp: &Timestamp) -> (r: String)
    ensures
        r@ == day_directory(root@, *timestamp),
{
    let mut s = String::from_str(root);
    push_char(&mut s, '/');
    push_decimal(&mut s, timestamp.year() as i64);
    push_char(&mut s, '/');
    push_decimal_padded(&mut s, timestamp.month() as i64);
    push_char(&mut s, '/');
    push_decimal_padded(&mut s, timestamp.day() as i64);
    assert(s@ =~= day_directory(root@, *timestamp));
    s
}

fn tag_directory_of(root: &str, tag: &Tag) -> (r: String)
    ensures
        r@ == tag_directory(root@, tag@),
{
    let mut s = String::from_str(root);
    push_char(&mut s, '/');
    let text = tag.to_string();
    s.append(text.as_str());
    s
}

fn link_target_of(directory: &str, item_path: &str) -> (r: String)
    ensures
        r@ == link_target(directory@, item_path@),
{
    let all = components(directory);
    let mut s = String::new();
    let mut i: usize = 0;
    while i < all.len()
        invariant
            i <= all.len(),
            s@ == ups(i as nat),
        decreases all.len() - i,
    {
        s.append("../");
        proof {
            reveal_strlit("../");
            assert("../"@ =~= seq!['.', '.', '/']);
        }
        i += 1;
    }
    s.append(item_path);
    assert(steps(all@).len() == all.len());
    s
}

impl Cache {
    /// An empty cache.
    pub fn new(timestamp_root: String, tagged_root: String) -> (r: Cache)
        ensures
            r@.root is Directory,
            r@ == (CacheView {
                root: Node::Directory(Seq::empty()),
                timestamp_root: timestamp_root@,
                tagged_root: tagged_root@,
            }),
    {
        let root = Entry::Directory(Vec::new());
        proof {
            lemma_directory_view(root);
            assert(views_of(Seq::<Child>::empty()) =~= Seq::empty());
        }
        Cache { root, timestamp_root, tagged_root }
    }

    /// The entry that a path leads to from the root.
    pub fn lookup(&self, path: &str) -> (r: Option<&Entry>)
        ensures
            r is Some == self@.root.resolve(steps_of(path@)) is Some,
            r is Some ==> r.unwrap()@ == self@.root.resolve(steps_of(path@)).unwrap(),
    {
        let parts = components(path);
        let mut current: &Entry = &self.root;
        let mut i: usize = 0;
        proof {
            assert(steps_from(parts@, 0) =~= steps(parts@));
        }
        while i < parts.len()
            invariant
                i <= parts.len(),
                steps(parts@) == steps_of(path@),
                self.root@.resolve(steps(parts@)) == current@.resolve(steps_from(parts@, i as int)),
            decreases parts.len() - i,
        {
            proof {
                assert(steps_from(parts@, i as int).drop_first() =~= steps_from(parts@, i + 1));
                assert(steps_from(parts@, i as int).first() == parts@[i as int]@);
            }
            match &parts[i] {
                Component::RootDir | Component::CurDir => {},
                Component::ParentDir => {
                    return None;
                },
                Component::Normal(name) => match current {
                    Entry::Directory(children) => {
                        proof {
                            lemma_directory_view(*current);
                        }
                        let p = find(children, name.as_str());
                        if p == children.len() {
                            return None;
                        }
                        current = &children[p].entry;
                    },
                    _ => {
                        assert(current@.entries() =~= Seq::empty());
                        return None;
                    },
                },
            }
            i += 1;
        }
        Some(current)
    }

    /// Makes the directories that a path names where they are missing, and
    /// tells whether the path then leads to an entry.
    pub fn assert_exists(&mut self, path: &str) -> (r: bool)
        ensures
            final(self)@ == (CacheView {
                root: old(self)@.root.ensured(steps_of(path@)),
                ..old(self)@
            }),
            r == final(self)@.root.resolve(steps_of(path@)) is Some,
            old(self)@.root is Directory ==> final(self)@.root is Directory,
    {
        let parts = components(path);
        proof {
            assert(steps_from(parts@, 0) =~= steps(parts@));
            lemma_ensured_extends(self.root@, steps_of(path@));
        }
        self.root.ensure(&parts, 0);
        self.lookup(path).is_some()
    }

    /// Adds an item in a directory, which is made where it is missing, and
    /// returns the path of the item. Where the directory cannot be had, the
    /// item comes back.
    pub fn add_item(&mut self, directory: &str, item: Item) -> (r: Result<String, Item>)
        ensures
            final(self)@ == (CacheView {
                root: added(old(self)@.root, directory@, Node::Item(item@)).0,
                ..old(self)@
            }),
            r is Ok == added(old(self)@.root, directory@, Node::Item(item@)).1 is Some,
            r is Ok ==> r.unwrap()@ == added(
                old(self)@.root,
                directory@,
                Node::Item(item@),
            ).1.unwrap(),
            r is Err ==> r.unwrap_err() == item,
            old(self)@.root is Directory ==> final(self)@.root is Directory,
    {
        let parts = components(directory);
        proof {
            assert(steps_from(parts@, 0) =~= steps(parts@));
            lemma_added_extends(self.root@, directory@, Node::Item(item@));
        }
        self.root.ensure(&parts, 0);
        match self.root.insert(&parts, 0, directory, Entry::Item(item)) {
            Ok(path) => Ok(path),
            Err(Entry::Item(item)) => Err(item),
            Err(_) => vstd::pervasive::unreached(),
        }
    }

    /// Adds a link to an item in a directory, which is made where it is
    /// missing. Where the directory cannot be had, no link is added.
    pub fn add_link(&mut self, directory: &str, item_path: &str, timestamp: Timespec)
        ensures
            final(self)@ == (CacheView {
                root: added(
                    old(self)@.root,
                    directory@,
                    Node::Link(timestamp, link_target(directory@, item_path@)),
                ).0,
                ..old(self)@
            }),
            old(self)@.root is Directory ==> final(self)@.root is Directory,
    {
        let parts = components(directory);
        proof {
            assert(steps_from(parts@, 0) =~= steps(parts@));
            lemma_added_extends(
                self.root@,
                directory@,
                Node::Link(timestamp, link_target(directory@, item_path@)),
            );
        }
        self.root.ensure(&parts, 0);
        let target = link_target_of(directory, item_path);
        let _ = self.root.insert(&parts, 0, directory, Entry::Link(timestamp, target));
    }

    /// Adds an item under the day of its timestamp, with a link to it under
    /// each of its tags, and returns the path of the item. Where the
    /// directory of the day cannot be had, the item comes back.
    pub fn add(&mut self, item: Item) -> (r: Result<String, Item>)
        ensures
            final(self)@ == old(self)@.add(item@).0,
            r is Ok == old(self)@.add(item@).1 is Some,
            r is Ok ==> r.unwrap()@ == old(self)@.add(item@).1.unwrap(),
            r is Ok ==> final(self)@.root.resolve(steps_of(r.unwrap()@)) == Some(
                Node::Item(item@),
            ),
            r is Err ==> r.unwrap_err() == item,
            old(self)@.root is Directory ==> final(self)@.root is Directory,
    {
        proof {
            lemma_add_extends(self@, item@);
            if self@.add(item@).1 is Some {
                lemma_add_then_lookup(self@, item@);
            }
        }
        let directory = day_directory_of(self.timestamp_root.as_str(), &item.timestamp);
        let timestamp = item.timestamp.to_timespec();
        let mut directories: Vec<String> = Vec::new();
        let mut i: usize = 0;
        while i < item.tags.len()
            invariant
                i <= item.tags.len(),
                directories.len() == i,
                forall|j: int|
                    0 <= j < i ==> directories@[j]@ == tag_directory(
                        self.tagged_root@,
                        item.tags@[j]@,
                    ),
            decreases item.tags.len() - i,
        {
            directories.push(tag_directory_of(self.tagged_root.as_str(), &item.tags[i]));
            i += 1;
        }
        let ghost tags = item@.tags;
        let ghost start = old(self)@;
        match self.add_item(directory.as_str(), item) {
            Err(item) => Err(item),
            Ok(path) => {
                let ghost tree = self@.root;
                let mut j: usize = 0;
                while j < directories.len()
                    invariant
                        j <= directories.len(),
                        directories.len() == tags.len(),
                        forall|k: int|
                            0 <= k < directories.len() ==> directories@[k]@ == tag_directory(
                                start.tagged_root,
                                tags[k],
                            ),
                        self@ == (CacheView {
                            root: linked(
                                tree,
                                start.tagged_root,
                                tags,
                                j as nat,
                                path@,
                                timestamp,
                            ),
                            ..start
                        }),
                    decreases directories.len() - j,
                {
                    self.add_link(directories[j].as_str(), path.as_str(), timestamp);
                    j += 1;
                }
                Ok(path)
            },
        }
    }

    /// Adds items in order, up to the first that cannot be added, which
    /// comes back.
    pub fn add_iter(&mut self, items: Vec<Item>) -> (r: Result<(), Option<Item>>)
        ensures
            final(self)@ == old(self)@.add_all(item_views(items@), items@.len()).0,
            r is Ok == old(self)@.add_all(item_views(items@), items@.len()).1 is None,
            r is Err ==> r.unwrap_err() == Some(
                items@[old(self)@.add_all(item_views(items@), items@.len()).1.unwrap()],
            ),
            old(self)@.root is Directory ==> final(self)@.root is Directory,
    {
        let ghost all = item_views(items@);
        let ghost start = self@;
        let ghost given = items@;
        let mut failed: Option<Item> = None;
        for item in it: items
            invariant
                it.seq() == given,
                all == item_views(given),
                self@ == start.add_all(all, it.index() as nat).0,
                start.root is Directory ==> self@.root is Directory,
                failed is None == start.add_all(all, it.index() as nat).1 is None,
                failed is Some ==> failed == Some(
                    given[start.add_all(all, it.index() as nat).1.unwrap()],
                ),
        {
            if failed.is_none() {
                match self.add(item) {
                    Ok(_) => {},
                    Err(item) => {
                        failed = Some(item);
                    },
                }
            }
        }
        match failed {
            None => Ok(()),
            Some(item) => Err(Some(item)),
        }
    }

    /// Empties the cache, then adds items in order, up to the first that
    /// cannot be added, which comes back.
    pub fn replace_all(&mut self, items: Vec<Item>) -> (r: Result<(), Option<Item>>)
        ensures
            final(self)@ == old(self)@.cleared().add_all(item_views(items@), items@.len()).0,
            r is Ok == old(self)@.cleared().add_all(item_views(items@), items@.len()).1 is None,
            r is Err ==> r.unwrap_err() == Some(
                items@[old(self)@.cleared().add_all(item_views(items@), items@.len()).1.unwrap()],
            ),
            old(self)@.root is Directory ==> final(self)@.root is Directory,
    {
        self.root.clear();
        self.add_iter(items)
    }

    /// Empties the cache.
    pub fn clear(&mut self)
        ensures
            final(self)@ == old(self)@.cleared(),
            old(self)@.root is Directory ==> final(self)@.root == Node::Directory(Seq::empty()),
    {
        self.root.clear();
    }
}

} // verus!
