//! What holds of the tree whatever is added to it.

use vstd::prelude::*;
use vstd::multiset::Multiset;
use crate::cache::{added, day_directory, free_index, is_first_free, is_free, latest,
    lemma_position, link_target, linked, position, tag_directory, CacheView, Node};
use crate::item::ItemView;
use crate::path::{index_suffix, is_plain_name, name_text, steps_of, Step};
use crate::text::decimal;
use crate::time::{is_timestamp_char, Timespec, Timestamp};

verus! {

/// Where a name is found after one more entry was put behind the others.
pub proof fn lemma_position_push(
    children: Seq<(Seq<char>, Node)>,
    last: (Seq<char>, Node),
    name: Seq<char>,
)
    ensures
        position(children, name) < children.len() ==> position(children.push(last), name)
            == position(children, name),
        position(children, name) == children.len() && last.0 == name ==> position(
            children.push(last),
            name,
        ) == children.len(),
        position(children, name) == children.len() && last.0 != name ==> position(
            children.push(last),
            name,
        ) == children.len() + 1,
{
    let longer = children.push(last);
    lemma_position(children, name);
    lemma_position(longer, name);
    let p = position(children, name);
    let q = position(longer, name);
    if p < children.len() {
        assert(longer[p] == children[p]);
        if q < p {
            assert(longer[q] == children[q]);
        }
    } else {
        if q < children.len() {
            assert(longer[q] == children[q]);
        }
        if last.0 == name {
            assert(longer[children.len() as int] == last);
        }
    }
}

/// Where a name is found after the entry at one place was changed under
/// its name.
pub proof fn lemma_position_update(
    children: Seq<(Seq<char>, Node)>,
    i: int,
    below: Node,
    name: Seq<char>,
)
    requires
        0 <= i < children.len(),
    ensures
        position(children.update(i, (children[i].0, below)), name) == position(children, name),
{
    let changed = children.update(i, (children[i].0, below));
    lemma_position(children, name);
    lemma_position(changed, name);
    let p = position(children, name);
    let q = position(changed, name);
    if q < p {
        assert(changed[q].0 == children[q].0);
    }
    if p < q {
        assert(changed[p].0 == children[p].0);
    }
}

/// Whether `after` holds all that `before` holds: an item or a link is
/// the same, and a directory has its entries of before in their places,
/// each under its name and holding all that it held.
pub open spec fn extends(before: Node, after: Node) -> bool
    decreases before,
{
    match before {
        Node::Directory(children) => {
            &&& after is Directory
            &&& after.entries().len() >= children.len()
            &&& forall|i: int|
                0 <= i < children.len() ==> {
                    &&& (#[trigger] after.entries()[i]).0 == children[i].0
                    &&& extends(children[i].1, after.entries()[i].1)
                }
        },
        _ => after == before,
    }
}

/// An entry holds all that it holds.
pub proof fn lemma_extends_itself(node: Node)
    ensures
        extends(node, node),
    decreases node,
{
    match node {
        Node::Directory(children) => {
            assert forall|i: int| 0 <= i < children.len() implies extends(
                children[i].1,
                (#[trigger] node.entries()[i]).1,
            ) by {
                lemma_extends_itself(children[i].1);
            }
        },
        _ => {},
    }
}

/// A path that led to an entry still leads to one that holds all that the
/// first held.
pub proof fn lemma_extends_resolve(before: Node, after: Node, path: Seq<Step>)
    requires
        extends(before, after),
        before.resolve(path) is Some,
    ensures
        after.resolve(path) is Some,
        extends(before.resolve(path).unwrap(), after.resolve(path).unwrap()),
    decreases path.len(),
{
    if path.len() > 0 {
        match path.first() {
            Step::RootDir | Step::CurDir => {
                lemma_extends_resolve(before, after, path.drop_first());
            },
            Step::ParentDir => {},
            Step::Normal(name) => {
                let old_children = before.entries();
                let new_children = after.entries();
                lemma_position(old_children, name);
                lemma_position(new_children, name);
                let p = position(old_children, name);
                let q = position(new_children, name);
                assert(p < old_children.len());
                assert(before is Directory);
                assert(new_children[p].0 == old_children[p].0);
                if q < p {
                    assert(new_children[q].0 == old_children[q].0);
                }
                assert(q == p);
                lemma_extends_resolve(old_children[p].1, new_children[p].1, path.drop_first());
            },
        }
    }
}

/// Making directories along a path takes nothing away.
pub proof fn lemma_ensured_extends(node: Node, path: Seq<Step>)
    ensures
        extends(node, node.ensured(path)),
    decreases path.len(),
{
    lemma_extends_itself(node);
    if path.len() > 0 {
        match path.first() {
            Step::RootDir | Step::CurDir => {
                lemma_ensured_extends(node, path.drop_first());
            },
            Step::ParentDir => {},
            Step::Normal(name) => match node {
                Node::Directory(children) => {
                    let after = node.ensured(path);
                    let i = position(children, name);
                    lemma_position(children, name);
                    if i < children.len() {
                        lemma_ensured_extends(children[i].1, path.drop_first());
                    }
                    assert forall|j: int| 0 <= j < children.len() implies {
                        &&& (#[trigger] after.entries()[j]).0 == children[j].0
                        &&& extends(children[j].1, after.entries()[j].1)
                    } by {
                        if j != i {
                            lemma_extends_itself(children[j].1);
                        }
                    }
                },
                _ => {},
            },
        }
    }
}

/// Putting an entry into a directory takes nothing away.
pub proof fn lemma_inserted_extends(node: Node, path: Seq<Step>, leaf: Node)
    requires
        node.inserted(path, leaf) is Some,
    ensures
        extends(node, node.inserted(path, leaf).unwrap().0),
    decreases path.len(),
{
    let after = node.inserted(path, leaf).unwrap().0;
    if path.len() == 0 {
        let children = node.entries();
        assert forall|j: int| 0 <= j < children.len() implies {
            &&& (#[trigger] after.entries()[j]).0 == children[j].0
            &&& extends(children[j].1, after.entries()[j].1)
        } by {
            lemma_extends_itself(children[j].1);
        }
    } else {
        match path.first() {
            Step::RootDir | Step::CurDir => {
                lemma_inserted_extends(node, path.drop_first(), leaf);
            },
            Step::ParentDir => {},
            Step::Normal(name) => {
                let children = node.entries();
                let i = position(children, name);
                lemma_position(children, name);
                lemma_inserted_extends(children[i].1, path.drop_first(), leaf);
                assert(node is Directory);
                assert forall|j: int| 0 <= j < children.len() implies {
                    &&& (#[trigger] after.entries()[j]).0 == children[j].0
                    &&& extends(children[j].1, after.entries()[j].1)
                } by {
                    if j != i {
                        lemma_extends_itself(children[j].1);
                    }
                }
            },
        }
    }
}

/// An entry that was put into a directory is found under the name it was
/// given, at the end of the path to the directory.
pub proof fn lemma_inserted_resolves(node: Node, path: Seq<Step>, leaf: Node)
    requires
        !(leaf is Directory),
        node.inserted(path, leaf) is Some,
    ensures
        node.inserted(path, leaf).unwrap().0.resolve(
            path.push(Step::Normal(node.inserted(path, leaf).unwrap().1)),
        ) == Some(leaf),
    decreases path.len(),
{
    let (after, name) = node.inserted(path, leaf).unwrap();
    let longer = path.push(Step::Normal(name));
    assert(longer.drop_first() =~= if path.len() == 0 {
        Seq::empty()
    } else {
        path.drop_first().push(Step::Normal(name))
    });
    if path.len() == 0 {
        let children = node.entries();
        crate::cache::lemma_first_free_exists(children, leaf);
        lemma_position_push(children, (name, leaf), name);
        assert(after.child(name) == Some(leaf));
        assert(leaf.resolve(Seq::empty()) == Some(leaf));
    } else {
        assert(longer.first() == path.first());
        match path.first() {
            Step::RootDir | Step::CurDir => {
                lemma_inserted_resolves(node, path.drop_first(), leaf);
            },
            Step::ParentDir => {},
            Step::Normal(step) => {
                let children = node.entries();
                let i = position(children, step);
                lemma_position(children, step);
                lemma_inserted_resolves(children[i].1, path.drop_first(), leaf);
                let below = children[i].1.inserted(path.drop_first(), leaf).unwrap().0;
                lemma_position_update(children, i, below, step);
            },
        }
    }
}

/// Holding all that another entry holds carries over.
pub proof fn lemma_extends_transitive(a: Node, b: Node, c: Node)
    requires
        extends(a, b),
        extends(b, c),
    ensures
        extends(a, c),
    decreases a,
{
    match a {
        Node::Directory(children) => {
            assert forall|i: int| 0 <= i < children.len() implies {
                &&& (#[trigger] c.entries()[i]).0 == children[i].0
                &&& extends(children[i].1, c.entries()[i].1)
            } by {
                assert(b.entries()[i].0 == children[i].0);
                assert(b is Directory);
                lemma_extends_transitive(children[i].1, b.entries()[i].1, c.entries()[i].1);
            }
        },
        _ => {},
    }
}

/// Adding an item or a link takes nothing away.
pub proof fn lemma_added_extends(root: Node, directory: Seq<char>, leaf: Node)
    ensures
        extends(root, added(root, directory, leaf).0),
{
    let path = steps_of(directory);
    let tree = root.ensured(path);
    lemma_ensured_extends(root, path);
    if tree.inserted(path, leaf) is Some {
        lemma_inserted_extends(tree, path, leaf);
        lemma_extends_transitive(root, tree, tree.inserted(path, leaf).unwrap().0);
    }
}

/// Adding the links of an item takes nothing away.
pub proof fn lemma_linked_extends(
    root: Node,
    tagged_root: Seq<char>,
    tags: Seq<Seq<Seq<char>>>,
    n: nat,
    item_path: Seq<char>,
    timestamp: Timespec,
)
    ensures
        extends(root, linked(root, tagged_root, tags, n, item_path, timestamp)),
    decreases n,
{
    if n == 0 || n > tags.len() {
        lemma_extends_itself(root);
    } else {
        let before = linked(root, tagged_root, tags, (n - 1) as nat, item_path, timestamp);
        lemma_linked_extends(root, tagged_root, tags, (n - 1) as nat, item_path, timestamp);
        let directory = tag_directory(tagged_root, tags[n - 1]);
        let link = Node::Link(timestamp, link_target(directory, item_path));
        lemma_added_extends(before, directory, link);
        lemma_extends_transitive(root, before, added(before, directory, link).0);
    }
}

/// Nothing leaves the cache when an item is added: what a path led to, it
/// still leads to, and an item or a link there is unchanged.
pub proof fn lemma_add_extends(cache: CacheView, item: ItemView)
    ensures
        extends(cache.root, cache.add(item).0.root),
        cache.add(item).0.timestamp_root == cache.timestamp_root,
        cache.add(item).0.tagged_root == cache.tagged_root,
{
    let directory = day_directory(cache.timestamp_root, item.timestamp);
    let (tree, path) = added(cache.root, directory, Node::Item(item));
    lemma_added_extends(cache.root, directory, Node::Item(item));
    if path is Some {
        lemma_linked_extends(
            tree,
            cache.tagged_root,
            item.tags,
            item.tags.len(),
            path.unwrap(),
            item.timestamp.timespec(),
        );
        lemma_extends_transitive(cache.root, tree, cache.add(item).0.root);
    }
}

/// Nothing leaves the cache when items are added.
pub proof fn lemma_add_all_extends(cache: CacheView, items: Seq<ItemView>, n: nat)
    ensures
        extends(cache.root, cache.add_all(items, n).0.root),
        cache.add_all(items, n).0.timestamp_root == cache.timestamp_root,
        cache.add_all(items, n).0.tagged_root == cache.tagged_root,
    decreases n,
{
    if n == 0 || n > items.len() {
        lemma_extends_itself(cache.root);
    } else {
        let (before, failed) = cache.add_all(items, (n - 1) as nat);
        lemma_add_all_extends(cache, items, (n - 1) as nat);
        if failed is None {
            lemma_add_extends(before, items[n - 1]);
            lemma_extends_transitive(cache.root, before.root, before.add(items[n - 1]).0.root);
        }
    }
}

/// The name of an item at any index is a plain name.
pub proof fn lemma_item_name_plain(item: ItemView, index: nat)
    ensures
        is_plain_name(Node::Item(item).leaf_name(index)),
{
    crate::media::lemma_extension_without_slash(
        item.media_type,
        crate::media::known_extensions(item.media_type),
    );
    let text = item.timestamp.text();
    let suffix = index_suffix(index);
    let extension = item.extension();
    let name = name_text(text, extension, index);
    crate::time::lemma_timestamp_text(item.timestamp);
    crate::text::lemma_decimal_chars(index as int);
    assert(name[0] == text[0]);
    assert(name != seq!['.']) by {
        assert(seq!['.'][0] == '.');
    }
    assert(name != seq!['.', '.']) by {
        assert(seq!['.', '.'][0] == '.');
    }
    assert forall|i: int| 0 <= i < name.len() implies name[i] != '/' by {
        let a = text.len();
        let b = a + suffix.len();
        if i < a {
            assert(name[i] == text[i]);
            assert(is_timestamp_char(text[i]));
        } else if i < b {
            assert(name[i] == suffix[i - a]);
            let digits = decimal(index as int);
            if i - a >= 2 && i - a < 2 + digits.len() {
                assert(suffix[i - a] == digits[i - a - 2]);
            }
        } else if i == b {
            assert(name[i] == '.');
        } else {
            assert(name[i] == extension[i - b - 1]);
            assert(extension.contains(extension[i - b - 1]));
        }
    }
}

/// After an item is added, the path that was returned for it leads to the
/// item.
pub proof fn lemma_add_then_lookup(cache: CacheView, item: ItemView)
    requires
        cache.add(item).1 is Some,
    ensures
        cache.add(item).0.root.resolve(steps_of(cache.add(item).1.unwrap())) == Some(
            Node::Item(item),
        ),
{
    let directory = day_directory(cache.timestamp_root, item.timestamp);
    let path = steps_of(directory);
    let leaf = Node::Item(item);
    let tree = cache.root.ensured(path);
    let (with_item, name) = tree.inserted(path, leaf).unwrap();
    let item_path = directory + seq!['/'] + name;
    lemma_inserted_name(tree, path, leaf);
    let index = choose|index: nat| name == leaf.leaf_name(index);
    lemma_inserted_resolves(tree, path, leaf);
    lemma_item_name_plain(item, index);
    crate::path::lemma_steps_of_child(directory, name);
    assert(directory.len() > 0);
    assert(with_item.resolve(steps_of(item_path)) == Some(leaf));
    let after = cache.add(item).0.root;
    lemma_linked_extends(
        with_item,
        cache.tagged_root,
        item.tags,
        item.tags.len(),
        item_path,
        item.timestamp.timespec(),
    );
    lemma_extends_resolve(with_item, after, steps_of(item_path));
}

/// The name that an entry was put under is one of its names.
pub proof fn lemma_inserted_name(node: Node, path: Seq<Step>, leaf: Node)
    requires
        node.inserted(path, leaf) is Some,
    ensures
        exists|index: nat| node.inserted(path, leaf).unwrap().1 == leaf.leaf_name(index),
    decreases path.len(),
{
    if path.len() == 0 {
        let index = crate::cache::free_index(node.entries(), leaf);
        assert(node.inserted(path, leaf).unwrap().1 == leaf.leaf_name(index));
    } else {
        match path.first() {
            Step::RootDir | Step::CurDir => {
                lemma_inserted_name(node, path.drop_first(), leaf);
            },
            Step::ParentDir => {},
            Step::Normal(step) => {
                let children = node.entries();
                let i = position(children, step);
                lemma_inserted_name(children[i].1, path.drop_first(), leaf);
            },
        }
    }
}

/// Among the first `n` entries of a directory, none is later than the
/// latest, and one of them is the latest.
pub proof fn lemma_latest(children: Seq<(Seq<char>, Node)>, n: nat)
    requires
        n <= children.len(),
    ensures
        n == 0 ==> latest(children, n) == Timespec::zero(),
        forall|i: int|
            0 <= i < n ==> (#[trigger] children[i]).1.timestamp().at_most(latest(children, n)),
        n > 0 ==> exists|i: int|
            0 <= i < n && (#[trigger] children[i]).1.timestamp() == latest(children, n),
    decreases n,
{
    if n == 1 {
        assert(children[0].1.timestamp() == latest(children, n));
    } else if n > 1 {
        lemma_latest(children, (n - 1) as nat);
        let before = latest(children, (n - 1) as nat);
        let last = children[n - 1].1.timestamp();
        let i = choose|i: int| 0 <= i < n - 1 && (#[trigger] children[i]).1.timestamp() == before;
        if before.at_most(last) {
            assert(children[n - 1].1.timestamp() == latest(children, n));
        } else {
            assert(children[i].1.timestamp() == latest(children, n));
        }
        assert forall|j: int| 0 <= j < n implies (#[trigger] children[j]).1.timestamp().at_most(
            latest(children, n),
        ) by {
            if j < n - 1 {
                assert(children[j].1.timestamp().at_most(before));
            }
        }
    }
}

/// The timestamp of a directory is the epoch where it is empty; else it is
/// the timestamp of one of its entries, and none of them is later.
pub proof fn lemma_directory_timestamp(node: Node)
    requires
        node is Directory,
    ensures
        node.entries().len() == 0 ==> node.timestamp() == Timespec::zero(),
        forall|i: int|
            0 <= i < node.entries().len() ==> (#[trigger] node.entries()[i]).1.timestamp().at_most(
                node.timestamp(),
            ),
        node.entries().len() > 0 ==> exists|i: int|
            0 <= i < node.entries().len() && (#[trigger] node.entries()[i]).1.timestamp()
                == node.timestamp(),
{
    lemma_latest(node.entries(), node.entries().len());
}

/// No entry that a path leads to from an entry is later than that entry.
pub proof fn lemma_timestamp_covers(node: Node, path: Seq<Step>)
    requires
        node.resolve(path) is Some,
    ensures
        node.resolve(path).unwrap().timestamp().at_most(node.timestamp()),
    decreases path.len(),
{
    if path.len() > 0 {
        match path.first() {
            Step::RootDir | Step::CurDir => {
                lemma_timestamp_covers(node, path.drop_first());
            },
            Step::ParentDir => {},
            Step::Normal(name) => {
                let children = node.entries();
                let i = position(children, name);
                lemma_position(children, name);
                assert(node is Directory);
                lemma_directory_timestamp(node);
                lemma_timestamp_covers(children[i].1, path.drop_first());
                assert(children[i].1.timestamp().at_most(node.timestamp()));
            },
        }
    }
}

/// A path that leads to an entry names no directory that is missing.
pub proof fn lemma_ensured_present(node: Node, path: Seq<Step>)
    requires
        node.resolve(path) is Some,
    ensures
        node.ensured(path) == node,
    decreases path.len(),
{
    if path.len() > 0 {
        match path.first() {
            Step::RootDir | Step::CurDir => {
                lemma_ensured_present(node, path.drop_first());
            },
            Step::ParentDir => {},
            Step::Normal(name) => {
                let children = node.entries();
                let i = position(children, name);
                lemma_position(children, name);
                assert(node is Directory);
                lemma_ensured_present(children[i].1, path.drop_first());
                assert(children.update(i, (children[i].0, children[i].1)) =~= children);
            },
        }
    }
}

/// The directory that is made for a path in an empty directory is empty,
/// where the path leads to it at all.
pub proof fn lemma_ensured_empty(path: Seq<Step>)
    ensures
        ({
            let made = Node::Directory(Seq::empty()).ensured(path);
            made.resolve(path) is Some ==> made.resolve(path) == Some(
                Node::Directory(Seq::empty()),
            )
        }),
    decreases path.len(),
{
    let empty = Node::Directory(Seq::empty());
    if path.len() > 0 {
        lemma_ensured_empty(path.drop_first());
        match path.first() {
            Step::Normal(name) => {
                let below = empty.ensured(path.drop_first());
                let children = Seq::<(Seq<char>, Node)>::empty().push((name, below));
                lemma_position_push(Seq::empty(), (name, below), name);
                assert(empty.ensured(path) == Node::Directory(children));
                assert(Node::Directory(children).child(name) == Some(below));
            },
            _ => {},
        }
    }
}

/// An item or a link goes into the directory that a path leads to, and
/// only there: the directory then holds it behind its other entries, under
/// the first of its names that was free.
pub proof fn lemma_inserted_directory(node: Node, path: Seq<Step>, leaf: Node)
    requires
        !(leaf is Directory),
    ensures
        node.inserted(path, leaf) is Some <==> node.resolve(path) is Some && node.resolve(
            path,
        ).unwrap() is Directory,
        node.inserted(path, leaf) is Some ==> {
            let (after, name) = node.inserted(path, leaf).unwrap();
            let children = node.resolve(path).unwrap().entries();
            &&& name == leaf.leaf_name(free_index(children, leaf))
            &&& after.resolve(path) == Some(Node::Directory(children.push((name, leaf))))
        },
    decreases path.len(),
{
    if path.len() > 0 {
        match path.first() {
            Step::RootDir | Step::CurDir => {
                lemma_inserted_directory(node, path.drop_first(), leaf);
            },
            Step::ParentDir => {},
            Step::Normal(step) => {
                let children = node.entries();
                let i = position(children, step);
                lemma_position(children, step);
                if i < children.len() {
                    lemma_inserted_directory(children[i].1, path.drop_first(), leaf);
                    if children[i].1.inserted(path.drop_first(), leaf) is Some {
                        let below = children[i].1.inserted(path.drop_first(), leaf).unwrap().0;
                        lemma_position_update(children, i, below, step);
                    }
                }
            },
        }
    }
}

/// The path that the `i`-th of a sequence of items is given when they are
/// added in order.
pub open spec fn nth_path(cache: CacheView, items: Seq<ItemView>, i: int) -> Option<Seq<char>> {
    cache.add_all(items, i as nat).0.add(items[i]).1
}

/// Where all of the first `n` items could be added, so could fewer.
pub proof fn lemma_add_all_prefix(cache: CacheView, items: Seq<ItemView>, n: nat, m: nat)
    requires
        m <= n <= items.len(),
        cache.add_all(items, n).1 is None,
    ensures
        cache.add_all(items, m).1 is None,
        m < n ==> nth_path(cache, items, m as int) is Some,
        m < n ==> cache.add_all(items, m + 1).0 == cache.add_all(items, m).0.add(
            items[m as int],
        ).0,
    decreases n - m,
{
    if m < n {
        lemma_add_all_prefix(cache, items, n, m + 1);
    }
}

/// Items of one timestamp and one extension, without tags, that are added
/// to an empty cache in order get the names of index 0, 1, 2 and so on in
/// the directory of their day, as long as the first can be added.
pub proof fn lemma_collision_indices(cache: CacheView, items: Seq<ItemView>, n: nat)
    requires
        cache.root == Node::Directory(Seq::empty()),
        0 < n <= items.len(),
        cache.add(items[0]).1 is Some,
        forall|i: int|
            0 <= i < items.len() ==> {
                &&& (#[trigger] items[i]).tags.len() == 0
                &&& items[i].timestamp == items[0].timestamp
                &&& items[i].extension() == items[0].extension()
            },
    ensures
        cache.add_all(items, n).1 is None,
        forall|i: int|
            0 <= i < n ==> #[trigger] nth_path(cache, items, i) == Some(
                day_directory(cache.timestamp_root, items[0].timestamp) + seq!['/'] + name_text(
                    items[0].timestamp.text(),
                    items[0].extension(),
                    i as nat,
                ),
            ),
        day_entries(cache.add_all(items, n).0, items[0].timestamp).len() == n,
        forall|j: int|
            0 <= j < n ==> (#[trigger] day_entries(
                cache.add_all(items, n).0,
                items[0].timestamp,
            )[j]).0 == name_text(items[0].timestamp.text(), items[0].extension(), j as nat),
    decreases n,
{
    let timestamp = items[0].timestamp;
    let directory = day_directory(cache.timestamp_root, timestamp);
    let path = steps_of(directory);
    let item = items[(n - 1) as int];
    let leaf = Node::Item(item);
    let before = cache.add_all(items, (n - 1) as nat).0;
    if n == 1 {
        lemma_ensured_empty(path);
        assert(before == cache);
    } else {
        lemma_collision_indices(cache, items, (n - 1) as nat);
        lemma_add_all_extends(cache, items, (n - 1) as nat);
    }
    let tree = before.root.ensured(path);
    lemma_inserted_directory(tree, path, leaf);
    if n > 1 {
        lemma_ensured_present(before.root, path);
    } else {
        lemma_inserted_directory(tree, path, Node::Item(items[0]));
    }
    let children = tree.resolve(path).unwrap().entries();
    assert(children.len() == n - 1);
    assert(is_first_free(children, leaf, (n - 1) as nat)) by {
        assert forall|j: nat| j < n - 1 implies !is_free(children, leaf, j) by {
            lemma_position(children, leaf.leaf_name(j));
            assert(children[j as int].0 == leaf.leaf_name(j));
        }
        lemma_position(children, leaf.leaf_name((n - 1) as nat));
        let p = position(children, leaf.leaf_name((n - 1) as nat));
        if p < children.len() {
            assert(children[p].0 == leaf.leaf_name(p as nat));
            crate::cache::lemma_leaf_name_injective(leaf, p as nat, (n - 1) as nat);
        }
    }
    crate::cache::lemma_free_index(children, leaf, (n - 1) as nat);
    let name = leaf.leaf_name((n - 1) as nat);
    let after = cache.add_all(items, n).0;
    assert(after.root.resolve(path) == Some(Node::Directory(children.push((name, leaf)))));
    assert(day_entries(after, timestamp) == children.push((name, leaf)));
    assert forall|i: int| 0 <= i < n implies #[trigger] nth_path(cache, items, i) == Some(
        directory + seq!['/'] + name_text(timestamp.text(), items[0].extension(), i as nat),
    ) by {
        if i == n - 1 {
        }
    }
}

/// The entries of the directory of a day.
pub open spec fn day_entries(cache: CacheView, timestamp: Timestamp) -> Seq<(Seq<char>, Node)> {
    match cache.root.resolve(steps_of(day_directory(cache.timestamp_root, timestamp))) {
        Some(directory) => directory.entries(),
        None => Seq::empty(),
    }
}

/// What the cache holds after its items are replaced does not depend on
/// what it held before.
pub proof fn lemma_replace_all_forgets(
    a: CacheView,
    b: CacheView,
    items: Seq<ItemView>,
)
    requires
        a.root is Directory,
        b.root is Directory,
        a.timestamp_root == b.timestamp_root,
        a.tagged_root == b.tagged_root,
    ensures
        a.cleared().add_all(items, items.len()) == b.cleared().add_all(items, items.len()),
{
}

/// After items are added, and all of them could be, the path that each was
/// given leads to it.
pub proof fn lemma_added_items_stay(cache: CacheView, items: Seq<ItemView>, n: nat, i: int)
    requires
        0 <= i < n <= items.len(),
        cache.add_all(items, n).1 is None,
    ensures
        nth_path(cache, items, i) is Some,
        cache.add_all(items, n).0.root.resolve(steps_of(nth_path(cache, items, i).unwrap()))
            == Some(Node::Item(items[i])),
    decreases n,
{
    lemma_add_all_prefix(cache, items, n, i as nat);
    if n == i + 1 {
        lemma_add_then_lookup(cache.add_all(items, i as nat).0, items[i]);
    } else {
        lemma_add_all_prefix(cache, items, n, (n - 1) as nat);
        lemma_added_items_stay(cache, items, (n - 1) as nat, i);
        let before = cache.add_all(items, (n - 1) as nat).0;
        lemma_add_extends(before, items[n - 1]);
        lemma_extends_resolve(
            before.root,
            cache.add_all(items, n).0.root,
            steps_of(nth_path(cache, items, i).unwrap()),
        );
    }
}

/// Making directories along a path puts no name twice into a directory.
pub proof fn lemma_ensured_unique(node: Node, path: Seq<Step>)
    requires
        node.names_unique(),
    ensures
        node.ensured(path).names_unique(),
    decreases path.len(),
{
    if path.len() > 0 {
        match path.first() {
            Step::RootDir | Step::CurDir => {
                lemma_ensured_unique(node, path.drop_first());
            },
            Step::ParentDir => {},
            Step::Normal(name) => match node {
                Node::Directory(children) => {
                    let i = position(children, name);
                    lemma_position(children, name);
                    let after = node.ensured(path).entries();
                    if i < children.len() {
                        assert(children[i].1.names_unique());
                        lemma_ensured_unique(children[i].1, path.drop_first());
                    } else {
                        lemma_ensured_unique(Node::Directory(Seq::empty()), path.drop_first());
                    }
                    assert forall|j: int| 0 <= j < after.len() implies (#[trigger] after[j]).1.names_unique() by {
                        if j < children.len() && j != i {
                            assert(children[j].1.names_unique());
                        }
                    }
                },
                _ => {},
            },
        }
    }
}

/// Putting an item or a link into a directory puts no name twice into a
/// directory.
pub proof fn lemma_inserted_unique(node: Node, path: Seq<Step>, leaf: Node)
    requires
        node.names_unique(),
        !(leaf is Directory),
        node.inserted(path, leaf) is Some,
    ensures
        node.inserted(path, leaf).unwrap().0.names_unique(),
    decreases path.len(),
{
    let after = node.inserted(path, leaf).unwrap().0.entries();
    if path.len() == 0 {
        let children = node.entries();
        let name = node.inserted(path, leaf).unwrap().1;
        crate::cache::lemma_first_free_exists(children, leaf);
        lemma_position(children, name);
        assert forall|j: int| 0 <= j < after.len() implies (#[trigger] after[j]).1.names_unique() by {
            if j < children.len() {
                assert(children[j].1.names_unique());
            }
        }
    } else {
        match path.first() {
            Step::RootDir | Step::CurDir => {
                lemma_inserted_unique(node, path.drop_first(), leaf);
            },
            Step::ParentDir => {},
            Step::Normal(name) => {
                let children = node.entries();
                let i = position(children, name);
                lemma_position(children, name);
                assert(node is Directory);
                assert(children[i].1.names_unique());
                lemma_inserted_unique(children[i].1, path.drop_first(), leaf);
                assert forall|j: int| 0 <= j < after.len() implies (#[trigger] after[j]).1.names_unique() by {
                    if j != i {
                        assert(children[j].1.names_unique());
                    }
                }
            },
        }
    }
}

/// Adding an item or a link puts no name twice into a directory.
pub proof fn lemma_added_unique(root: Node, directory: Seq<char>, leaf: Node)
    requires
        root.names_unique(),
        !(leaf is Directory),
    ensures
        added(root, directory, leaf).0.names_unique(),
{
    let path = steps_of(directory);
    lemma_ensured_unique(root, path);
    if root.ensured(path).inserted(path, leaf) is Some {
        lemma_inserted_unique(root.ensured(path), path, leaf);
    }
}

/// Adding the links of an item puts no name twice into a directory.
pub proof fn lemma_linked_unique(
    root: Node,
    tagged_root: Seq<char>,
    tags: Seq<Seq<Seq<char>>>,
    n: nat,
    item_path: Seq<char>,
    timestamp: Timespec,
)
    requires
        root.names_unique(),
    ensures
        linked(root, tagged_root, tags, n, item_path, timestamp).names_unique(),
    decreases n,
{
    if !(n == 0 || n > tags.len()) {
        let before = linked(root, tagged_root, tags, (n - 1) as nat, item_path, timestamp);
        lemma_linked_unique(root, tagged_root, tags, (n - 1) as nat, item_path, timestamp);
        let directory = tag_directory(tagged_root, tags[n - 1]);
        lemma_added_unique(before, directory, Node::Link(timestamp, link_target(directory, item_path)));
    }
}

/// In a cache whose directories hold each name once, they still do after
/// an item is added.
pub proof fn lemma_add_unique(cache: CacheView, item: ItemView)
    requires
        cache.root.names_unique(),
    ensures
        cache.add(item).0.root.names_unique(),
{
    let directory = day_directory(cache.timestamp_root, item.timestamp);
    let (tree, path) = added(cache.root, directory, Node::Item(item));
    lemma_added_unique(cache.root, directory, Node::Item(item));
    if path is Some {
        lemma_linked_unique(
            tree,
            cache.tagged_root,
            item.tags,
            item.tags.len(),
            path.unwrap(),
            item.timestamp.timespec(),
        );
    }
}

/// In a cache that was emptied and then filled, every directory holds each
/// name once.
pub proof fn lemma_add_all_unique(cache: CacheView, items: Seq<ItemView>, n: nat)
    requires
        cache.root.names_unique(),
    ensures
        cache.add_all(items, n).0.root.names_unique(),
    decreases n,
{
    if !(n == 0 || n > items.len()) {
        lemma_add_all_unique(cache, items, (n - 1) as nat);
        let (before, failed) = cache.add_all(items, (n - 1) as nat);
        if failed is None {
            lemma_add_unique(before, items[n - 1]);
        }
    }
}

/// An empty cache holds no name twice.
pub proof fn lemma_cleared_unique(cache: CacheView)
    requires
        cache.root is Directory,
    ensures
        cache.cleared().root.names_unique(),
{
}

/// A path with one more name leads into the directory that the path leads
/// to.
pub proof fn lemma_resolve_push(node: Node, path: Seq<Step>, name: Seq<char>)
    ensures
        node.resolve(path.push(Step::Normal(name))) == match node.resolve(path) {
            Some(directory) => directory.child(name),
            None => None,
        },
    decreases path.len(),
{
    let longer = path.push(Step::Normal(name));
    if path.len() == 0 {
        assert(longer.drop_first() =~= Seq::empty());
        assert(longer.first() == Step::Normal(name));
        match node.child(name) {
            Some(below) => {
                assert(below.resolve(Seq::empty()) == Some(below));
            },
            None => {},
        }
    } else {
        assert(longer.drop_first() =~= path.drop_first().push(Step::Normal(name)));
        assert(longer.first() == path.first());
        match path.first() {
            Step::RootDir | Step::CurDir => {
                lemma_resolve_push(node, path.drop_first(), name);
            },
            Step::ParentDir => {},
            Step::Normal(step) => {
                match node.child(step) {
                    Some(below) => {
                        lemma_resolve_push(below, path.drop_first(), name);
                    },
                    None => {},
                }
            },
        }
    }
}

/// An item is added under a name that its directory did not hold: the path
/// that it is given led nowhere before.
pub proof fn lemma_add_path_was_free(cache: CacheView, item: ItemView)
    requires
        cache.add(item).1 is Some,
    ensures
        cache.root.resolve(steps_of(cache.add(item).1.unwrap())) is None,
{
    let directory = day_directory(cache.timestamp_root, item.timestamp);
    let path = steps_of(directory);
    let leaf = Node::Item(item);
    let tree = cache.root.ensured(path);
    let (with_item, name) = tree.inserted(path, leaf).unwrap();
    let item_path = directory + seq!['/'] + name;
    lemma_inserted_name(tree, path, leaf);
    let index = choose|index: nat| name == leaf.leaf_name(index);
    lemma_item_name_plain(item, index);
    crate::path::lemma_steps_of_child(directory, name);
    assert(directory.len() > 0);
    lemma_inserted_directory(tree, path, leaf);
    let children = tree.resolve(path).unwrap().entries();
    crate::cache::lemma_first_free_exists(children, leaf);
    lemma_resolve_push(tree, path, name);
    assert(tree.resolve(steps_of(item_path)) is None);
    if cache.root.resolve(steps_of(item_path)) is Some {
        lemma_ensured_extends(cache.root, path);
        lemma_extends_resolve(cache.root, tree, steps_of(item_path));
    }
}

/// Items that are added, and all of them could be, are given paths that
/// differ.
pub proof fn lemma_paths_differ(cache: CacheView, items: Seq<ItemView>, n: nat, i: int, j: int)
    requires
        0 <= i < j < n <= items.len(),
        cache.add_all(items, n).1 is None,
    ensures
        nth_path(cache, items, i) is Some,
        nth_path(cache, items, j) is Some,
        nth_path(cache, items, i) != nth_path(cache, items, j),
{
    lemma_add_all_prefix(cache, items, n, i as nat);
    lemma_add_all_prefix(cache, items, n, j as nat);
    lemma_added_items_stay(cache, items, j as nat, i);
    lemma_add_path_was_free(cache.add_all(items, j as nat).0, items[j]);
}

/// The items that stand in the tree below an entry, each as often as it
/// stands there.
pub open spec fn items_in(node: Node) -> Multiset<ItemView>
    decreases node,
{
    match node {
        Node::Directory(children) => items_among(children, children.len()),
        Node::Item(item) => Multiset::singleton(item),
        Node::Link(_, _) => Multiset::empty(),
    }
}

/// The items that stand in the trees below the first `n` entries of a
/// directory.
pub open spec fn items_among(children: Seq<(Seq<char>, Node)>, n: nat) -> Multiset<ItemView>
    decreases children, n,
{
    if n == 0 || n > children.len() {
        Multiset::empty()
    } else {
        items_among(children, (n - 1) as nat).add(items_in(children[n - 1].1))
    }
}

/// Where one entry of a directory comes to hold more items, and the others
/// hold what they held, the directory holds as many more.
pub proof fn lemma_items_among_grow(
    before: Seq<(Seq<char>, Node)>,
    after: Seq<(Seq<char>, Node)>,
    i: int,
    more: Multiset<ItemView>,
    n: nat,
)
    requires
        0 <= i < before.len(),
        after.len() == before.len(),
        n <= before.len(),
        forall|j: int| 0 <= j < before.len() && j != i ==> after[j] == before[j],
        items_in(after[i].1) == items_in(before[i].1).add(more),
    ensures
        items_among(after, n) == if n > i {
            items_among(before, n).add(more)
        } else {
            items_among(before, n)
        },
    decreases n,
{
    if n > 0 {
        lemma_items_among_grow(before, after, i, more, (n - 1) as nat);
        if n - 1 == i {
            assert(items_among(after, n) =~= items_among(before, n).add(more));
        } else if n - 1 > i {
            assert(after[n - 1] == before[n - 1]);
            assert(items_among(after, n) =~= items_among(before, n).add(more));
        } else {
            assert(after[n - 1] == before[n - 1]);
        }
    }
}

/// The first entries of a directory hold what they hold, whatever stands
/// behind them.
pub proof fn lemma_items_among_front(
    before: Seq<(Seq<char>, Node)>,
    after: Seq<(Seq<char>, Node)>,
    n: nat,
)
    requires
        n <= before.len() <= after.len(),
        forall|j: int| 0 <= j < n ==> after[j] == before[j],
    ensures
        items_among(after, n) == items_among(before, n),
    decreases n,
{
    if n > 0 {
        lemma_items_among_front(before, after, (n - 1) as nat);
    }
}

/// Making directories along a path adds no item.
pub proof fn lemma_ensured_items(node: Node, path: Seq<Step>)
    ensures
        items_in(node.ensured(path)) == items_in(node),
    decreases path.len(),
{
    if path.len() > 0 {
        match path.first() {
            Step::RootDir | Step::CurDir => {
                lemma_ensured_items(node, path.drop_first());
            },
            Step::ParentDir => {},
            Step::Normal(name) => match node {
                Node::Directory(children) => {
                    let i = position(children, name);
                    lemma_position(children, name);
                    let after = node.ensured(path).entries();
                    if i < children.len() {
                        lemma_ensured_items(children[i].1, path.drop_first());
                        assert(items_in(children[i].1).add(Multiset::empty()) =~= items_in(
                            children[i].1,
                        ));
                        lemma_items_among_grow(
                            children,
                            after,
                            i,
                            Multiset::empty(),
                            children.len(),
                        );
                        assert(items_among(children, children.len()).add(Multiset::empty())
                            =~= items_among(children, children.len()));
                    } else {
                        let empty = Node::Directory(Seq::empty());
                        lemma_ensured_items(empty, path.drop_first());
                        lemma_items_among_front(children, after, children.len());
                        assert(items_in(empty) =~= Multiset::empty());
                        assert(items_among(after, after.len()) =~= items_among(
                            children,
                            children.len(),
                        ));
                    }
                },
                _ => {},
            },
        }
    }
}

/// Putting an item or a link into a directory adds the item, or no item.
pub proof fn lemma_inserted_items(node: Node, path: Seq<Step>, leaf: Node)
    requires
        !(leaf is Directory),
        node.inserted(path, leaf) is Some,
    ensures
        items_in(node.inserted(path, leaf).unwrap().0) == items_in(node).add(items_in(leaf)),
    decreases path.len(),
{
    let after = node.inserted(path, leaf).unwrap().0.entries();
    if path.len() == 0 {
        let children = node.entries();
        lemma_items_among_front(children, after, children.len());
    } else {
        match path.first() {
            Step::RootDir | Step::CurDir => {
                lemma_inserted_items(node, path.drop_first(), leaf);
            },
            Step::ParentDir => {},
            Step::Normal(name) => {
                let children = node.entries();
                let i = position(children, name);
                lemma_position(children, name);
                assert(node is Directory);
                lemma_inserted_items(children[i].1, path.drop_first(), leaf);
                lemma_items_among_grow(children, after, i, items_in(leaf), children.len());
            },
        }
    }
}

/// Adding an item or a link adds the item where it could be added, and no
/// item else.
pub proof fn lemma_added_items(root: Node, directory: Seq<char>, leaf: Node)
    requires
        !(leaf is Directory),
    ensures
        items_in(added(root, directory, leaf).0) == if added(root, directory, leaf).1 is Some {
            items_in(root).add(items_in(leaf))
        } else {
            items_in(root)
        },
{
    let path = steps_of(directory);
    lemma_ensured_items(root, path);
    if root.ensured(path).inserted(path, leaf) is Some {
        lemma_inserted_items(root.ensured(path), path, leaf);
    }
}

/// Adding the links of an item adds no item.
pub proof fn lemma_linked_items(
    root: Node,
    tagged_root: Seq<char>,
    tags: Seq<Seq<Seq<char>>>,
    n: nat,
    item_path: Seq<char>,
    timestamp: Timespec,
)
    ensures
        items_in(linked(root, tagged_root, tags, n, item_path, timestamp)) == items_in(root),
    decreases n,
{
    if !(n == 0 || n > tags.len()) {
        let before = linked(root, tagged_root, tags, (n - 1) as nat, item_path, timestamp);
        lemma_linked_items(root, tagged_root, tags, (n - 1) as nat, item_path, timestamp);
        let directory = tag_directory(tagged_root, tags[n - 1]);
        let link = Node::Link(timestamp, link_target(directory, item_path));
        lemma_added_items(before, directory, link);
        assert(items_in(before).add(items_in(link)) =~= items_in(before));
    }
}

/// The cache holds one item more after an item is added, which is that
/// item, and holds what it held where the item could not be added.
pub proof fn lemma_add_items(cache: CacheView, item: ItemView)
    ensures
        items_in(cache.add(item).0.root) == if cache.add(item).1 is Some {
            items_in(cache.root).insert(item)
        } else {
            items_in(cache.root)
        },
{
    let directory = day_directory(cache.timestamp_root, item.timestamp);
    let (tree, path) = added(cache.root, directory, Node::Item(item));
    lemma_added_items(cache.root, directory, Node::Item(item));
    if path is Some {
        lemma_linked_items(
            tree,
            cache.tagged_root,
            item.tags,
            item.tags.len(),
            path.unwrap(),
            item.timestamp.timespec(),
        );
    }
}

/// After items are added, and all of them could be, the cache holds them
/// besides what it held, each as often as it was added.
pub proof fn lemma_add_all_items(cache: CacheView, items: Seq<ItemView>, n: nat)
    requires
        n <= items.len(),
        cache.add_all(items, n).1 is None,
    ensures
        items_in(cache.add_all(items, n).0.root) == items_in(cache.root).add(
            items.take(n as int).to_multiset(),
        ),
    decreases n,
{
    broadcast use vstd::seq_lib::group_to_multiset_ensures;

    if n == 0 {
        assert(items.take(0) =~= Seq::empty());
        assert(items.take(0).to_multiset() =~= Multiset::empty());
        assert(items_in(cache.root).add(Multiset::empty()) =~= items_in(cache.root));
    } else {
        lemma_add_all_prefix(cache, items, n, (n - 1) as nat);
        lemma_add_all_items(cache, items, (n - 1) as nat);
        let before = cache.add_all(items, (n - 1) as nat).0;
        lemma_add_items(before, items[n - 1]);
        assert(items.take(n as int) =~= items.take(n - 1).push(items[n - 1]));
        assert(items.take(n as int).to_multiset() =~= items.take(n - 1).to_multiset().insert(
            items[n - 1],
        ));
        assert(items_in(cache.add_all(items, n).0.root) =~= items_in(cache.root).add(
            items.take(n as int).to_multiset(),
        ));
    }
}

/// After the items of a cache are replaced, and all of the new ones could
/// be added, the cache holds the new items and no others, each as often as
/// it was given; the path that each was given leads to it, and no two of
/// these paths are the same.
pub proof fn lemma_replace_all_exact(cache: CacheView, items: Seq<ItemView>)
    requires
        cache.root is Directory,
        cache.cleared().add_all(items, items.len()).1 is None,
    ensures
        items_in(cache.cleared().add_all(items, items.len()).0.root) == items.to_multiset(),
        forall|i: int|
            0 <= i < items.len() ==> {
                &&& (#[trigger] nth_path(cache.cleared(), items, i)) is Some
                &&& cache.cleared().add_all(items, items.len()).0.root.resolve(
                    steps_of(nth_path(cache.cleared(), items, i).unwrap()),
                ) == Some(Node::Item(items[i]))
            },
        forall|i: int, j: int|
            0 <= i < j < items.len() ==> #[trigger] nth_path(cache.cleared(), items, i)
                != #[trigger] nth_path(cache.cleared(), items, j),
{
    let start = cache.cleared();
    lemma_add_all_items(start, items, items.len());
    assert(items.take(items.len() as int) =~= items);
    assert(items_in(start.root) =~= Multiset::empty());
    assert(Multiset::<ItemView>::empty().add(items.to_multiset()) =~= items.to_multiset());
    assert forall|i: int| 0 <= i < items.len() implies {
        &&& (#[trigger] nth_path(start, items, i)) is Some
        &&& start.add_all(items, items.len()).0.root.resolve(
            steps_of(nth_path(start, items, i).unwrap()),
        ) == Some(Node::Item(items[i]))
    } by {
        lemma_added_items_stay(start, items, items.len(), i);
    }
    assert forall|i: int, j: int| 0 <= i < j < items.len() implies #[trigger] nth_path(
        start,
        items,
        i,
    ) != #[trigger] nth_path(start, items, j) by {
        lemma_paths_differ(start, items, items.len(), i, j);
    }
}

} // verus!
