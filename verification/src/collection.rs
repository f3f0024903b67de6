//! A list of items that tells a monitor of what is added and removed.

use vstd::prelude::*;
use crate::item::Item;

verus! {

/// Someone who is told when an item is added to a collection or removed
/// from it.
pub trait ItemMonitor {
    /// An item is about to be added.
    fn item_added(&mut self, item: &Item);

    /// An item has been removed.
    fn item_removed(&mut self, item: &Item);
}

/// A list of items, with the monitor that is told of changes.
pub struct ItemCollection<M: ItemMonitor> {
    pub items: Vec<Item>,
    pub monitor: M,
}

/// The place of the first item with a source path, or the number of items
/// where none has it.
pub open spec fn first_with_path(items: Seq<Item>, path: Seq<char>) -> int
    decreases items.len(),
{
    if items.len() == 0 {
        0
    } else if items[0].path@ == path {
        0
    } else {
        1 + first_with_path(items.drop_first(), path)
    }
}

proof fn lemma_first_with_path(items: Seq<Item>, path: Seq<char>)
    ensures
        0 <= first_with_path(items, path) <= items.len(),
        forall|j: int| 0 <= j < first_with_path(items, path) ==> items[j].path@ != path,
        first_with_path(items, path) < items.len() ==> items[first_with_path(items, path)].path@
            == path,
    decreases items.len(),
{
    if items.len() > 0 && items[0].path@ != path {
        let rest = items.drop_first();
        lemma_first_with_path(rest, path);
        assert forall|j: int| 0 <= j < first_with_path(items, path) implies items[j].path@
            != path by {
            if j > 0 {
                assert(items[j] == rest[j - 1]);
            }
        }
        if first_with_path(items, path) < items.len() {
            assert(items[first_with_path(items, path)] == rest[first_with_path(rest, path)]);
        }
    }
}

impl<M: ItemMonitor> ItemCollection<M> {
    /// An empty collection.
    pub fn new(monitor: M) -> (r: ItemCollection<M>)
        ensures
            r.items@.len() == 0,
            r.monitor == monitor,
    {
        ItemCollection { items: Vec::new(), monitor }
    }

    /// Tells the monitor of an item, then puts the item behind the others.
    pub fn add(&mut self, item: Item)
        ensures
            final(self).items@ == old(self).items@.push(item),
    {
        self.monitor.item_added(&item);
        self.items.push(item);
    }

    /// Takes out the first item with a source path, tells the monitor of
    /// it, and returns it; `None` where no item has the path.
    pub fn remove_by_path(&mut self, path: &str) -> (r: Option<Item>)
        ensures
            ({
                let i = first_with_path(old(self).items@, path@);
                if i < old(self).items@.len() {
                    &&& r == Some(old(self).items@[i])
                    &&& final(self).items@ == old(self).items@.remove(i)
                } else {
                    &&& r is None
                    &&& final(self).items@ == old(self).items@
                }
            }),
    {
        let mut i: usize = 0;
        proof {
            lemma_first_with_path(self.items@, path@);
        }
        while i < self.items.len()
            invariant
                i <= self.items.len(),
                self.items@ == old(self).items@,
                forall|j: int| 0 <= j < i ==> self.items@[j].path@ != path@,
                0 <= first_with_path(self.items@, path@) <= self.items@.len(),
                first_with_path(self.items@, path@) < self.items@.len() ==> self.items@[first_with_path(
                    self.items@,
                    path@,
                )].path@ == path@,
                forall|j: int|
                    0 <= j < first_with_path(self.items@, path@) ==> self.items@[j].path@ != path@,
            decreases self.items.len() - i,
        {
            if crate::text::same_text(self.items[i].path.as_str(), path) {
                let item = self.items.remove(i);
                self.monitor.item_removed(&item);
                return Some(item);
            }
            i += 1;
        }
        None
    }
}

} // verus!
