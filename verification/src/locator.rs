//! Places in the tree of days, as a path names them.

use vstd::prelude::*;
use crate::path::Component;
use crate::text::{i32_of_text, parse_i32, parse_usize, usize_of_text, views};
use crate::time::Timestamp;

verus! {

/// How the name of an item is written: year, month and day joined by `-`,
/// a space, hour, minute and second joined by `:`, then ` (index)` or
/// nothing, a dot, and the extension.
pub const ITEM_LOCATOR_PATTERN: &'static str =
    r"([0-9]+)-([0-9]{2})-([0-9]{2}) ([0-9]{2}):([0-9]{2}):([0-9]{2})(?: \(([0-9]+)\))?\.(.*)";

/// What the groups of a regular expression hold at its leftmost match in a
/// text: first the whole match, then each group, `None` for a group that
/// took no part. `None` where the pattern is no regular expression or
/// matches nowhere in the text.
pub uninterp spec fn captured(pattern: Seq<char>, text: Seq<char>) -> Option<
    Seq<Option<Seq<char>>>,
>;

/// The views of the groups of a match.
pub open spec fn group_views(groups: Seq<Option<String>>) -> Seq<Option<Seq<char>>> {
    Seq::new(
        groups.len(),
        |i: int|
            match groups[i] {
                Some(text) => Some(text@),
                None => None,
            },
    )
}

/// `regex::Regex::new` and `Regex::captures`: the groups of the leftmost
/// match of a pattern in a text.
#[verifier::external_body]
fn captures(pattern: &str, text: &str) -> (r: Option<Vec<Option<String>>>)
    ensures
        r is Some == captured(pattern@, text@) is Some,
        r is Some ==> group_views(r.unwrap()@) == captured(pattern@, text@).unwrap(),
{
    let found = regex::Regex::new(pattern).ok()?.captures(text)?;
    Some((0..found.len()).map(|i| found.get(i).map(|m| m.as_str().to_string())).collect())
}

/// The name of an item, read apart.
#[derive(Clone, Debug, Eq, PartialEq)]
pub struct ItemLocator {
    /// The timestamp of the item, to the second.
    pub timestamp: Timestamp,
    /// The index of the item among those of its name.
    pub index: usize,
    /// The file extension.
    pub extension: String,
}

/// What an item locator holds, as values of specifications.
pub struct ItemLocatorView {
    pub timestamp: Timestamp,
    pub index: usize,
    pub extension: Seq<char>,
}

impl View for ItemLocator {
    type V = ItemLocatorView;

    open spec fn view(&self) -> ItemLocatorView {
        ItemLocatorView {
            timestamp: self.timestamp,
            index: self.index,
            extension: self.extension@,
        }
    }
}

/// The number that a group holds, where the group took part in the match
/// and holds a number.
pub open spec fn group_number(groups: Seq<Option<Seq<char>>>, i: int) -> Option<i32> {
    if 0 <= i < groups.len() && groups[i] is Some {
        i32_of_text(groups[i].unwrap())
    } else {
        None
    }
}

/// The item locator that the groups of a match of the pattern for names
/// stand for: groups 1 to 6 hold year, month, day, hour, minute and second,
/// group 7 the index, which is 0 where the group is missing or holds no
/// number, and group 8 the extension. `None` where one of the six numbers
/// or the extension is missing.
pub open spec fn locator_of_groups(groups: Seq<Option<Seq<char>>>) -> Option<ItemLocatorView> {
    if groups.len() == 9 && group_number(groups, 1) is Some && group_number(groups, 2) is Some
        && group_number(groups, 3) is Some && group_number(groups, 4) is Some && group_number(
        groups,
        5,
    ) is Some && group_number(groups, 6) is Some && groups[8] is Some {
        Some(
            ItemLocatorView {
                timestamp: Timestamp {
                    year: group_number(groups, 1).unwrap(),
                    month: group_number(groups, 2).unwrap(),
                    day: group_number(groups, 3).unwrap(),
                    hour: group_number(groups, 4).unwrap(),
                    minute: group_number(groups, 5).unwrap(),
                    second: group_number(groups, 6).unwrap(),
                },
                index: match groups[7] {
                    Some(text) => match usize_of_text(text) {
                        Some(index) => index,
                        None => 0,
                    },
                    None => 0,
                },
                extension: groups[8].unwrap(),
            },
        )
    } else {
        None
    }
}

/// The item locator that a name stands for.
pub open spec fn locator_in(name: Seq<char>) -> Option<ItemLocatorView> {
    match captured(ITEM_LOCATOR_PATTERN@, name) {
        Some(groups) => locator_of_groups(groups),
        None => None,
    }
}

fn number_of_group(groups: &Vec<Option<String>>, i: usize) -> (r: Option<i32>)
    ensures
        r == group_number(group_views(groups@), i as int),
{
    if i < groups.len() {
        match &groups[i] {
            Some(text) => parse_i32(text.as_str()),
            None => None,
        }
    } else {
        None
    }
}

impl ItemLocator {
    /// The item locator that the groups of a match of the pattern for
    /// names stand for.
    pub fn from_groups(groups: &Vec<Option<String>>) -> (r: Result<ItemLocator, ()>)
        ensures
            r is Ok == locator_of_groups(group_views(groups@)) is Some,
            r is Ok ==> r.unwrap()@ == locator_of_groups(group_views(groups@)).unwrap(),
    {
        if groups.len() != 9 {
            return Err(());
        }
        let year = number_of_group(groups, 1);
        let month = number_of_group(groups, 2);
        let day = number_of_group(groups, 3);
        let hour = number_of_group(groups, 4);
        let minute = number_of_group(groups, 5);
        let second = number_of_group(groups, 6);
        match (year, month, day, hour, minute, second, &groups[8]) {
            (Some(y), Some(mo), Some(d), Some(h), Some(mi), Some(s), Some(extension)) => {
                let index = match &groups[7] {
                    Some(text) => match parse_usize(text.as_str()) {
                        Some(index) => index,
                        None => 0,
                    },
                    None => 0,
                };
                Ok(
                    ItemLocator {
                        timestamp: Timestamp {
                            year: y,
                            month: mo,
                            day: d,
                            hour: h,
                            minute: mi,
                            second: s,
                        },
                        index,
                        extension: extension.clone(),
                    },
                )
            },
            _ => Err(()),
        }
    }

    /// Reads the name of an item apart.
    pub fn from_str(s: &str) -> (r: Result<ItemLocator, ()>)
        ensures
            r is Ok == locator_in(s@) is Some,
            r is Ok ==> r.unwrap()@ == locator_in(s@).unwrap(),
    {
        match captures(ITEM_LOCATOR_PATTERN, s) {
            Some(groups) => ItemLocator::from_groups(&groups),
            None => Err(()),
        }
    }
}

impl std::str::FromStr for ItemLocator {
    type Err = ();

    /// Reads the name of an item apart.
    fn from_str(s: &str) -> (r: Result<ItemLocator, ()>)
        ensures
            r is Ok == locator_in(s@) is Some,
            r is Ok ==> r.unwrap()@ == locator_in(s@).unwrap(),
    {
        ItemLocator::from_str(s)
    }
}

/// A place in the tree of days.
#[derive(Debug, Eq, PartialEq)]
pub enum Location {
    /// The root, which holds the years.
    Root,
    /// A year.
    Year(i32),
    /// A month of a year.
    Month(i32, i32),
    /// A day of a month.
    Day(i32, i32, i32),
    /// An item of a day.
    Item(ItemLocator),
}

/// A place in the tree of days, as a value of specifications.
pub enum LocationView {
    Root,
    Year(i32),
    Month(i32, i32),
    Day(i32, i32, i32),
    Item(ItemLocatorView),
}

impl View for Location {
    type V = LocationView;

    open spec fn view(&self) -> LocationView {
        match self {
            Location::Root => LocationView::Root,
            Location::Year(y) => LocationView::Year(*y),
            Location::Month(y, m) => LocationView::Month(*y, *m),
            Location::Day(y, m, d) => LocationView::Day(*y, *m, *d),
            Location::Item(item) => LocationView::Item(item@),
        }
    }
}

/// The place that a year, a month, a day and an item name together, each
/// of which may be missing: nothing may follow what is missing, and an
/// item must be one of the day.
pub open spec fn location_of(
    year: Option<i32>,
    month: Option<i32>,
    day: Option<i32>,
    item: Option<ItemLocatorView>,
) -> Option<LocationView> {
    match (year, month, day, item) {
        (None, None, None, None) => Some(LocationView::Root),
        (Some(y), None, None, None) => Some(LocationView::Year(y)),
        (Some(y), Some(m), None, None) => Some(LocationView::Month(y, m)),
        (Some(y), Some(m), Some(d), None) => Some(LocationView::Day(y, m, d)),
        (Some(y), Some(m), Some(d), Some(i)) => if y == i.timestamp.year && m == i.timestamp.month
            && d == i.timestamp.day {
            Some(LocationView::Item(i))
        } else {
            None
        },
        _ => None,
    }
}

/// The text of a component of a path.
pub open spec fn component_text(component: crate::path::Step) -> Seq<char> {
    match component {
        crate::path::Step::RootDir => seq!['/'],
        crate::path::Step::CurDir => seq!['.'],
        crate::path::Step::ParentDir => seq!['.', '.'],
        crate::path::Step::Normal(name) => name,
    }
}

/// The number of a month or a day, which is written with two characters.
pub open spec fn two_character_number(text: Seq<char>) -> Option<i32> {
    if text.len() == 2 {
        i32_of_text(text)
    } else {
        None
    }
}

/// The place that the first four steps of a path name: a year, a month, a
/// day and the name of an item. `None` where one of them does not read as
/// what it is to be, or they name no place together.
pub open spec fn location_at(path: Seq<crate::path::Step>) -> Option<LocationView> {
    let year = if path.len() > 0 { Some(i32_of_text(component_text(path[0]))) } else { None };
    let month = if path.len() > 1 {
        Some(two_character_number(component_text(path[1])))
    } else {
        None
    };
    let day = if path.len() > 2 {
        Some(two_character_number(component_text(path[2])))
    } else {
        None
    };
    let item = if path.len() > 3 { Some(locator_in(component_text(path[3]))) } else { None };
    if (year is Some && year.unwrap() is None) || (month is Some && month.unwrap() is None) || (
    day is Some && day.unwrap() is None) || (item is Some && item.unwrap() is None) {
        None
    } else {
        location_of(
            if year is Some { year.unwrap() } else { None },
            if month is Some { month.unwrap() } else { None },
            if day is Some { day.unwrap() } else { None },
            if item is Some { item.unwrap() } else { None },
        )
    }
}

fn text_of(component: &Component) -> (r: String)
    ensures
        r@ == component_text(component@),
{
    proof {
        reveal_strlit("/");
        reveal_strlit(".");
        reveal_strlit("..");
    }
    match component {
        Component::RootDir => {
            let r = String::from_str("/");
            assert(r@ =~= seq!['/']);
            r
        },
        Component::CurDir => {
            let r = String::from_str(".");
            assert(r@ =~= seq!['.']);
            r
        },
        Component::ParentDir => {
            let r = String::from_str("..");
            assert(r@ =~= seq!['.', '.']);
            r
        },
        Component::Normal(name) => name.clone(),
    }
}

fn parse_two_characters(text: &str) -> (r: Option<i32>)
    ensures
        r == two_character_number(text@),
{
    if text.unicode_len() == 2 {
        parse_i32(text)
    } else {
        None
    }
}

impl Location {
    /// The place that a year, a month, a day and an item name together.
    pub fn new(
        year: Option<i32>,
        month: Option<i32>,
        day: Option<i32>,
        item: Option<ItemLocator>,
    ) -> (r: Option<Location>)
        ensures
            r is Some == location_of(
                year,
                month,
                day,
                match item {
                    Some(i) => Some(i@),
                    None => None,
                },
            ) is Some,
            r is Some ==> r.unwrap()@ == location_of(
                year,
                month,
                day,
                match item {
                    Some(i) => Some(i@),
                    None => None,
                },
            ).unwrap(),
    {
        match (year, month, day, item) {
            (None, None, None, None) => Some(Location::Root),
            (Some(y), None, None, None) => Some(Location::Year(y)),
            (Some(y), Some(m), None, None) => Some(Location::Month(y, m)),
            (Some(y), Some(m), Some(d), None) => Some(Location::Day(y, m, d)),
            (Some(y), Some(m), Some(d), Some(i)) => {
                if y == i.timestamp.year() && m == i.timestamp.month() && d == i.timestamp.day() {
                    Some(Location::Item(i))
                } else {
                    None
                }
            },
            _ => None,
        }
    }

    /// The place that the first four components of a path name.
    pub fn try_from(path: &Vec<Component>) -> (r: Option<Location>)
        ensures
            r is Some == location_at(crate::path::steps(path@)) is Some,
            r is Some ==> r.unwrap()@ == location_at(crate::path::steps(path@)).unwrap(),
    {
        proof {
            assert(crate::path::steps(path@).skip(0) =~= crate::path::steps(path@));
        }
        Location::try_from_rest(path, 0)
    }

    /// The place that the first four components of a path name, counted
    /// from its `from`-th.
    pub fn try_from_rest(path: &Vec<Component>, from: usize) -> (r: Option<Location>)
        requires
            from <= path.len(),
        ensures
            r is Some == location_at(crate::path::steps(path@).skip(from as int)) is Some,
            r is Some ==> r.unwrap()@ == location_at(
                crate::path::steps(path@).skip(from as int),
            ).unwrap(),
    {
        let ghost all = crate::path::steps(path@).skip(from as int);
        let left = path.len() - from;
        let year = if left > 0 {
            assert(all[0] == path@[from + 0]@);
            match parse_i32(text_of(&path[from]).as_str()) {
                Some(y) => Some(y),
                None => {
                    return None;
                },
            }
        } else {
            None
        };
        let month = if left > 1 {
            assert(all[1] == path@[from + 1]@);
            match parse_two_characters(text_of(&path[from + 1]).as_str()) {
                Some(m) => Some(m),
                None => {
                    return None;
                },
            }
        } else {
            None
        };
        let day = if left > 2 {
            assert(all[2] == path@[from + 2]@);
            match parse_two_characters(text_of(&path[from + 2]).as_str()) {
                Some(d) => Some(d),
                None => {
                    return None;
                },
            }
        } else {
            None
        };
        let item = if left > 3 {
            assert(all[3] == path@[from + 3]@);
            match ItemLocator::from_str(text_of(&path[from + 3]).as_str()) {
                Ok(i) => Some(i),
                Err(_) => {
                    return None;
                },
            }
        } else {
            None
        };
        Location::new(year, month, day, item)
    }
}

} // verus!
