//! Finding what stands at a path in a list of items, without a tree: the
//! days of the items are the directories, and the items of a day its
//! entries.

use vstd::prelude::*;
use crate::cache::item_views;
use crate::item::{Item, ItemView};
use crate::locator::{location_at, ItemLocator, Location, LocationView};
use crate::path::{extension_of, file_stem_of, name, name_text, steps, Component, Path, Step};
use crate::text::{decimal, decimal_padded, distinct, push_decimal, push_decimal_padded, same_text,
    views};
use crate::time::{Timespec, Timestamp};

verus! {

/// What a locator finds at a path.
#[derive(Debug, PartialEq)]
pub enum Entry {
    /// A directory: its timestamp, and the names in it, each once.
    Directory(Timespec, Vec<String>),
    /// A link to an item: its timestamp, and the path to the item.
    Link(Timespec, String),
    /// An item.
    Item(Item),
}

/// What a locator finds at a path, as a value of specifications.
pub enum EntryView {
    Directory(Timespec, Seq<Seq<char>>),
    Link(Timespec, Seq<char>),
    Item(ItemView),
}

impl View for Entry {
    type V = EntryView;

    open spec fn view(&self) -> EntryView {
        match self {
            Entry::Directory(timestamp, names) => EntryView::Directory(*timestamp, views(names@)),
            Entry::Link(timestamp, target) => EntryView::Link(*timestamp, target@),
            Entry::Item(item) => EntryView::Item(item@),
        }
    }
}

/// The view of what may have been found.
pub open spec fn found(entry: Option<Entry>) -> Option<EntryView> {
    match entry {
        Some(e) => Some(e@),
        None => None,
    }
}

impl EntryView {
    pub open spec fn timestamp(self) -> Timespec {
        match self {
            EntryView::Directory(timestamp, _) => timestamp,
            EntryView::Link(timestamp, _) => timestamp,
            EntryView::Item(item) => item.timestamp.timespec(),
        }
    }

    /// The name of an item or a link at an index.
    pub open spec fn name(self, index: nat) -> Seq<char> {
        match self {
            EntryView::Item(item) => item_name(item, index),
            EntryView::Link(_, target) => name_text(
                match file_stem_of(target) {
                    Some(stem) => stem,
                    None => "bin"@,
                },
                match extension_of(target) {
                    Some(ext) => ext,
                    None => "bin"@,
                },
                index,
            ),
            EntryView::Directory(_, _) => Seq::empty(),
        }
    }
}

/// The name of an item at an index.
pub open spec fn item_name(item: ItemView, index: nat) -> Seq<char> {
    name_text(item.timestamp.text(), item.extension(), index)
}

impl Entry {
    /// The timestamp of this entry.
    pub fn timestamp(&self) -> (r: Timespec)
        ensures
            r == self@.timestamp(),
    {
        match self {
            Entry::Directory(timestamp, _) => *timestamp,
            Entry::Link(timestamp, _) => *timestamp,
            Entry::Item(item) => item.timestamp.to_timespec(),
        }
    }

    /// The name of an item or a link at an index.
    pub fn name(&self, index: usize) -> (r: String)
        requires
            !(self is Directory),
        ensures
            r@ == self@.name(index as nat),
    {
        match self {
            Entry::Item(item) => name(item, item, index),
            Entry::Link(_, target) => {
                let path = Path::new(target.as_str());
                name(&path, &path, index)
            },
            Entry::Directory(_, _) => String::new(),
        }
    }
}

/// Finds what stands at a path in a list of items.
pub trait Locator {
    /// What stands at the path that starts with the `from`-th component of
    /// `path`.
    fn locate(&self, items: &Vec<Item>, path: &Vec<Component>, from: usize) -> (r: Option<Entry>)
        requires
            from <= path@.len(),
    ;
}

/// A year, a month and a day.
pub type Day = (i32, i32, i32);

/// Which part of a day names a directory.
#[derive(Clone, Copy, Debug, PartialEq, Eq, Structural)]
pub enum Part {
    Year,
    Month,
    Day,
}

/// Whether a day is not later than another.
pub open spec fn day_at_most(a: Day, b: Day) -> bool {
    a.0 < b.0 || (a.0 == b.0 && (a.1 < b.1 || (a.1 == b.1 && a.2 <= b.2)))
}

/// The latest of the first `n` days, of which there is at least one.
pub open spec fn latest_day(days: Seq<Day>, n: nat) -> Day
    decreases n,
{
    if n <= 1 || n > days.len() {
        days[0]
    } else {
        let before = latest_day(days, (n - 1) as nat);
        if day_at_most(before, days[n - 1]) {
            days[n - 1]
        } else {
            before
        }
    }
}

/// The name of the directory of a part of a day: the year as it is, the
/// month and the day at least two digits wide.
pub open spec fn part_text(day: Day, part: Part) -> Seq<char> {
    match part {
        Part::Year => decimal(day.0 as int),
        Part::Month => decimal_padded(day.1 as int),
        Part::Day => decimal_padded(day.2 as int),
    }
}

/// The names of the directories of days.
pub open spec fn part_texts(days: Seq<Day>, part: Part) -> Seq<Seq<char>> {
    Seq::new(days.len(), |i: int| part_text(days[i], part))
}

/// The directory that lists days by one of their parts: its timestamp is
/// midnight of the latest day, and it holds the name of each day once.
/// `None` where there is no day.
pub open spec fn listing(days: Seq<Day>, part: Part) -> Option<EntryView> {
    if days.len() == 0 {
        None
    } else {
        let latest = latest_day(days, days.len());
        Some(
            EntryView::Directory(
                Timestamp {
                    year: latest.0,
                    month: latest.1,
                    day: latest.2,
                    hour: 0,
                    minute: 0,
                    second: 0,
                }.timespec(),
                distinct(part_texts(days, part)),
            ),
        )
    }
}

fn contains_name(names: &Vec<String>, name: &str) -> (r: bool)
    ensures
        r == views(names@).contains(name@),
{
    let mut i: usize = 0;
    while i < names.len()
        invariant
            i <= names.len(),
            forall|j: int| 0 <= j < i ==> views(names@)[j] != name@,
        decreases names.len() - i,
    {
        if same_text(names[i].as_str(), name) {
            assert(views(names@)[i as int] == name@);
            return true;
        }
        i += 1;
    }
    false
}

fn earlier_or_same(a: Day, b: Day) -> (r: bool)
    ensures
        r == day_at_most(a, b),
{
    a.0 < b.0 || (a.0 == b.0 && (a.1 < b.1 || (a.1 == b.1 && a.2 <= b.2)))
}

fn text_of_part(day: Day, part: Part) -> (r: String)
    ensures
        r@ == part_text(day, part),
{
    let mut s = String::new();
    match part {
        Part::Year => push_decimal(&mut s, day.0 as i64),
        Part::Month => push_decimal_padded(&mut s, day.1 as i64),
        Part::Day => push_decimal_padded(&mut s, day.2 as i64),
    }
    assert(s@ =~= part_text(day, part));
    s
}

/// The directory that lists days by one of their parts.
pub fn directory(days: &Vec<Day>, part: Part) -> (r: Option<Entry>)
    ensures
        found(r) == listing(days@, part),
{
    if days.len() == 0 {
        return None;
    }
    let mut latest = days[0];
    let mut names: Vec<String> = Vec::new();
    let mut i: usize = 0;
    proof {
        assert(part_texts(days@, part).take(0) =~= Seq::empty());
        assert(views(names@) =~= Seq::empty());
    }
    while i < days.len()
        invariant
            i <= days.len(),
            days.len() > 0,
            latest == latest_day(days@, i as nat),
            views(names@) == distinct(part_texts(days@, part).take(i as int)),
        decreases days.len() - i,
    {
        if i > 0 && earlier_or_same(latest, days[i]) {
            latest = days[i];
        }
        let text = text_of_part(days[i], part);
        proof {
            let now = part_texts(days@, part).take(i + 1);
            assert(now.drop_last() =~= part_texts(days@, part).take(i as int));
            assert(now.last() == text@);
        }
        if !contains_name(&names, text.as_str()) {
            let ghost before = views(names@);
            names.push(text);
            assert(views(names@) =~= before.push(text@));
        }
        i += 1;
    }
    proof {
        assert(part_texts(days@, part).take(days.len() as int) =~= part_texts(days@, part));
    }
    let timestamp = Timestamp {
        year: latest.0,
        month: latest.1,
        day: latest.2,
        hour: 0,
        minute: 0,
        second: 0,
    }.to_timespec();
    Some(Entry::Directory(timestamp, names))
}

/// Whether a timestamp lies in a year, a month and a day, as far as they
/// are given.
pub open spec fn lies_in(
    timestamp: Timestamp,
    year: Option<i32>,
    month: Option<i32>,
    day: Option<i32>,
) -> bool {
    &&& year is None || timestamp.year == year.unwrap()
    &&& month is None || timestamp.month == month.unwrap()
    &&& day is None || timestamp.day == day.unwrap()
}

/// The items whose timestamps lie in a year, a month and a day, as far as
/// they are given, in their order.
pub open spec fn chosen(
    items: Seq<ItemView>,
    year: Option<i32>,
    month: Option<i32>,
    day: Option<i32>,
) -> Seq<ItemView> {
    items.filter(|item: ItemView| lies_in(item.timestamp, year, month, day))
}

/// The day of a timestamp as far as a part, and the first of what follows.
pub open spec fn day_of(timestamp: Timestamp, part: Part) -> Day {
    match part {
        Part::Year => (timestamp.year, 1i32, 1i32),
        Part::Month => (timestamp.year, timestamp.month, 1i32),
        Part::Day => (timestamp.year, timestamp.month, timestamp.day),
    }
}

/// The days of items as far as a part.
pub open spec fn days_of(items: Seq<ItemView>, part: Part) -> Seq<Day> {
    Seq::new(items.len(), |i: int| day_of(items[i].timestamp, part))
}

/// Copies of the items whose timestamps lie in a year, a month and a day.
pub fn choose_items(items: &Vec<Item>, year: Option<i32>, month: Option<i32>, day: Option<i32>) -> (r:
    Vec<Item>)
    ensures
        item_views(r@) == chosen(item_views(items@), year, month, day),
{
    let ghost all = item_views(items@);
    let ghost keep = |item: ItemView| lies_in(item.timestamp, year, month, day);
    let mut r: Vec<Item> = Vec::new();
    let mut i: usize = 0;
    proof {
        assert(all.take(0) =~= Seq::empty());
        assert(Seq::<ItemView>::empty().filter(keep) =~= Seq::empty()) by {
            reveal(Seq::filter);
        }
        assert(item_views(r@) =~= Seq::empty());
    }
    while i < items.len()
        invariant
            i <= items.len(),
            all == item_views(items@),
            keep == |item: ItemView| lies_in(item.timestamp, year, month, day),
            item_views(r@) == all.take(i as int).filter(keep),
        decreases items.len() - i,
    {
        let timestamp = &items[i].timestamp;
        proof {
            assert(all.take(i + 1).drop_last() =~= all.take(i as int));
            assert(all.take(i + 1).last() == items@[i as int]@);
            reveal(Seq::filter);
        }
        let fits = (match year {
            Some(y) => timestamp.year() == y,
            None => true,
        }) && (match month {
            Some(m) => timestamp.month() == m,
            None => true,
        }) && (match day {
            Some(d) => timestamp.day() == d,
            None => true,
        });
        if fits {
            let ghost before = item_views(r@);
            r.push(items[i].duplicate());
            assert(item_views(r@) =~= before.push(items@[i as int]@));
        }
        i += 1;
    }
    assert(all.take(items.len() as int) =~= all);
    r
}

fn days(items: &Vec<Item>, part: Part) -> (r: Vec<Day>)
    ensures
        r@ == days_of(item_views(items@), part),
{
    let mut r: Vec<Day> = Vec::new();
    let mut i: usize = 0;
    while i < items.len()
        invariant
            i <= items.len(),
            r.len() == i,
            forall|j: int| 0 <= j < i ==> r@[j] == day_of(items@[j].timestamp, part),
        decreases items.len() - i,
    {
        let t = &items[i].timestamp;
        r.push(
            match part {
                Part::Year => (t.year(), 1, 1),
                Part::Month => (t.year(), t.month(), 1),
                Part::Day => (t.year(), t.month(), t.day()),
            },
        );
        i += 1;
    }
    assert(r@ =~= days_of(item_views(items@), part));
    r
}

/// An item put into a list that is in the order of time, behind the items
/// that are not later than it.
pub open spec fn inserted_by_time(sorted: Seq<ItemView>, item: ItemView) -> Seq<ItemView>
    decreases sorted.len(),
{
    if sorted.len() == 0 {
        seq![item]
    } else if sorted.last().timestamp.timespec().at_most(item.timestamp.timespec()) {
        sorted.push(item)
    } else {
        inserted_by_time(sorted.drop_last(), item).push(sorted.last())
    }
}

/// Items in the order of time; items of one time keep their order.
pub open spec fn sorted_by_time(items: Seq<ItemView>) -> Seq<ItemView>
    decreases items.len(),
{
    if items.len() == 0 {
        Seq::empty()
    } else {
        inserted_by_time(sorted_by_time(items.drop_last()), items.last())
    }
}

proof fn lemma_inserted_at(sorted: Seq<ItemView>, item: ItemView, p: int)
    requires
        0 <= p <= sorted.len(),
        p > 0 ==> sorted[p - 1].timestamp.timespec().at_most(item.timestamp.timespec()),
        forall|j: int|
            p <= j < sorted.len() ==> !(#[trigger] sorted[j]).timestamp.timespec().at_most(
                item.timestamp.timespec(),
            ),
    ensures
        inserted_by_time(sorted, item) == sorted.take(p) + seq![item] + sorted.skip(p),
    decreases sorted.len(),
{
    if sorted.len() == 0 {
        assert(inserted_by_time(sorted, item) =~= sorted.take(p) + seq![item] + sorted.skip(p));
    } else if p == sorted.len() {
        assert(sorted.push(item) =~= sorted.take(p) + seq![item] + sorted.skip(p));
    } else {
        let front = sorted.drop_last();
        assert(!sorted[sorted.len() - 1].timestamp.timespec().at_most(item.timestamp.timespec()));
        assert forall|j: int| p <= j < front.len() implies !(#[trigger] front[j]).timestamp.timespec().at_most(
            item.timestamp.timespec(),
        ) by {
            assert(front[j] == sorted[j]);
        }
        if p > 0 {
            assert(front[p - 1] == sorted[p - 1]);
        }
        lemma_inserted_at(front, item, p);
        assert(inserted_by_time(front, item).push(sorted.last()) =~= sorted.take(p) + seq![item]
            + sorted.skip(p));
    }
}

/// Puts items into the order of time.
pub fn sort_by_time(items: Vec<Item>) -> (r: Vec<Item>)
    ensures
        item_views(r@) == sorted_by_time(item_views(items@)),
{
    let ghost all = item_views(items@);
    let ghost given = items@;
    let mut r: Vec<Item> = Vec::new();
    proof {
        assert(all.take(0) =~= Seq::empty());
        assert(item_views(r@) =~= Seq::empty());
    }
    for item in it: items
        invariant
            it.seq() == given,
            all == item_views(given),
            item_views(r@) == sorted_by_time(all.take(it.index() as int)),
    {
        let ghost i = it.index() as int;
        let ghost before = item_views(r@);
        let time = item.timestamp.to_timespec();
        let mut p: usize = r.len();
        while p > 0 && time.earlier_than(&r[p - 1].timestamp.to_timespec())
            invariant
                p <= r.len(),
                before == item_views(r@),
                time == item@.timestamp.timespec(),
                forall|j: int|
                    p <= j < r.len() ==> !(#[trigger] before[j]).timestamp.timespec().at_most(time),
            decreases p,
        {
            p -= 1;
        }
        proof {
            assert(all.take(i + 1).drop_last() =~= all.take(i));
            assert(all.take(i + 1).last() == item@);
            if p > 0 {
                assert(before[p - 1].timestamp.timespec().at_most(time));
            }
            lemma_inserted_at(before, item@, p as int);
        }
        r.insert(p, item);
        assert(item_views(r@) =~= before.take(p as int) + seq![item@] + before.skip(p as int));
    }
    assert(all.take(all.len() as int) =~= all);
    r
}

/// The names that the first `n` of the items of a day are listed under:
/// each has its name at index 0, unless the item before it is listed under
/// just that name; then it has its name at index 1.
pub open spec fn listed_names(items: Seq<ItemView>, n: nat) -> Seq<Seq<char>>
    decreases n,
{
    if n == 0 || n > items.len() {
        Seq::empty()
    } else {
        let before = listed_names(items, (n - 1) as nat);
        let first = item_name(items[n - 1], 0);
        if before.len() > 0 && before.last() == first {
            before.push(item_name(items[n - 1], 1))
        } else {
            before.push(first)
        }
    }
}

/// The directory of a day: its timestamp is that of the latest of its
/// items, and it holds the names that the items are listed under in the
/// order of time, each once. `None` where the day has no item.
pub open spec fn day_listing(items: Seq<ItemView>) -> Option<EntryView> {
    if items.len() == 0 {
        None
    } else {
        let sorted = sorted_by_time(items);
        Some(
            EntryView::Directory(
                sorted.last().timestamp.timespec(),
                distinct(listed_names(sorted, sorted.len())),
            ),
        )
    }
}

/// Sorting keeps the number of items.
pub proof fn lemma_sorted_len(items: Seq<ItemView>)
    ensures
        sorted_by_time(items).len() == items.len(),
    decreases items.len(),
{
    if items.len() > 0 {
        lemma_sorted_len(items.drop_last());
        lemma_inserted_len(sorted_by_time(items.drop_last()), items.last());
    }
}

proof fn lemma_inserted_len(sorted: Seq<ItemView>, item: ItemView)
    ensures
        inserted_by_time(sorted, item).len() == sorted.len() + 1,
    decreases sorted.len(),
{
    if sorted.len() > 0 {
        lemma_inserted_len(sorted.drop_last(), item);
    }
}

/// What stands at a place in the tree of days of a list of items.
pub open spec fn located(items: Seq<ItemView>, location: LocationView) -> Option<EntryView> {
    match location {
        LocationView::Root => listing(days_of(items, Part::Year), Part::Year),
        LocationView::Year(y) => listing(
            days_of(chosen(items, Some(y), None, None), Part::Month),
            Part::Month,
        ),
        LocationView::Month(y, m) => listing(
            days_of(chosen(items, Some(y), Some(m), None), Part::Day),
            Part::Day,
        ),
        LocationView::Day(y, m, d) => day_listing(chosen(items, Some(y), Some(m), Some(d))),
        LocationView::Item(item) => {
            let of_day = chosen(
                items,
                Some(item.timestamp.year),
                Some(item.timestamp.month),
                Some(item.timestamp.day),
            );
            if item.index < of_day.len() {
                Some(EntryView::Item(of_day[item.index as int]))
            } else {
                None
            }
        },
    }
}

/// What stands at a path in the tree of days of a list of items.
pub open spec fn located_at(items: Seq<ItemView>, path: Seq<Step>) -> Option<EntryView> {
    match location_at(path) {
        Some(location) => located(items, location),
        None => None,
    }
}

/// A locator for the tree of days: years hold months, months hold days,
/// and days hold items.
#[derive(Clone, Copy, Debug, PartialEq, Eq, Structural)]
pub struct TimestampsLocator;

impl TimestampsLocator {
    pub fn new() -> (r: TimestampsLocator) {
        TimestampsLocator {  }
    }

    /// The years.
    pub fn locate_root(&self, items: &Vec<Item>) -> (r: Option<Entry>)
        ensures
            found(r) == located(item_views(items@), LocationView::Root),
    {
        directory(&days(items, Part::Year), Part::Year)
    }

    /// The months of a year.
    pub fn locate_year(&self, items: &Vec<Item>, year: i32) -> (r: Option<Entry>)
        ensures
            found(r) == located(item_views(items@), LocationView::Year(year)),
    {
        let of_year = choose_items(items, Some(year), None, None);
        directory(&days(&of_year, Part::Month), Part::Month)
    }

    /// The days of a month.
    pub fn locate_month(&self, items: &Vec<Item>, year: i32, month: i32) -> (r: Option<Entry>)
        ensures
            found(r) == located(item_views(items@), LocationView::Month(year, month)),
    {
        let of_month = choose_items(items, Some(year), Some(month), None);
        directory(&days(&of_month, Part::Day), Part::Day)
    }

    /// The items of a day.
    pub fn locate_day(&self, items: &Vec<Item>, year: i32, month: i32, day: i32) -> (r: Option<
        Entry,
    >)
        ensures
            found(r) == located(item_views(items@), LocationView::Day(year, month, day)),
    {
        let of_day = choose_items(items, Some(year), Some(month), Some(day));
        if of_day.len() == 0 {
            return None;
        }
        let sorted = sort_by_time(of_day);
        let ghost all = item_views(sorted@);
        proof {
            lemma_sorted_len(item_views(of_day@));
        }
        let timestamp = sorted[sorted.len() - 1].timestamp.to_timespec();
        let mut listed: Vec<String> = Vec::new();
        let mut names: Vec<String> = Vec::new();
        let mut i: usize = 0;
        proof {
            assert(views(listed@) =~= Seq::empty());
            assert(views(names@) =~= Seq::empty());
        }
        while i < sorted.len()
            invariant
                i <= sorted.len(),
                all == item_views(sorted@),
                views(listed@) == listed_names(all, i as nat),
                views(names@) == distinct(views(listed@)),
            decreases sorted.len() - i,
        {
            let first = name(&sorted[i], &sorted[i], 0);
            let taken = listed.len() > 0 && same_text(
                listed[listed.len() - 1].as_str(),
                first.as_str(),
            );
            let text = if taken { name(&sorted[i], &sorted[i], 1) } else { first };
            proof {
                assert(all[i as int] == sorted@[i as int]@);
                if listed.len() > 0 {
                    assert(views(listed@).last() == listed@[listed.len() - 1]@);
                }
            }
            let ghost before = views(listed@);
            if !contains_name(&names, text.as_str()) {
                let ghost kept = views(names@);
                names.push(text.clone());
                assert(views(names@) =~= kept.push(text@));
            }
            listed.push(text);
            proof {
                assert(views(listed@) =~= before.push(text@));
                assert(views(listed@).drop_last() =~= before);
            }
            i += 1;
        }
        Some(Entry::Directory(timestamp, names))
    }

    /// An item of a day.
    pub fn locate_item(&self, items: &Vec<Item>, item: &ItemLocator) -> (r: Option<Entry>)
        ensures
            found(r) == located(item_views(items@), LocationView::Item(item@)),
    {
        let of_day = choose_items(
            items,
            Some(item.timestamp.year()),
            Some(item.timestamp.month()),
            Some(item.timestamp.day()),
        );
        if item.index < of_day.len() {
            assert(item_views(of_day@)[item.index as int] == of_day@[item.index as int]@);
            Some(Entry::Item(of_day[item.index].duplicate()))
        } else {
            None
        }
    }

    /// What stands at a path, from its `from`-th component on.
    pub fn locate_at(&self, items: &Vec<Item>, path: &Vec<Component>, from: usize) -> (r: Option<
        Entry,
    >)
        requires
            from <= path@.len(),
        ensures
            found(r) == located_at(item_views(items@), steps(path@).skip(from as int)),
    {
        match Location::try_from_rest(path, from) {
            None => None,
            Some(Location::Root) => self.locate_root(items),
            Some(Location::Year(y)) => self.locate_year(items, y),
            Some(Location::Month(y, m)) => self.locate_month(items, y, m),
            Some(Location::Day(y, m, d)) => self.locate_day(items, y, m, d),
            Some(Location::Item(item)) => self.locate_item(items, &item),
        }
    }
}

impl Locator for TimestampsLocator {
    fn locate(&self, items: &Vec<Item>, path: &Vec<Component>, from: usize) -> (r: Option<Entry>)
        ensures
            found(r) == located_at(item_views(items@), steps(path@).skip(from as int)),
    {
        self.locate_at(items, path, from)
    }
}

/// A locator that hands a path on to the locator that is registered under
/// the first name in the path.
pub struct DispatchLocator<L: Locator> {
    pub dispatch: Vec<(String, L)>,
}

/// What a dispatching locator does with a path.
#[derive(Clone, Copy, Debug, PartialEq, Eq, Structural)]
pub enum Route {
    /// The path holds no name: it leads to the list of what is registered.
    Listing,
    /// Nothing is registered under the first name.
    Unknown,
    /// The locator at a place is registered under the first name, and the
    /// rest of the path starts at a component.
    To(usize, usize),
}

/// The place of the first name among the steps of a path from `from` on,
/// or the number of steps where there is none.
pub open spec fn first_name(path: Seq<Step>, from: int) -> int
    decreases path.len() - from,
{
    if from >= path.len() || from < 0 {
        path.len() as int
    } else if path[from] is Normal {
        from
    } else {
        first_name(path, from + 1)
    }
}

/// The place of the first locator that is registered under a name, or the
/// number of locators where none is.
pub open spec fn registered<L>(dispatch: Seq<(String, L)>, name: Seq<char>) -> int
    decreases dispatch.len(),
{
    if dispatch.len() == 0 {
        0
    } else if dispatch[0].0@ == name {
        0
    } else {
        1 + registered(dispatch.drop_first(), name)
    }
}

proof fn lemma_registered<L>(dispatch: Seq<(String, L)>, name: Seq<char>)
    ensures
        0 <= registered(dispatch, name) <= dispatch.len(),
        forall|j: int| 0 <= j < registered(dispatch, name) ==> dispatch[j].0@ != name,
        registered(dispatch, name) < dispatch.len() ==> dispatch[registered(dispatch, name)].0@
            == name,
    decreases dispatch.len(),
{
    if dispatch.len() > 0 && dispatch[0].0@ != name {
        let rest = dispatch.drop_first();
        lemma_registered(rest, name);
        assert forall|j: int| 0 <= j < registered(dispatch, name) implies dispatch[j].0@
            != name by {
            if j > 0 {
                assert(dispatch[j] == rest[j - 1]);
            }
        }
        if registered(dispatch, name) < dispatch.len() {
            assert(dispatch[registered(dispatch, name)] == rest[registered(rest, name)]);
        }
    }
}

/// What a dispatching locator does with the steps of a path from `from`
/// on.
pub open spec fn route_of<L>(dispatch: Seq<(String, L)>, path: Seq<Step>, from: int) -> Route {
    let at = first_name(path, from);
    if at >= path.len() {
        Route::Listing
    } else {
        let i = registered(dispatch, path[at]->Normal_0);
        if i < dispatch.len() {
            Route::To(i as usize, (at + 1) as usize)
        } else {
            Route::Unknown
        }
    }
}

/// The names under which locators are registered.
pub open spec fn registered_names<L>(dispatch: Seq<(String, L)>) -> Seq<Seq<char>> {
    Seq::new(dispatch.len(), |i: int| dispatch[i].0@)
}

impl<L: Locator> DispatchLocator<L> {
    /// A locator with nothing registered.
    pub fn new() -> (r: DispatchLocator<L>)
        ensures
            r.dispatch@.len() == 0,
    {
        DispatchLocator { dispatch: Vec::new() }
    }

    fn find(&self, name: &str) -> (r: usize)
        ensures
            r == registered(self.dispatch@, name@),
            r <= self.dispatch@.len(),
    {
        let mut i: usize = 0;
        while i < self.dispatch.len()
            invariant
                i <= self.dispatch.len(),
                forall|j: int| 0 <= j < i ==> self.dispatch@[j].0@ != name@,
            decreases self.dispatch.len() - i,
        {
            if same_text(self.dispatch[i].0.as_str(), name) {
                proof {
                    lemma_registered(self.dispatch@, name@);
                }
                return i;
            }
            i += 1;
        }
        proof {
            lemma_registered(self.dispatch@, name@);
        }
        i
    }

    /// Registers a locator under a name, in place of the one that was
    /// registered under it, if one was.
    pub fn with(self, at: String, locator: L) -> (r: DispatchLocator<L>)
        ensures
            ({
                let i = registered(self.dispatch@, at@);
                if i < self.dispatch@.len() {
                    r.dispatch@ == self.dispatch@.update(i, (r.dispatch@[i].0, locator))
                        && r.dispatch@[i].0@ == at@
                } else {
                    r.dispatch@ == self.dispatch@.push((at, locator))
                }
            }),
    {
        let mut this = self;
        let i = this.find(at.as_str());
        if i < this.dispatch.len() {
            proof {
                lemma_registered(this.dispatch@, at@);
            }
            this.dispatch.remove(i);
            this.dispatch.insert(i, (at, locator));
            assert(this.dispatch@ =~= self.dispatch@.update(i as int, (at, locator)));
        } else {
            this.dispatch.push((at, locator));
        }
        this
    }

    /// What is to be done with a path, from its `from`-th component on.
    pub fn route(&self, path: &Vec<Component>, from: usize) -> (r: Route)
        requires
            from <= path@.len(),
        ensures
            r == route_of(self.dispatch@, steps(path@), from as int),
            r matches Route::To(i, rest) ==> i < self.dispatch@.len() && from < rest <= path@.len(),
    {
        let mut at: usize = from;
        while at < path.len()
            invariant
                from <= at <= path.len(),
                first_name(steps(path@), from as int) == first_name(steps(path@), at as int),
            decreases path.len() - at,
        {
            assert(steps(path@)[at as int] == path@[at as int]@);
            match &path[at] {
                Component::Normal(name) => {
                    let i = self.find(name.as_str());
                    return if i < self.dispatch.len() {
                        Route::To(i, at + 1)
                    } else {
                        Route::Unknown
                    };
                },
                _ => {},
            }
            at += 1;
        }
        Route::Listing
    }

    /// The directory that holds the names under which locators are
    /// registered. Its timestamp is the epoch.
    pub fn listing(&self) -> (r: Entry)
        ensures
            r@ == EntryView::Directory(Timespec::zero(), registered_names(self.dispatch@)),
    {
        let mut names: Vec<String> = Vec::new();
        let mut i: usize = 0;
        while i < self.dispatch.len()
            invariant
                i <= self.dispatch.len(),
                names.len() == i,
                forall|j: int| 0 <= j < i ==> (#[trigger] names@[j])@ == self.dispatch@[j].0@,
            decreases self.dispatch.len() - i,
        {
            names.push(self.dispatch[i].0.clone());
            i += 1;
        }
        assert(views(names@) =~= registered_names(self.dispatch@));
        Entry::Directory(Timespec::new(0, 0), names)
    }
}

impl<L: Locator> Locator for DispatchLocator<L> {
    /// What stands at a path: the list of what is registered where the path
    /// holds no name, and else what the locator that is registered under
    /// its first name finds at the rest of it.
    fn locate(&self, items: &Vec<Item>, path: &Vec<Component>, from: usize) -> (r: Option<Entry>)
        ensures
            route_of(self.dispatch@, steps(path@), from as int) is Listing ==> found(r) == Some(
                EntryView::Directory(Timespec::zero(), registered_names(self.dispatch@)),
            ),
            route_of(self.dispatch@, steps(path@), from as int) is Unknown ==> r is None,
    {
        match self.route(path, from) {
            Route::Listing => Some(self.listing()),
            Route::Unknown => None,
            Route::To(i, rest) => self.dispatch[i].1.locate(items, path, rest),
        }
    }
}

} // verus!
