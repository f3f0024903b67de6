use medifs::cache::{add_with_index, Cache, Child, Entry};
use medifs::item::Item;
use medifs::media::MediaType;
use medifs::tag::Tag;
use medifs::time::{Timespec, Timestamp};

fn jpeg(name: &str, ts: (i32, i32, i32), tags: Vec<Tag>) -> Item {
    Item::new(name, Timestamp::from(ts), tags)
}

fn names(entry: &Entry) -> Vec<String> {
    match entry {
        Entry::Directory(children) => children.iter().map(|c| c.name.clone()).collect(),
        _ => panic!("no directory"),
    }
}

#[test]
fn add_returns_the_path_under_the_day_and_lookup_finds_the_item() {
    let mut cache = Cache::new("/base".into(), "tagged".into());
    let item = jpeg("test.jpg", (2000, 1, 1), Vec::new());
    let path = cache.add(item.clone()).unwrap();
    assert_eq!("/base/2000/01/01/2000-01-01 00:00.jpeg", path);
    match cache.lookup(&path) {
        Some(Entry::Item(found)) => {
            assert_eq!(item.path, found.path);
            assert_eq!(item.timestamp, found.timestamp);
            assert_eq!(item.media_type, found.media_type);
        }
        other => panic!("{:?}", other),
    }
    assert_eq!(vec!["base"], names(cache.lookup("/").unwrap()));
    assert_eq!(vec!["2000"], names(cache.lookup("/base").unwrap()));
    assert_eq!(vec!["01"], names(cache.lookup("/base/2000").unwrap()));
    assert_eq!(vec!["01"], names(cache.lookup("/base/2000/01").unwrap()));
}

#[test]
fn add_pads_month_and_day_but_not_the_year() {
    let mut cache = Cache::new("All".into(), "Tagged".into());
    assert_eq!(
        "All/5/12/31/5-12-31 00:00.png",
        cache.add(jpeg("a.png", (5, 12, 31), Vec::new())).unwrap(),
    );
    assert_eq!(
        "All/-3/02/07/-3-02-07 00:00.png",
        cache.add(jpeg("a.png", (-3, 2, 7), Vec::new())).unwrap(),
    );
}

#[test]
fn add_gives_names_of_rising_index_to_items_of_one_name() {
    let mut cache = Cache::new("All".into(), "Tagged".into());
    let expected = [
        "All/2000/01/01/2000-01-01 00:00.jpeg",
        "All/2000/01/01/2000-01-01 00:00 (1).jpeg",
        "All/2000/01/01/2000-01-01 00:00 (2).jpeg",
        "All/2000/01/01/2000-01-01 00:00 (3).jpeg",
    ];
    for (i, path) in expected.iter().enumerate() {
        let item = jpeg(&format!("test{}.jpg", i), (2000, 1, 1), Vec::new());
        assert_eq!(*path, cache.add(item).unwrap());
    }
    for (i, path) in expected.iter().enumerate() {
        match cache.lookup(path) {
            Some(Entry::Item(found)) => assert_eq!(format!("test{}.jpg", i), found.path),
            other => panic!("{:?}", other),
        }
    }
    // Another extension is another name.
    assert_eq!(
        "All/2000/01/01/2000-01-01 00:00.png",
        cache.add(jpeg("other.png", (2000, 1, 1), Vec::new())).unwrap(),
    );
}

#[test]
fn add_puts_a_link_under_each_tag() {
    let mut cache = Cache::new("All".into(), "Tagged".into());
    let item = jpeg("test.jpg", (2000, 1, 2), vec![Tag::new("root/leaf"), Tag::new("solo")]);
    let path = cache.add(item).unwrap();
    assert_eq!("All/2000/01/02/2000-01-02 00:00.jpeg", path);
    assert_eq!(
        Some(&Entry::Link(
            Timespec::new(946771200, 0),
            String::from("../../../All/2000/01/02/2000-01-02 00:00.jpeg"),
        )),
        cache.lookup("/Tagged/root/leaf/2000-01-02 00:00.jpeg"),
    );
    assert_eq!(
        Some(&Entry::Link(
            Timespec::new(946771200, 0),
            String::from("../../All/2000/01/02/2000-01-02 00:00.jpeg"),
        )),
        cache.lookup("Tagged/solo/2000-01-02 00:00.jpeg"),
    );
    let mut top = names(cache.lookup("/").unwrap());
    top.sort();
    assert_eq!(vec!["All", "Tagged"], top);
}

#[test]
fn links_of_one_name_get_rising_indices_and_name_their_items() {
    let mut cache = Cache::new("All".into(), "Tagged".into());
    cache.add(jpeg("a.jpg", (2000, 1, 1), vec![Tag::new("t")])).unwrap();
    cache.add(jpeg("b.jpg", (2000, 1, 1), vec![Tag::new("t")])).unwrap();
    cache.add(jpeg("c.png", (2000, 1, 1), vec![Tag::new("t")])).unwrap();
    assert_eq!(
        vec![
            "2000-01-01 00:00.jpeg",
            "2000-01-01 00:00 (1).jpeg",
            "2000-01-01 00:00.png",
        ],
        names(cache.lookup("Tagged/t").unwrap()),
    );
    assert_eq!(
        Some(&Entry::Link(
            Timespec::new(946684800, 0),
            String::from("../../All/2000/01/01/2000-01-01 00:00 (1).jpeg"),
        )),
        cache.lookup("Tagged/t/2000-01-01 00:00 (1).jpeg"),
    );
}

#[test]
fn link_target_has_one_step_up_for_each_component_of_its_directory() {
    let mut cache = Cache::new("/base".into(), "/tagged".into());
    cache.add_link("/tagged/./x//y/", "/base/item.jpeg", Timespec::new(7, 0));
    assert_eq!(
        Some(&Entry::Link(Timespec::new(7, 0), String::from("../../../..//base/item.jpeg"))),
        cache.lookup("/tagged/x/y/item.jpeg"),
    );
    cache.add_link("", "item.jpeg", Timespec::new(7, 0));
    assert_eq!(
        Some(&Entry::Link(Timespec::new(7, 0), String::from("item.jpeg"))),
        cache.lookup("item.jpeg"),
    );
}

#[test]
fn a_link_whose_directory_cannot_be_had_is_left_out() {
    let mut cache = Cache::new("All".into(), "All/2000/01/01/2000-01-01 00:00.jpeg".into());
    let item = jpeg("test.jpg", (2000, 1, 1), vec![Tag::new("below")]);
    assert_eq!("All/2000/01/01/2000-01-01 00:00.jpeg", cache.add(item).unwrap());
    assert_eq!(None, cache.lookup("All/2000/01/01/2000-01-01 00:00.jpeg/below"));
    assert_eq!(vec!["2000-01-01 00:00.jpeg"], names(cache.lookup("All/2000/01/01").unwrap()));
}

#[test]
fn add_item_hands_the_item_back_where_the_directory_cannot_be_had() {
    let mut cache = Cache::new("All".into(), "Tagged".into());
    let first = jpeg("first.jpg", (2000, 1, 1), Vec::new());
    let path = cache.add_item("x", first).unwrap();
    assert_eq!("x/2000-01-01 00:00.jpeg", path);

    let second = jpeg("second.jpg", (2000, 1, 1), Vec::new());
    let back = cache.add_item(&path, second).unwrap_err();
    assert_eq!("second.jpg", back.path);

    let third = jpeg("third.jpg", (2000, 1, 1), Vec::new());
    let back = cache.add_item(&format!("{}/deeper/still", path), third).unwrap_err();
    assert_eq!("third.jpg", back.path);

    let fourth = jpeg("fourth.jpg", (2000, 1, 1), Vec::new());
    let back = cache.add_item("made/../x", fourth).unwrap_err();
    assert_eq!("fourth.jpg", back.path);
    // The directory before the `..` was made all the same.
    assert_eq!(Vec::<String>::new(), names(cache.lookup("made").unwrap()));
    assert_eq!(vec!["2000-01-01 00:00.jpeg"], names(cache.lookup("x").unwrap()));
}

#[test]
fn add_hands_the_item_back_where_the_day_cannot_be_had() {
    let mut cache = Cache::new("..".into(), "Tagged".into());
    let back = cache.add(jpeg("a.jpg", (2000, 1, 1), vec![Tag::new("t")])).unwrap_err();
    assert_eq!("a.jpg", back.path);
    assert_eq!(None, cache.lookup("Tagged"));
}

#[test]
fn assert_exists_makes_directories_and_tells_whether_the_path_leads_somewhere() {
    let mut cache = Cache::new("All".into(), "Tagged".into());
    assert!(cache.assert_exists("/a/b/c"));
    assert_eq!(vec!["c"], names(cache.lookup("a/b").unwrap()));
    assert!(cache.assert_exists("a/b"));
    assert!(cache.assert_exists(""));
    assert!(!cache.assert_exists("a/../d"));
    assert_eq!(None, cache.lookup("d"));
    let path = cache.add_item("a", jpeg("i.jpg", (2000, 1, 1), Vec::new())).unwrap();
    assert!(cache.assert_exists(&path));
    assert!(!cache.assert_exists(&format!("{}/below", path)));
}

#[test]
fn lookup_skips_root_and_dot_and_fails_on_dot_dot() {
    let mut cache = Cache::new("All".into(), "Tagged".into());
    let path = cache.add(jpeg("a.jpg", (2000, 1, 1), Vec::new())).unwrap();
    assert!(cache.lookup("").is_some());
    assert!(cache.lookup(".").is_some());
    assert!(cache.lookup("/.").is_some());
    assert!(cache.lookup(&format!("/{}", path)).is_some());
    assert!(cache.lookup(&format!("./{}", path)).is_some());
    assert!(cache.lookup("All//2000/./01/01/").is_some());
    assert_eq!(None, cache.lookup(".."));
    assert_eq!(None, cache.lookup("All/../All"));
    assert_eq!(None, cache.lookup("All/2000/01/01/.."));
    assert_eq!(None, cache.lookup("all"));
    assert_eq!(None, cache.lookup("All/2000/01/02"));
    assert_eq!(None, cache.lookup(&format!("{}/x", path)));
}

#[test]
fn timestamp_of_a_directory_is_the_latest_below_it() {
    let mut cache = Cache::new("All".into(), "Tagged".into());
    assert_eq!(Timespec::new(0, 0), cache.lookup("/").unwrap().timestamp());
    cache.add(jpeg("a.jpg", (1960, 1, 1), vec![Tag::new("t")])).unwrap();
    // An earlier time than the epoch is the latest where it is the only one.
    assert_eq!(Timespec::new(-315619200, 0), cache.lookup("/").unwrap().timestamp());
    cache.add(jpeg("b.jpg", (2000, 1, 2), Vec::new())).unwrap();
    cache.add(jpeg("c.jpg", (2000, 1, 1), Vec::new())).unwrap();
    assert_eq!(Timespec::new(946771200, 0), cache.lookup("/").unwrap().timestamp());
    assert_eq!(Timespec::new(946771200, 0), cache.lookup("All/2000").unwrap().timestamp());
    assert_eq!(Timespec::new(946684800, 0), cache.lookup("All/2000/01/01").unwrap().timestamp());
    assert_eq!(Timespec::new(-315619200, 0), cache.lookup("Tagged").unwrap().timestamp());
    cache.assert_exists("All/empty");
    assert_eq!(Timespec::new(0, 0), cache.lookup("All/empty").unwrap().timestamp());
}

#[test]
fn add_iter_stops_at_the_first_item_that_cannot_be_added() {
    let mut cache = Cache::new("All".into(), "Tagged".into());
    let blocker = cache.add_item("All/2000/01", jpeg("x.jpg", (2000, 1, 1), Vec::new())).unwrap();
    assert_eq!("All/2000/01/2000-01-01 00:00.jpeg", blocker);
    // The day directory of the 9th of January 2000 is fine, that named like
    // the item above is not.
    let items = vec![
        jpeg("a.jpg", (2000, 1, 9), Vec::new()),
        jpeg("b.jpg", (2000, 2, 1), Vec::new()),
    ];
    assert_eq!(Ok(()), cache.add_iter(items));
    let mut cache = Cache::new("All/2000/01/2000-01-01 00:00.jpeg".into(), "Tagged".into());
    cache.add_item("All/2000/01", jpeg("x.jpg", (2000, 1, 1), Vec::new())).unwrap();
    let items = vec![
        jpeg("a.jpg", (2000, 1, 9), Vec::new()),
        jpeg("b.jpg", (2000, 2, 1), Vec::new()),
    ];
    match cache.add_iter(items) {
        Err(Some(item)) => assert_eq!("a.jpg", item.path),
        other => panic!("{:?}", other),
    }
}

#[test]
fn replace_all_forgets_what_was_there() {
    let mut cache = Cache::new("All".into(), "Tagged".into());
    let old = cache.add(jpeg("old.jpg", (1999, 1, 1), vec![Tag::new("old")])).unwrap();
    let items = vec![
        jpeg("a.jpg", (2000, 1, 1), Vec::new()),
        jpeg("b.jpg", (2000, 1, 1), vec![Tag::new("new")]),
    ];
    assert_eq!(Ok(()), cache.replace_all(items));
    assert_eq!(None, cache.lookup(&old));
    assert_eq!(None, cache.lookup("All/1999"));
    assert_eq!(None, cache.lookup("Tagged/old"));
    assert!(cache.lookup("All/2000/01/01/2000-01-01 00:00.jpeg").is_some());
    assert!(cache.lookup("All/2000/01/01/2000-01-01 00:00 (1).jpeg").is_some());
    assert!(cache.lookup("Tagged/new/2000-01-01 00:00 (1).jpeg").is_some());

    let mut fresh = Cache::new("All".into(), "Tagged".into());
    let items = vec![
        jpeg("a.jpg", (2000, 1, 1), Vec::new()),
        jpeg("b.jpg", (2000, 1, 1), vec![Tag::new("new")]),
    ];
    assert_eq!(Ok(()), fresh.replace_all(items));
    assert_eq!(fresh.lookup("/"), cache.lookup("/"));
}

#[test]
fn add_with_index_takes_the_first_free_name() {
    let link = |t: &str| Entry::Link(Timespec::new(1, 0), String::from(t));
    let mut tree = vec![
        Child { name: String::from("b (1).c"), entry: link("x") },
        Child { name: String::from("b.c"), entry: link("y") },
        Child { name: String::from("b (3).c"), entry: link("z") },
    ];
    assert_eq!("dir/b (2).c", add_with_index("dir", &mut tree, link("a/b.c")));
    assert_eq!("dir/b (4).c", add_with_index("dir", &mut tree, link("b.c")));
    assert_eq!("/b.png", add_with_index("", &mut tree, link("b.png")));
    assert_eq!(6, tree.len());
    assert_eq!("b (2).c", tree[3].name);
    assert_eq!(link("a/b.c"), tree[3].entry);
}

#[test]
fn entry_names_and_clear() {
    let item = Entry::Item(Item::with_media_type(
        "a.jpg",
        Timestamp::from((2000, 1, 1, 9, 30, 59)),
        Vec::new(),
        MediaType::new("image/png"),
    ));
    assert_eq!("2000-01-01 09:30.png", item.name(0));
    assert_eq!("2000-01-01 09:30 (12).png", item.name(12));
    let link = Entry::Link(Timespec::new(1, 0), String::from("../x/name.tar.gz"));
    assert_eq!("name.tar.gz", link.name(0));
    assert_eq!("name.tar (1).gz", link.name(1));

    let mut cache = Cache::new("All".into(), "Tagged".into());
    cache.add(jpeg("a.jpg", (2000, 1, 1), Vec::new())).unwrap();
    cache.clear();
    assert_eq!(Some(&Entry::Directory(Vec::new())), cache.lookup("/"));
    let mut link = Entry::Link(Timespec::new(1, 0), String::from("x"));
    link.clear();
    assert_eq!(Entry::Link(Timespec::new(1, 0), String::from("x")), link);
}

#[test]
fn lookup_gives_the_same_entry_each_time() {
    let mut cache = Cache::new("All".into(), "Tagged".into());
    let path = cache.add(jpeg("a.jpg", (2000, 1, 1), vec![Tag::new("t")])).unwrap();
    let first = cache.lookup(&path);
    let second = cache.lookup(&path);
    assert!(first.is_some());
    assert_eq!(first, second);
    assert!(std::ptr::eq(first.unwrap(), second.unwrap()));
    assert_eq!(cache.lookup("Tagged/t"), cache.lookup("/Tagged//t/."));
}

#[test]
fn an_item_with_one_tag_given_twice_gets_one_link() {
    let mut cache = Cache::new("All".into(), "Tagged".into());
    cache.add(jpeg("a.jpg", (2000, 1, 1), vec![Tag::new("t"), Tag::new("t")])).unwrap();
    assert_eq!(vec!["2000-01-01 00:00.jpeg"], names(cache.lookup("Tagged/t").unwrap()));
}

#[test]
fn replace_all_holds_the_given_items_and_no_others() {
    fn items_below(entry: &Entry, found: &mut Vec<String>) {
        match entry {
            Entry::Directory(children) => children.iter().for_each(|c| items_below(&c.entry, found)),
            Entry::Item(item) => found.push(item.path.clone()),
            Entry::Link(_, _) => {}
        }
    }
    let mut cache = Cache::new("All".into(), "Tagged".into());
    cache.add(jpeg("old.jpg", (1999, 1, 1), vec![Tag::new("old")])).unwrap();
    let items = vec![
        jpeg("a.jpg", (2000, 1, 1), vec![Tag::new("t")]),
        jpeg("b.jpg", (2000, 1, 1), vec![Tag::new("t")]),
        jpeg("a.jpg", (2000, 1, 1), Vec::new()),
        jpeg("c.png", (2001, 5, 6), Vec::new()),
    ];
    assert_eq!(Ok(()), cache.replace_all(items));
    let mut found = Vec::new();
    items_below(cache.lookup("/").unwrap(), &mut found);
    found.sort();
    assert_eq!(vec!["a.jpg", "a.jpg", "b.jpg", "c.png"], found);
}
