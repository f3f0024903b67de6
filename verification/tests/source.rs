use medifs::cache::{Cache, Entry};
use medifs::item::Item;
use medifs::source::{
    images, populate, DirectorySource, FileSystemBase, FileSystemItemGenerator, ItemMeta,
    RawMeta, ScannedFile, TagsSource, EXIF_TIMESTAMP_TAG_FORMAT, EXIF_TIMESTAMP_TAG_NAME,
    IPTC_KEYWORDS_TAG_NAME,
};
use medifs::tag::Tag;
use medifs::time::{Timespec, Timestamp};

fn file(path: &str, day: i32) -> ScannedFile {
    ScannedFile { path: String::from(path), modified: Timestamp::from((2000, 1, day)) }
}

#[test]
fn notify_asks_for_a_scan_when_the_directory_changed() {
    let mut base = FileSystemBase::new(String::from("/pictures"));
    assert_eq!(None, base.timestamp);
    // A time that cannot be read changes nothing.
    assert!(!base.notify(None));
    assert_eq!(None, base.timestamp);
    // The first look scans.
    assert!(base.start(Some(Timespec::new(10, 5))));
    assert_eq!(Some(Timespec::new(10, 5)), base.timestamp);
    // Two looks in a row with no change: no scan.
    assert!(!base.notify(Some(Timespec::new(10, 5))));
    assert!(!base.notify(Some(Timespec::new(10, 5))));
    assert_eq!(Some(Timespec::new(10, 5)), base.timestamp);
    // An earlier time: no scan.
    assert!(!base.notify(Some(Timespec::new(10, 4))));
    assert!(!base.notify(Some(Timespec::new(9, 999))));
    assert!(!base.notify(None));
    assert_eq!(Some(Timespec::new(10, 5)), base.timestamp);
    // A later time: scan.
    assert!(base.notify(Some(Timespec::new(10, 6))));
    assert_eq!(Some(Timespec::new(10, 6)), base.timestamp);
    assert!(base.notify(Some(Timespec::new(11, 0))));
    assert_eq!("/pictures", base.root);
}

#[test]
fn images_keeps_files_with_the_extension_of_an_image() {
    let files = vec![
        file("a.jpg", 1),
        file("notes.txt", 2),
        file("b.PNG", 3),
        file("no extension", 4),
        file("dir.jpg/c.gif", 5),
        file("d.mp4", 6),
    ];
    let kept: Vec<String> = images(files).into_iter().map(|f| f.path).collect();
    assert_eq!(vec!["a.jpg", "b.PNG", "dir.jpg/c.gif"], kept);
}

#[test]
fn directory_source_makes_items_of_files_by_their_time() {
    let source = DirectorySource::new(String::from("/pictures"));
    assert_eq!("/pictures", source.base.root);
    let item = source.item(&file("/pictures/a.jpg", 7));
    assert_eq!("/pictures/a.jpg", item.path);
    assert_eq!(Timestamp::from((2000, 1, 7)), item.timestamp);
    assert!(item.tags.is_empty());
    assert_eq!("image/jpeg", item.media_type.text);
}

#[test]
fn populate_replaces_the_cache_by_the_images() {
    let source = DirectorySource::new(String::from("/pictures"));
    let mut cache = Cache::new("All".into(), "Tagged".into());
    let old = cache
        .add(Item::new("old.jpg", Timestamp::from((1999, 1, 1)), Vec::new()))
        .unwrap();
    let files = vec![file("a.jpg", 1), file("notes.txt", 1), file("b.jpg", 1), file("c.png", 2)];
    assert_eq!(Ok(()), populate(&source, &mut cache, files));
    assert_eq!(None, cache.lookup(&old));
    for (path, found) in [
        ("All/2000/01/01/2000-01-01 00:00.jpeg", "a.jpg"),
        ("All/2000/01/01/2000-01-01 00:00 (1).jpeg", "b.jpg"),
        ("All/2000/01/02/2000-01-02 00:00.png", "c.png"),
    ] {
        match cache.lookup(path) {
            Some(Entry::Item(item)) => assert_eq!(found, item.path),
            other => panic!("{:?}", other),
        }
    }
    assert_eq!(None, cache.lookup("All/2000/01/01/2000-01-01 00:00 (2).jpeg"));
}

#[test]
fn populate_hands_back_the_first_item_that_cannot_be_added() {
    let source = DirectorySource::new(String::from("/pictures"));
    let mut cache = Cache::new("All/..".into(), "Tagged".into());
    match populate(&source, &mut cache, vec![file("x.txt", 1), file("a.jpg", 1), file("b.jpg", 1)]) {
        Err(Some(item)) => assert_eq!("a.jpg", item.path),
        other => panic!("{:?}", other),
    }
}

#[test]
fn metadata_gives_timestamp_and_tags() {
    assert_eq!("Exif.Photo.DateTimeOriginal", EXIF_TIMESTAMP_TAG_NAME);
    assert_eq!("%Y:%m:%d %H:%M:%S", EXIF_TIMESTAMP_TAG_FORMAT);
    assert_eq!("Iptc.Application2.Keywords", IPTC_KEYWORDS_TAG_NAME);
    let modified = Timestamp::from((2000, 1, 7));
    assert_eq!(
        Timestamp::from((2003, 12, 14, 12, 1, 44)),
        ItemMeta::timestamp(&Some(String::from("2003:12:14 12:01:44")), modified),
    );
    assert_eq!(modified, ItemMeta::timestamp(&Some(String::from("yesterday")), modified));
    assert_eq!(modified, ItemMeta::timestamp(&None, modified));

    let keywords = vec![
        String::from("root/leaf"),
        String::from("solo"),
        String::from("/odd"),
        String::from("odd/"),
        String::new(),
    ];
    assert_eq!(
        vec![
            Tag { parts: vec![String::from("root"), String::from("leaf")] },
            Tag { parts: vec![String::from("solo")] },
            Tag { parts: vec![String::from("/odd")] },
            Tag { parts: vec![String::from("odd/")] },
            Tag { parts: vec![String::new()] },
        ],
        ItemMeta::tags(&Some(keywords)),
    );
    assert_eq!(Vec::<Tag>::new(), ItemMeta::tags(&None));

    // A tag that two keywords stand for is kept once.
    let twice = vec![
        String::from("b"),
        String::from("a/b"),
        String::from("b"),
        String::from("a/b"),
        String::from("a"),
    ];
    assert_eq!(
        vec![Tag::new("b"), Tag::new("a/b"), Tag::new("a")],
        ItemMeta::tags(&Some(twice)),
    );
}

#[test]
fn item_meta_makes_items() {
    let found = file("a.jpg", 7);
    let missing = ItemMeta::from_raw(&None, found.modified);
    assert!(matches!(missing, ItemMeta::Missing));
    let item = missing.item(&found);
    assert_eq!((Timestamp::from((2000, 1, 7)), 0), (item.timestamp, item.tags.len()));

    let raw = RawMeta {
        taken: Some(String::from("2003:12:14 12:01:44")),
        keywords: Some(vec![String::from("root/leaf")]),
    };
    let present = ItemMeta::from_raw(&Some(raw), found.modified);
    let item = present.item(&found);
    assert_eq!("a.jpg", item.path);
    assert_eq!(Timestamp::from((2003, 12, 14, 12, 1, 44)), item.timestamp);
    assert_eq!(vec![Tag::new("root/leaf")], item.tags);
    assert_eq!("image/jpeg", item.media_type.text);

    let bare = ItemMeta::from_raw(&Some(RawMeta { taken: None, keywords: None }), found.modified);
    let item = bare.item(&found);
    assert_eq!((Timestamp::from((2000, 1, 7)), 0), (item.timestamp, item.tags.len()));
}

#[test]
fn tags_source_keeps_what_it_was_told_first() {
    let mut source = TagsSource::new(String::from("/pictures"));
    let found = file("a.jpg", 7);
    assert!(source.known("a.jpg").is_none());
    assert_eq!(Timestamp::from((2000, 1, 7)), source.item(&found).timestamp);

    source.remember("a.jpg", ItemMeta::Present(Timestamp::from((2003, 1, 1)), vec![Tag::new("t")]));
    source.remember("a.jpg", ItemMeta::Missing);
    source.remember("b.jpg", ItemMeta::Missing);
    assert_eq!(2, source.tags.len());
    assert!(matches!(source.known("a.jpg"), Some(ItemMeta::Present(_, _))));
    assert!(matches!(source.known("b.jpg"), Some(ItemMeta::Missing)));
    assert!(source.known("c.jpg").is_none());

    let item = source.item(&found);
    assert_eq!(Timestamp::from((2003, 1, 1)), item.timestamp);
    assert_eq!(vec![Tag::new("t")], item.tags);
    assert_eq!(Timestamp::from((2000, 1, 9)), source.item(&file("b.jpg", 9)).timestamp);

    let mut cache = Cache::new("All".into(), "Tagged".into());
    assert_eq!(Ok(()), populate(&source, &mut cache, vec![file("a.jpg", 7), file("b.jpg", 9)]));
    assert!(cache.lookup("All/2003/01/01/2003-01-01 00:00.jpeg").is_some());
    assert!(cache.lookup("Tagged/t/2003-01-01 00:00.jpeg").is_some());
    assert!(cache.lookup("All/2000/01/09/2000-01-09 00:00.jpeg").is_some());
}
