use medifs::item::Item;
use medifs::media::MediaType;
use medifs::tag::Tag;
use medifs::time::Timestamp;

/// Tests creation of item of unknown type.
#[test]
fn new_unknown() {
    let item = Item::new(
        "some file.no-such-extension",
        (2000, 01, 01, 12, 0, 0).into(),
        Vec::new(),
    );
    assert_eq!(MediaType::new("application/octet-stream"), item.media_type);

    let item = Item::new("some file", (2000, 01, 01, 12, 0, 0).into(), Vec::new());
    assert_eq!(MediaType::new("application/octet-stream"), item.media_type);
}

/// Tests creation of JPEG item.
#[test]
fn new_jpeg() {
    let item = Item::new(
        "some file.jpg",
        (2000, 01, 01, 12, 0, 0).into(),
        Vec::new(),
    );

    assert_eq!(MediaType::new("image/jpeg"), item.media_type);
}

/// Tests stringification.
#[test]
fn to_string() {
    let item = Item::new(
        "some file.ext",
        (2000, 01, 01, 12, 0, 0).into(),
        Vec::new(),
    );

    assert_eq!(String::from("2000-01-01 12:00"), item.to_string());
}

#[test]
fn items_are_equal_by_source_path_alone() {
    let a = Item::new("a.jpg", Timestamp::from((2000, 1, 1)), Vec::new());
    let b = Item::new("a.jpg", Timestamp::from((2001, 2, 3)), vec![Tag::new("x")]);
    let c = Item::new("c.jpg", Timestamp::from((2000, 1, 1)), Vec::new());
    assert_eq!(a, b);
    assert_ne!(a, c);
}

#[test]
fn item_with_media_type_keeps_what_it_is_given() {
    let item = Item::with_media_type(
        "a.jpg",
        Timestamp::from((2000, 1, 1)),
        vec![Tag::new("x/y")],
        MediaType::new("image/png"),
    );
    assert_eq!("a.jpg", item.path);
    assert_eq!(Timestamp::from((2000, 1, 1)), item.timestamp);
    assert_eq!(vec![Tag::new("x/y")], item.tags);
    assert_eq!(MediaType::new("image/png"), item.media_type);
}

#[test]
fn a_tag_that_is_given_twice_counts_once() {
    let item = Item::new(
        "a.jpg",
        Timestamp::from((2000, 1, 1)),
        vec![Tag::new("b"), Tag::new("a/b"), Tag::new("b"), Tag::new("a"), Tag::new("a/b")],
    );
    assert_eq!(vec![Tag::new("b"), Tag::new("a/b"), Tag::new("a")], item.tags);
    assert!(Tag::new("a/b").same_as(&Tag::new("a").leaf("b")));
    assert!(!Tag::new("a/b").same_as(&Tag::new("a")));
    assert!(!Tag::new("a/b").same_as(&Tag::new("a/c")));
}
