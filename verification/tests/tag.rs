use medifs::tag::Tag;

/// Tests that `leaf` works as expected.
#[test]
fn leaf() {
    let root = Tag::new("root");
    assert_eq!("root/leaf", root.leaf("leaf").to_string());
}

/// Tests that `is_root` works as expected.
#[test]
fn is_root() {
    let root = Tag::new("root");
    assert!(root.is_root());
    assert!(!root.leaf("leaf").is_root());
}

/// Test that a tag without parent behaves correctly.
#[test]
fn no_parent() {
    assert_eq!("root", Tag::new("root").to_string());
}

/// Tests that a tag with parent behaves correctly.
#[test]
fn with_parent() {
    let root = Tag::new("root");

    let leaf1 = root.leaf("leaf");
    assert_eq!(Some(&String::from("leaf")), leaf1.name());
    assert_eq!("root/leaf", leaf1.to_string());

    let leaf2 = leaf1.leaf("sub");
    assert_eq!(Some(&String::from("sub")), leaf2.name());
    assert_eq!("root/leaf/sub", leaf2.to_string());
}

/// Tests that an invalid string cannot be parsed.
#[test]
fn from_str_invalid() {
    assert_eq!(Err(()), "".parse::<Tag>());
    assert_eq!(Err(()), "/starts".parse::<Tag>());
    assert_eq!(Err(()), "ends/".parse::<Tag>());
}

/// Tests parsing of flat tags.
#[test]
fn from_str_no_parent() {
    let tag = "root".parse::<Tag>().unwrap();
    assert_eq!("root", tag.to_string());
}

/// Tests parsing of nested tags.
#[test]
fn from_str_with_parent() {
    let leaf1 = "root/leaf".parse::<Tag>().unwrap();
    assert_eq!(Some(&String::from("leaf")), leaf1.name());
    assert_eq!("root/leaf", leaf1.to_string());

    let leaf2 = "root/leaf/sub".parse::<Tag>().unwrap();
    assert_eq!(Some(&String::from("sub")), leaf2.name());
    assert_eq!("root/leaf/sub", leaf2.to_string());
}

#[test]
fn is_parent_of() {
    assert!(Tag::new("a").is_parent_of(&Tag::new("a/b")));
    assert!(Tag::new("a").is_parent_of(&Tag::new("a/b/c")));
    assert!(!Tag::new("a/b").is_parent_of(&Tag::new("a/b")));
    assert!(!Tag::new("a/b").is_parent_of(&Tag::new("a")));
    assert!(!Tag::new("b/a").is_parent_of(&Tag::new("a")));
}
