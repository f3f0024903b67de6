use medifs::locator::{ItemLocator, Location};
use medifs::path::components;
use medifs::time::Timestamp;

/// Asserts that an item locator cannot be created from an invalid string.
#[test]
fn item_locator_parse_invalid_str() {
    assert_eq!(None, "invalid".parse::<ItemLocator>().ok());
    assert_eq!(None, "2000-01-01.jpg".parse::<ItemLocator>().ok());
    assert_eq!(
        None,
        "2000-01-01 01:01:01 (A).jpg".parse::<ItemLocator>().ok(),
    );
}

/// Asserts that an item locator can be created from a valid string.
#[test]
fn item_locator_parse_valid_str() {
    assert_eq!(
        ItemLocator {
            timestamp: (2000, 1, 2, 3, 4, 5).into(),
            index: 0,
            extension: String::from("ext"),
        },
        "2000-01-02 03:04:05.ext".parse::<ItemLocator>().unwrap(),
    );
    assert_eq!(
        ItemLocator {
            timestamp: (2000, 1, 2, 3, 4, 5).into(),
            index: 6,
            extension: String::from("ext"),
        },
        "2000-01-02 03:04:05 (6).ext"
            .parse::<ItemLocator>()
            .unwrap(),
    );
}

/// Asserts that an invalid location creation fails.
#[test]
fn location_new_invalid() {
    assert_eq!(None, Location::new(Some(1), None, Some(3), None));
}

/// Asserts that valid location cretaions succeed.
#[test]
fn location_new_valid() {
    assert_eq!(
        Location::Year(1),
        Location::new(Some(1), None, None, None).unwrap(),
    );
    assert_eq!(
        Location::Month(1, 2),
        Location::new(Some(1), Some(2), None, None).unwrap(),
    );
    assert_eq!(
        Location::Day(1, 2, 3),
        Location::new(Some(1), Some(2), Some(3), None).unwrap(),
    );
}

/// Asserts that a location cannot be created from an invalid string.
#[test]
fn location_from_str_invalid() {
    assert_eq!(None, Location::try_from(&components("a")));
    assert_eq!(None, Location::try_from(&components("1/2")));
    assert_eq!(None, Location::try_from(&components("1/02/3")));
    assert_eq!(
        None,
        Location::try_from(&components("1/02/03/1-02-03 04:05.jpeg")),
    );
    assert_eq!(
        None,
        Location::try_from(&components("1/02/03/1-02-03 04:05:06 (a).jpeg")),
    );
    assert_eq!(
        None,
        Location::try_from(&components("1/02/03/2-02-03 04:05:06 (7).jpeg")),
    );
}

/// Asserts that a location can be created from a valid string.
#[test]
fn location_from_str_valid() {
    assert_eq!(
        Location::Year(1),
        Location::try_from(&components("1")).unwrap(),
    );
    assert_eq!(
        Location::Month(1, 2),
        Location::try_from(&components("1/02")).unwrap(),
    );
    assert_eq!(
        Location::Day(1, 2, 3),
        Location::try_from(&components("1/02/03")).unwrap(),
    );
    assert_eq!(
        Location::Item(ItemLocator {
            timestamp: (1, 2, 3, 4, 5, 6).into(),
            index: 0,
            extension: String::from("jpeg"),
        }),
        Location::try_from(&components("1/02/03/1-02-03 04:05:06.jpeg")).unwrap(),
    );
    assert_eq!(
        Location::Item(ItemLocator {
            timestamp: (1, 2, 3, 4, 5, 6).into(),
            index: 7,
            extension: String::from("jpeg"),
        }),
        Location::try_from(&components("1/02/03/1-02-03 04:05:06 (7).jpeg")).unwrap(),
    );
}

#[test]
fn location_of_no_components_is_the_root() {
    assert_eq!(Some(Location::Root), Location::try_from(&components("")));
}

#[test]
fn location_reads_signed_numbers_of_two_characters() {
    assert_eq!(
        Some(Location::Month(-5, 7)),
        Location::try_from(&components("-5/+7")),
    );
    assert_eq!(None, Location::try_from(&components("5/007")));
}

#[test]
fn item_locator_is_found_inside_a_longer_name() {
    let found = ItemLocator::from_str("copy of 2000-01-02 03:04:05 (12).tar.gz").unwrap();
    assert_eq!(Timestamp::from((2000, 1, 2, 3, 4, 5)), found.timestamp);
    assert_eq!(12, found.index);
    assert_eq!("tar.gz", found.extension);
}

#[test]
fn item_locator_rejects_a_year_past_the_range() {
    assert_eq!(
        Err(()),
        ItemLocator::from_str("99999999999-01-02 03:04:05.ext"),
    );
}

#[test]
fn item_locator_index_past_the_range_counts_as_zero() {
    let found = ItemLocator::from_str("2000-01-02 03:04:05 (99999999999999999999999).ext").unwrap();
    assert_eq!(0, found.index);
}

#[test]
fn item_locator_from_groups_reads_each_group() {
    let groups = vec![
        Some(String::from("ignored")),
        Some(String::from("1999")),
        Some(String::from("12")),
        Some(String::from("31")),
        Some(String::from("23")),
        Some(String::from("59")),
        Some(String::from("58")),
        None,
        Some(String::from("png")),
    ];
    assert_eq!(
        Ok(ItemLocator {
            timestamp: (1999, 12, 31, 23, 59, 58).into(),
            index: 0,
            extension: String::from("png"),
        }),
        ItemLocator::from_groups(&groups),
    );
    assert_eq!(Err(()), ItemLocator::from_groups(&groups[..8].to_vec()));
}
