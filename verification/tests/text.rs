use medifs::text::{
    clone_strings, parse_i32, parse_usize, push_decimal, push_decimal_nat, push_decimal_padded,
    split,
};

#[test]
fn split_keeps_empty_pieces() {
    assert_eq!(vec![""], split("", '/'));
    assert_eq!(vec!["a"], split("a", '/'));
    assert_eq!(vec!["", "a"], split("/a", '/'));
    assert_eq!(vec!["a", ""], split("a/", '/'));
    assert_eq!(vec!["a", "", "b"], split("a//b", '/'));
    assert_eq!(vec!["", ""], split("/", '/'));
    assert_eq!(vec!["ä", "ö ü"], split("ä/ö ü", '/'));
}

#[test]
fn split_is_that_of_the_standard_library() {
    for text in ["", "/", "a/b/c", "//", "a//", "/a/", "root/leaf/sub"] {
        let expected: Vec<String> = text.split('/').map(String::from).collect();
        assert_eq!(expected, split(text, '/'));
    }
}

#[test]
fn decimal_numbers() {
    for n in [0i64, 7, 10, 99, 100, -1, -10, 2000, i64::MAX, i64::MIN] {
        let mut s = String::from(">");
        push_decimal(&mut s, n);
        assert_eq!(format!(">{}", n), s);
        let mut s = String::new();
        push_decimal_padded(&mut s, n);
        assert_eq!(format!("{:02}", n), s);
    }
    let mut s = String::new();
    push_decimal_nat(&mut s, u64::MAX);
    assert_eq!(format!("{}", u64::MAX), s);
}

#[test]
fn parse_i32_reads_what_the_standard_library_reads() {
    for text in [
        "", "0", "7", "-7", "+7", "007", "-0", "+", "-", "2147483647", "2147483648",
        "-2147483648", "-2147483649", "99999999999999999999999", "1a", "a1", " 1", "1 ", "--1",
        "+-1", "١",
    ] {
        assert_eq!(text.parse::<i32>().ok(), parse_i32(text), "{:?}", text);
    }
}

#[test]
fn parse_usize_reads_what_the_standard_library_reads() {
    let max = usize::MAX.to_string();
    let past = format!("{}0", usize::MAX);
    for text in [
        "", "0", "7", "-7", "+7", "007", "-0", "+", "-", max.as_str(), past.as_str(),
        "18446744073709551616", "1a", "a1",
    ] {
        assert_eq!(text.parse::<usize>().ok(), parse_usize(text), "{:?}", text);
    }
}

#[test]
fn clone_strings_copies_each() {
    let v = vec![String::from("a"), String::new(), String::from("b c")];
    assert_eq!(v, clone_strings(&v));
}
