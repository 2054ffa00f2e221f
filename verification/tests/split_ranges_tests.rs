use opencc_jieba_rs::find_max_utf8_length;
use opencc_jieba_rs::OpenCC;

#[test]
fn test_split_inclusive_refined() {
    let instance = OpenCC::without_dictionary();
    let text_cjk = "你好，世界！";
    // "你好，" (0..9), "世界！" (9..18)
    assert_eq!(instance.split_string_ranges(text_cjk, true), vec![0..9, 9..18]);

    let text_mixed = "Hello,World!Rust.";
    // "Hello," (0..6), "World!" (6..12), "Rust." (12..17)
    assert_eq!(
        instance.split_string_ranges(text_mixed, true),
        vec![0..6, 6..12, 12..17]
    );

    let text_no_delimiter = "HelloWorld";
    assert_eq!(instance.split_string_ranges(text_no_delimiter, true), vec![0..10]);

    let text_starts_with_delimiter = "，Hello"; // the full-width comma is 3 bytes
    assert_eq!(
        instance.split_string_ranges(text_starts_with_delimiter, true),
        vec![0..3, 3..8]
    );
}

#[test]
fn test_split_exclusive_refined() {
    let instance = OpenCC::without_dictionary();
    let text_cjk = "你好，世界！";
    // "你好" (0..6), "，" (6..9), "世界" (9..15), "！" (15..18)
    assert_eq!(
        instance.split_string_ranges(text_cjk, false),
        vec![0..6, 6..9, 9..15, 15..18]
    );

    let text_mixed = "Hello,World!Rust.";
    // "Hello" (0..5), "," (5..6), "World" (6..11), "!" (11..12), "Rust" (12..16), "." (16..17)
    assert_eq!(
        instance.split_string_ranges(text_mixed, false),
        vec![0..5, 5..6, 6..11, 11..12, 12..16, 16..17]
    );

    let text_no_delimiter = "HelloWorld";
    assert_eq!(instance.split_string_ranges(text_no_delimiter, false), vec![0..10]);

    let text_starts_with_delimiter = "，Hello";
    // "，" (0..3), "Hello" (3..8)
    assert_eq!(
        instance.split_string_ranges(text_starts_with_delimiter, false),
        vec![0..3, 3..8]
    );

    let text_consecutive_delimiters = "Hello,,World";
    // "Hello" (0..5), "," (5..6), "," (6..7), "World" (7..12)
    assert_eq!(
        instance.split_string_ranges(text_consecutive_delimiters, false),
        vec![0..5, 5..6, 6..7, 7..12]
    );

    let text_trailing_delimiter = "Hello!";
    // "Hello" (0..5), "!" (5..6)
    assert_eq!(
        instance.split_string_ranges(text_trailing_delimiter, false),
        vec![0..5, 5..6]
    );

    let text_only_delimiters = ",,,";
    // "," (0..1), "," (1..2), "," (2..3)
    assert_eq!(instance.split_string_ranges(text_only_delimiters, false), vec![0..1, 1..2, 2..3]);
}

#[test]
fn split_empty_input_test() {
    let instance = OpenCC::without_dictionary();
    assert_eq!(instance.split_string_ranges("", true), Vec::<std::ops::Range<usize>>::new());
    assert_eq!(instance.split_string_ranges("", false), Vec::<std::ops::Range<usize>>::new());
}

#[test]
fn find_max_utf8_length_test() {
    let s = "你好abc";
    let max_len = find_max_utf8_length(s, 7);
    assert_eq!(max_len, 7);
    assert_eq!(&s[..max_len], "你好a");
}

#[test]
fn find_max_utf8_length_boundary_test() {
    // cutting inside the second three-byte character backs off to its start
    assert_eq!(find_max_utf8_length("你好", 4), 3);
    assert_eq!(find_max_utf8_length("你好", 5), 3);
    assert_eq!(find_max_utf8_length("你好", 6), 6);
    // a string already within the limit keeps its full length
    assert_eq!(find_max_utf8_length("abc", 10), 3);
    assert_eq!(find_max_utf8_length("", 5), 0);
}
